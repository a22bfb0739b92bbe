//! The tokenizer: comments and white space are dropped, and every label
//! marker closes the token it stands in.

use crate::text::{chars_of, is_line_end, is_space, line_end, space};
use vstd::prelude::*;

verus! {

/// The character that opens a comment, which runs to the end of its line.
pub const COMMENT: char = ';';

/// The character that closes a label declaration.
pub const MARKER: char = ':';

/// The state of a scan over source text: the tokens completed so far, the
/// characters of the token being read, and whether the scan is inside a
/// comment.
pub struct Scan {
    pub done: Seq<Seq<char>>,
    pub word: Seq<char>,
    pub comment: bool,
}

/// The state before any character was read.
pub open spec fn scan_start() -> Scan {
    Scan { done: Seq::empty(), word: Seq::empty(), comment: false }
}

/// Ends the token being read, if there is one.
pub open spec fn close_word(s: Scan) -> Scan {
    if s.word.len() > 0 {
        Scan { done: s.done.push(s.word), word: Seq::empty(), comment: s.comment }
    } else {
        s
    }
}

/// Reads one character.
///
/// Inside a comment everything is dropped up to and including the first line
/// end. Outside, a comment marker and white space end the current token, a
/// label marker joins the current token and ends it, and any other character
/// joins the current token.
pub open spec fn scan_char(s: Scan, c: char) -> Scan {
    if s.comment {
        Scan { done: s.done, word: s.word, comment: !is_line_end(c) }
    } else if c == COMMENT {
        Scan { done: close_word(s).done, word: Seq::empty(), comment: true }
    } else if is_space(c) {
        close_word(s)
    } else if c == MARKER {
        Scan { done: s.done.push(s.word.push(c)), word: Seq::empty(), comment: false }
    } else {
        Scan { done: s.done, word: s.word.push(c), comment: false }
    }
}

/// Reads `text` from the state `s`.
pub open spec fn scan_from(s: Scan, text: Seq<char>) -> Scan
    decreases text.len(),
{
    if text.len() == 0 {
        s
    } else {
        scan_char(scan_from(s, text.drop_last()), text.last())
    }
}

/// The tokens of `text`, in order.
pub open spec fn tokens_of(text: Seq<char>) -> Seq<Seq<char>> {
    close_word(scan_from(scan_start(), text)).done
}

/// Whether `text` ends inside a comment that no line end has closed.
pub open spec fn ends_in_comment(text: Seq<char>) -> bool {
    scan_from(scan_start(), text).comment
}

/// The source as one text: every piece, each closed by a line feed.
pub open spec fn source_text(pieces: Seq<Seq<char>>) -> Seq<char>
    decreases pieces.len(),
{
    if pieces.len() == 0 {
        Seq::empty()
    } else {
        source_text(pieces.drop_last()) + pieces.last().push('\n')
    }
}

/// The character sequences of the pieces of a source.
pub open spec fn pieces_of(source: Seq<&str>) -> Seq<Seq<char>> {
    Seq::new(source.len(), |i: int| source[i]@)
}

/// Whether `text` holds no white space, no comment marker and no label
/// marker.
pub open spec fn is_plain(text: Seq<char>) -> bool {
    forall|k: int|
        0 <= k < text.len() ==> !is_space(#[trigger] text[k]) && text[k] != COMMENT && text[k]
            != MARKER
}

/// Whether `text` has the shape of a token: it is not empty and holds no
/// white space and no comment marker, and a label marker at most as its
/// last character.
pub open spec fn is_token(text: Seq<char>) -> bool {
    &&& text.len() > 0
    &&& is_plain(text.drop_last())
    &&& !is_space(text.last())
    &&& text.last() != COMMENT
}

/// What a scan has read so far has the shape of tokens.
pub proof fn lemma_scan_shape(text: Seq<char>)
    ensures
        is_plain(scan_from(scan_start(), text).word),
        forall|i: int|
            0 <= i < scan_from(scan_start(), text).done.len() ==> is_token(
                #[trigger] scan_from(scan_start(), text).done[i],
            ),
    decreases text.len(),
{
    if text.len() > 0 {
        lemma_scan_shape(text.drop_last());
        let before = scan_from(scan_start(), text.drop_last());
        let after = scan_from(scan_start(), text);
        let c = text.last();
        assert(before.word.push(c).drop_last() =~= before.word);
        if before.word.len() > 0 {
            assert(is_plain(before.word.drop_last()));
        }
        assert forall|i: int| 0 <= i < after.done.len() implies is_token(
            #[trigger] after.done[i],
        ) by {
            if i < before.done.len() {
                assert(after.done[i] == before.done[i]);
            }
        }
    }
}

/// Every token is not empty and holds no white space and no comment marker,
/// and a label marker at most as its last character: a token declares a
/// label exactly if it ends with the marker.
pub proof fn lemma_tokens_shape(text: Seq<char>)
    ensures
        forall|i: int|
            0 <= i < tokens_of(text).len() ==> is_token(#[trigger] tokens_of(text)[i]),
{
    lemma_scan_shape(text);
    let read = scan_from(scan_start(), text);
    if read.word.len() > 0 {
        assert(is_plain(read.word.drop_last()));
    }
    assert forall|i: int| 0 <= i < tokens_of(text).len() implies is_token(
        #[trigger] tokens_of(text)[i],
    ) by {
        if i < read.done.len() {
            assert(tokens_of(text)[i] == read.done[i]);
        }
    }
}

/// The texts of `tokens`, one after the other.
pub open spec fn joined(tokens: Seq<Seq<char>>) -> Seq<char>
    decreases tokens.len(),
{
    if tokens.len() == 0 {
        Seq::empty()
    } else {
        joined(tokens.drop_last()) + tokens.last()
    }
}

/// The characters of `text` that are neither white space nor part of a
/// comment, in order.
pub open spec fn visible(text: Seq<char>) -> Seq<char>
    decreases text.len(),
{
    if text.len() == 0 {
        Seq::empty()
    } else if ends_in_comment(text.drop_last()) || text.last() == COMMENT || is_space(
        text.last(),
    ) {
        visible(text.drop_last())
    } else {
        visible(text.drop_last()).push(text.last())
    }
}

/// What a scan has read so far holds every visible character once.
pub proof fn lemma_scan_keeps_text(text: Seq<char>)
    ensures
        joined(scan_from(scan_start(), text).done) + scan_from(scan_start(), text).word
            == visible(text),
    decreases text.len(),
{
    if text.len() > 0 {
        lemma_scan_keeps_text(text.drop_last());
        let before = scan_from(scan_start(), text.drop_last());
        let c = text.last();
        if !before.comment {
            assert(before.done.push(before.word).drop_last() =~= before.done);
            assert(before.done.push(before.word.push(c)).drop_last() =~= before.done);
            assert(joined(before.done) + before.word.push(c) =~= (joined(before.done)
                + before.word).push(c));
            assert(joined(before.done) + before.word + Seq::<char>::empty() =~= joined(
                before.done,
            ) + before.word);
            assert(joined(before.done) + Seq::<char>::empty() =~= joined(before.done));
            if before.word.len() == 0 {
                assert(joined(before.done) + before.word =~= joined(before.done));
            }
        }
    } else {
        assert(joined(scan_start().done) + scan_start().word =~= Seq::<char>::empty());
    }
}

/// Tokenizing loses no character and repeats none: the tokens, one after
/// the other, are the text without its white space and its comments.
pub proof fn lemma_tokens_keep_text(text: Seq<char>)
    ensures
        joined(tokens_of(text)) == visible(text),
{
    lemma_scan_keeps_text(text);
    let read = scan_from(scan_start(), text);
    if read.word.len() > 0 {
        assert(read.done.push(read.word).drop_last() =~= read.done);
    } else {
        assert(joined(read.done) + read.word =~= joined(read.done));
    }
}

/// Whether `text` is filler: it is not empty, each of its characters is
/// white space, a comment marker or part of a comment, and its last comment
/// is closed by a line end.
pub open spec fn is_filler(text: Seq<char>) -> bool {
    &&& text.len() > 0
    &&& !ends_in_comment(text)
    &&& forall|i: int|
        0 <= i < text.len() ==> is_space(#[trigger] text[i]) || text[i] == COMMENT
            || ends_in_comment(text.take(i))
}

/// Reading a text is reading its first part and then the rest.
pub proof fn lemma_scan_concat(s: Scan, a: Seq<char>, b: Seq<char>)
    ensures
        scan_from(s, a + b) == scan_from(scan_from(s, a), b),
    decreases b.len(),
{
    if b.len() == 0 {
        assert(a + b =~= a);
    } else {
        lemma_scan_concat(s, a, b.drop_last());
        assert((a + b).drop_last() =~= a + b.drop_last());
        assert((a + b).last() == b.last());
    }
}

/// Tokens that were completed before a text is read stay as they are, and
/// change nothing in what is read after them.
pub proof fn lemma_scan_after(before: Seq<Seq<char>>, s: Scan, text: Seq<char>)
    ensures
        scan_from(Scan { done: before + s.done, word: s.word, comment: s.comment }, text) == (Scan {
            done: before + scan_from(s, text).done,
            word: scan_from(s, text).word,
            comment: scan_from(s, text).comment,
        }),
    decreases text.len(),
{
    let shifted = Scan { done: before + s.done, word: s.word, comment: s.comment };
    if text.len() > 0 {
        lemma_scan_after(before, s, text.drop_last());
        let inner = scan_from(s, text.drop_last());
        let outer = scan_from(shifted, text.drop_last());
        let c = text.last();
        assert((before + inner.done).push(inner.word) =~= before + inner.done.push(inner.word));
        assert((before + inner.done).push(inner.word.push(c)) =~= before + inner.done.push(
            inner.word.push(c),
        ));
        assert(scan_char(outer, c).done =~= before + scan_char(inner, c).done);
    } else {
        assert(shifted.done =~= before + scan_from(s, text).done);
    }
}

/// Filler that is read outside a comment ends the token being read and
/// leaves nothing else behind.
pub proof fn lemma_scan_filler(s: Scan, filler: Seq<char>, k: int)
    requires
        !s.comment,
        is_filler(filler),
        1 <= k <= filler.len(),
    ensures
        scan_from(s, filler.take(k)) == (Scan {
            done: close_word(s).done,
            word: Seq::empty(),
            comment: ends_in_comment(filler.take(k)),
        }),
    decreases k,
{
    let c = filler[k - 1];
    assert(filler.take(k).drop_last() =~= filler.take(k - 1));
    assert(filler.take(k).last() == c);
    assert(is_space(filler[k - 1]) || filler[k - 1] == COMMENT || ends_in_comment(
        filler.take(k - 1),
    ));
    if k == 1 {
        assert(filler.take(0) =~= Seq::<char>::empty());
        assert(scan_from(s, filler.take(0)) == s);
        assert(scan_from(scan_start(), filler.take(0)) == scan_start());
    } else {
        lemma_scan_filler(s, filler, k - 1);
    }
    let read = scan_from(s, filler.take(k));
    assert(read.word =~= Seq::<char>::empty());
    assert(read.done =~= close_word(s).done);
}

/// Filler between two texts, the first of which does not end inside a
/// comment, separates their tokens and adds none.
pub proof fn lemma_filler_separates(a: Seq<char>, filler: Seq<char>, b: Seq<char>)
    requires
        !ends_in_comment(a),
        is_filler(filler),
    ensures
        tokens_of(a + filler + b) == tokens_of(a) + tokens_of(b),
{
    let start = scan_start();
    let sa = scan_from(start, a);
    lemma_scan_concat(start, a + filler, b);
    lemma_scan_concat(start, a, filler);
    lemma_scan_filler(sa, filler, filler.len() as int);
    assert(filler.take(filler.len() as int) =~= filler);
    let clean = Scan { done: tokens_of(a), word: Seq::empty(), comment: false };
    assert(scan_from(start, a + filler) == clean);
    lemma_scan_after(tokens_of(a), start, b);
    assert(tokens_of(a) + start.done =~= tokens_of(a));
    let sb = scan_from(start, b);
    assert((tokens_of(a) + sb.done).push(sb.word) =~= tokens_of(a) + sb.done.push(sb.word));
}

/// White space and comments between tokens do not matter: whatever filler
/// stands between two texts, the tokens are the same.
pub proof fn lemma_filler_insensitive(
    a: Seq<char>,
    filler: Seq<char>,
    other: Seq<char>,
    b: Seq<char>,
)
    requires
        !ends_in_comment(a),
        is_filler(filler),
        is_filler(other),
    ensures
        tokens_of(a + filler + b) == tokens_of(a + other + b),
{
    lemma_filler_separates(a, filler, b);
    lemma_filler_separates(a, other, b);
}

/// A line feed after a text ends its last token and its last comment, and
/// adds no token.
pub proof fn lemma_line_feed_closes(text: Seq<char>)
    ensures
        scan_from(scan_start(), text.push('\n')) == (Scan {
            done: tokens_of(text),
            word: Seq::empty(),
            comment: false,
        }),
{
    let read = scan_from(scan_start(), text);
    let closed = scan_from(scan_start(), text.push('\n'));
    assert(text.push('\n').drop_last() =~= text);
    if read.comment {
        lemma_comment_has_no_word(text);
    }
    assert(closed.word =~= Seq::<char>::empty());
    assert(closed.done =~= tokens_of(text));
}

/// Inside a comment no token is being read.
pub proof fn lemma_comment_has_no_word(text: Seq<char>)
    ensures
        ends_in_comment(text) ==> scan_from(scan_start(), text).word.len() == 0,
    decreases text.len(),
{
    if text.len() > 0 {
        lemma_comment_has_no_word(text.drop_last());
    }
}

/// After a whole source the scan rests outside tokens and comments, and
/// the last piece has added its own tokens to those before it.
pub proof fn lemma_source_scan(pieces: Seq<Seq<char>>)
    ensures
        scan_from(scan_start(), source_text(pieces)).word.len() == 0,
        !ends_in_comment(source_text(pieces)),
        pieces.len() > 0 ==> tokens_of(source_text(pieces)) == tokens_of(
            source_text(pieces.drop_last()),
        ) + tokens_of(pieces.last()),
    decreases pieces.len(),
{
    if pieces.len() > 0 {
        let start = scan_start();
        let before = source_text(pieces.drop_last());
        let line = pieces.last().push('\n');
        lemma_source_scan(pieces.drop_last());
        let read = scan_from(start, before);
        lemma_scan_concat(start, before, line);
        lemma_line_feed_closes(pieces.last());
        lemma_scan_after(read.done, start, line);
        assert(read.done + start.done =~= read.done);
        assert(read.word =~= start.word);
        assert(read == Scan { done: read.done + start.done, word: start.word, comment: false });
    }
}

/// A source that comes in pieces has the tokens of its pieces, one piece
/// after the other: no token and no comment reaches from one piece into the
/// next.
pub proof fn lemma_pieces_tokens(pieces: Seq<Seq<char>>, piece: Seq<char>)
    ensures
        tokens_of(source_text(pieces.push(piece))) == tokens_of(source_text(pieces)) + tokens_of(
            piece,
        ),
{
    lemma_source_scan(pieces.push(piece));
    assert(pieces.push(piece).drop_last() =~= pieces);
}

/// The tokens of the pieces of a source, one piece after the other.
pub open spec fn pieces_tokens(pieces: Seq<Seq<char>>) -> Seq<Seq<char>>
    decreases pieces.len(),
{
    if pieces.len() == 0 {
        Seq::empty()
    } else {
        pieces_tokens(pieces.drop_last()) + tokens_of(pieces.last())
    }
}

/// The tokens of a source are the tokens of its pieces, one piece after the
/// other.
pub proof fn lemma_source_tokens(pieces: Seq<Seq<char>>)
    ensures
        tokens_of(source_text(pieces)) == pieces_tokens(pieces),
    decreases pieces.len(),
{
    if pieces.len() > 0 {
        lemma_source_tokens(pieces.drop_last());
        lemma_source_scan(pieces);
    }
}

/// Pieces with the same tokens, piece by piece, make sources with the same
/// tokens.
pub proof fn lemma_pieces_alike(pieces: Seq<Seq<char>>, others: Seq<Seq<char>>)
    requires
        pieces.len() == others.len(),
        forall|i: int|
            0 <= i < pieces.len() ==> tokens_of(#[trigger] pieces[i]) == tokens_of(others[i]),
    ensures
        tokens_of(source_text(pieces)) == tokens_of(source_text(others)),
    decreases pieces.len(),
{
    lemma_source_tokens(pieces);
    lemma_source_tokens(others);
    lemma_pieces_tokens_alike(pieces, others);
}

proof fn lemma_pieces_tokens_alike(pieces: Seq<Seq<char>>, others: Seq<Seq<char>>)
    requires
        pieces.len() == others.len(),
        forall|i: int|
            0 <= i < pieces.len() ==> tokens_of(#[trigger] pieces[i]) == tokens_of(others[i]),
    ensures
        pieces_tokens(pieces) == pieces_tokens(others),
    decreases pieces.len(),
{
    if pieces.len() > 0 {
        assert(tokens_of(pieces[pieces.len() - 1]) == tokens_of(others[pieces.len() - 1]));
        assert forall|i: int| 0 <= i < pieces.drop_last().len() implies tokens_of(
            #[trigger] pieces.drop_last()[i],
        ) == tokens_of(others.drop_last()[i]) by {
            assert(tokens_of(pieces[i]) == tokens_of(others[i]));
        }
        lemma_pieces_tokens_alike(pieces.drop_last(), others.drop_last());
    }
}

/// The place of a token in the source text: from `start` up to `end`.
#[derive(Clone, Copy, Debug)]
pub struct Span {
    pub start: usize,
    pub end: usize,
}

/// The tokens of a source, held as spans over one copy of its text.
#[derive(Clone, Debug)]
pub struct Tokens {
    text: Vec<char>,
    spans: Vec<Span>,
}

impl View for Tokens {
    type V = Seq<Seq<char>>;

    closed spec fn view(&self) -> Seq<Seq<char>> {
        spans_text(self.text@, self.spans@)
    }
}

/// The texts that `spans` cut out of `text`.
pub open spec fn spans_text(text: Seq<char>, spans: Seq<Span>) -> Seq<Seq<char>> {
    Seq::new(spans.len(), |i: int| text.subrange(spans[i].start as int, spans[i].end as int))
}

/// Whether `spans` are non-empty, lie in a text of `len` characters, and
/// follow one another without overlap.
pub open spec fn spans_ordered(spans: Seq<Span>, len: int) -> bool {
    &&& forall|i: int| 0 <= i < spans.len() ==> (#[trigger] spans[i]).start < spans[i].end <= len
    &&& forall|i: int, j: int|
        0 <= i < j < spans.len() ==> (#[trigger] spans[i]).end <= (#[trigger] spans[j]).start
}

impl Tokens {
    /// The invariant of the type: see [`spans_ordered`].
    pub closed spec fn wf(&self) -> bool {
        spans_ordered(self.spans@, self.text@.len() as int)
    }

    /// The number of characters of the source text.
    pub closed spec fn source_len(&self) -> nat {
        self.text@.len()
    }

    /// Where token `i` begins in the source text; the length of the text for
    /// `i` past the last token.
    pub closed spec fn start_of(&self, i: int) -> int {
        if 0 <= i < self.spans@.len() {
            self.spans@[i].start as int
        } else {
            self.text@.len() as int
        }
    }

    /// Tokens are not empty, and each begins where the ones before it have
    /// ended, or later.
    pub proof fn lemma_layout(&self, i: int, j: int)
        requires
            self.wf(),
            0 <= i < j <= self@.len(),
        ensures
            self@[i].len() > 0,
            0 <= self.start_of(i),
            self.start_of(i) + self@[i].len() <= self.start_of(j) <= self.source_len(),
    {
        if j < self.spans@.len() {
            assert(self.spans@[i].end <= self.spans@[j].start);
        }
    }

    /// Every token begins inside the source text.
    pub proof fn lemma_start(&self, i: int)
        requires
            self.wf(),
        ensures
            0 <= self.start_of(i) <= self.source_len(),
            i >= self@.len() ==> self.start_of(i) == self.source_len(),
    {
    }

    /// The number of characters of the source text.
    pub fn source_size(&self) -> (n: usize)
        ensures
            n == self.source_len(),
    {
        self.text.len()
    }

    /// The number of tokens.
    pub fn len(&self) -> (n: usize)
        ensures
            n == self@.len(),
    {
        self.spans.len()
    }

    /// The text of token `i`.
    pub fn get(&self, i: usize) -> (token: &[char])
        requires
            self.wf(),
            i < self@.len(),
        ensures
            token@ == self@[i as int],
    {
        let span: Span = self.spans[i];
        let slice: &[char] = self.text.as_slice();
        &slice[span.start..span.end]
    }
}

/// Splits a source into its tokens.
pub fn tokenize(source: &[&str]) -> (tokens: Tokens)
    ensures
        tokens.wf(),
        tokens@ == tokens_of(source_text(pieces_of(source@))),
        tokens.source_len() == source_text(pieces_of(source@)).len(),
{
    let text: Vec<char> = join(source);
    let spans: Vec<Span> = scan_spans(&text);
    Tokens { text, spans }
}

fn join(source: &[&str]) -> (text: Vec<char>)
    ensures
        text@ == source_text(pieces_of(source@)),
{
    let mut text: Vec<char> = Vec::new();
    let mut p: usize = 0;
    while p < source.len()
        invariant
            p <= source.len(),
            text@ == source_text(pieces_of(source@).take(p as int)),
        decreases source.len() - p,
    {
        let mut piece: Vec<char> = chars_of(source[p]);
        let ghost before = text@;
        text.append(&mut piece);
        text.push('\n');
        proof {
            let pieces = pieces_of(source@);
            assert(pieces.take(p + 1).drop_last() =~= pieces.take(p as int));
            assert(pieces.take(p + 1).last() == source@[p as int]@);
            assert(text@ =~= before + source@[p as int]@.push('\n'));
        }
        p += 1;
    }
    assert(pieces_of(source@).take(p as int) =~= pieces_of(source@));
    text
}

fn scan_spans(text: &Vec<char>) -> (spans: Vec<Span>)
    ensures
        spans_ordered(spans@, text@.len() as int),
        spans_text(text@, spans@) == tokens_of(text@),
{
    let mut spans: Vec<Span> = Vec::new();
    let mut start: usize = 0;
    let mut in_word: bool = false;
    let mut comment: bool = false;
    let mut i: usize = 0;
    while i < text.len()
        invariant
            i <= text.len(),
            in_word ==> start < i && !comment,
            spans_ordered(spans@, if in_word { start as int } else { i as int }),
            scan_from(scan_start(), text@.take(i as int)).done == spans_text(text@, spans@),
            scan_from(scan_start(), text@.take(i as int)).word == (if in_word {
                text@.subrange(start as int, i as int)
            } else {
                Seq::empty()
            }),
            scan_from(scan_start(), text@.take(i as int)).comment == comment,
        decreases text.len() - i,
    {
        let c: char = text[i];
        let ghost old_spans = spans@;
        proof {
            assert(text@.take(i + 1).drop_last() =~= text@.take(i as int));
            assert(text@.take(i + 1).last() == c);
        }
        if comment {
            if line_end(c) {
                comment = false;
            }
        } else if c == COMMENT {
            if in_word {
                spans.push(Span { start, end: i });
                in_word = false;
            }
            comment = true;
        } else if space(c) {
            if in_word {
                spans.push(Span { start, end: i });
                in_word = false;
            }
        } else if c == MARKER {
            if !in_word {
                start = i;
            }
            spans.push(Span { start, end: i + 1 });
            in_word = false;
            assert(text@.subrange(start as int, i + 1) =~= (if start < i {
                text@.subrange(start as int, i as int)
            } else {
                Seq::empty()
            }).push(c));
        } else {
            if !in_word {
                start = i;
                in_word = true;
            }
            assert(text@.subrange(start as int, i + 1) =~= (if start < i {
                text@.subrange(start as int, i as int)
            } else {
                Seq::empty()
            }).push(c));
        }
        proof {
            if spans@.len() > old_spans.len() {
                assert(spans_text(text@, spans@) =~= spans_text(text@, old_spans).push(
                    text@.subrange(spans@.last().start as int, spans@.last().end as int),
                ));
            }
        }
        i += 1;
    }
    assert(text@.take(i as int) =~= text@);
    let ghost old_spans = spans@;
    if in_word {
        spans.push(Span { start, end: i });
        assert(spans_text(text@, spans@) =~= spans_text(text@, old_spans).push(
            text@.subrange(start as int, i as int),
        ));
    }
    spans
}

} // verus!
