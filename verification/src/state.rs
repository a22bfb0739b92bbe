//! The two passes as a mathematical machine: its states, and how it runs
//! from one awaited instruction to the next.

use crate::directive::{directive, keyword, lemma_directive_reach, lemma_le_bytes_len, window, Refusal};
use crate::error::Failure;
use crate::group::{group_end, is_boundary, label_of, lemma_group_end};
use crate::number::le_bytes;
use crate::resolve::{resolved, Lookup, Request};
use crate::token::{
    ends_in_comment, is_filler, lemma_filler_insensitive, lemma_pieces_alike, source_text,
    tokens_of,
};
use vstd::prelude::*;

verus! {

/// The two walks over the tokens.
#[derive(Clone, Copy, Debug, PartialEq, Eq)]
pub enum Pass {
    Measure,
    Emit,
}

/// Where an assembly stands, as a mathematical value.
pub enum Outlook {
    /// An instruction has to be parsed at the cursor.
    Awaiting,
    /// Both passes are done: the output is complete.
    Finished,
    /// The assembly has failed.
    Failed(Failure),
}

/// What parsing an instruction gave, as a mathematical value.
pub enum Verdict {
    /// An instruction with this encoding, which reaches `tokens` whole
    /// tokens and `chars` characters of the next into the pending tokens.
    Matched { code: u16, tokens: nat, chars: nat },
    /// No instruction begins at the cursor.
    NoMatch,
    /// The instruction names a symbol that is not declared.
    UnknownSymbol(Seq<char>),
    /// An operand of the instruction is out of its range.
    OutOfBound { actual: int, min: int, max: int },
}

/// The state of an assembly, as a mathematical value.
pub struct State {
    pub tokens: Seq<Seq<char>>,
    pub pass: Pass,
    /// The cursor: a token, and the characters of it that are consumed.
    pub index: nat,
    pub offset: nat,
    /// The number of bytes that the tokens before the cursor stand for.
    pub count: int,
    pub labels: Map<Seq<char>, int>,
    pub output: Seq<u8>,
    pub status: Outlook,
}

impl State {
    /// How symbols resolve in this state.
    pub open spec fn lookup(self) -> Lookup {
        match self.pass {
            Pass::Measure => Lookup::Placeholder,
            Pass::Emit => Lookup::Table { labels: self.labels, current: self.count },
        }
    }

    /// The tokens that the next parse sees: those of the current group from
    /// the cursor on.
    pub open spec fn pending(self) -> Seq<Seq<char>> {
        window(
            self.tokens,
            self.index as int,
            self.offset as int,
            group_end(self.tokens, self.index as int),
        )
    }

    /// The state with the cursor moved on by `tokens` whole tokens and
    /// `chars` characters of the token after them. The cursor never rests at
    /// the end of a token: it moves on to the start of the next.
    pub open spec fn reach(self, tokens: int, chars: int) -> State {
        let index = self.index + tokens;
        let offset = if tokens == 0 {
            self.offset + chars
        } else {
            chars
        };
        if index < self.tokens.len() && offset >= self.tokens[index].len() {
            State { index: (index + 1) as nat, offset: 0, ..self }
        } else {
            State { index: index as nat, offset: offset as nat, ..self }
        }
    }

    /// The state with `bytes` counted, and in the second pass emitted.
    pub open spec fn emit(self, bytes: Seq<u8>) -> State {
        State {
            count: self.count + bytes.len(),
            output: match self.pass {
                Pass::Measure => self.output,
                Pass::Emit => self.output + bytes,
            },
            ..self
        }
    }

    /// The state after a directive or an instruction of the given bytes was
    /// parsed, which reached `tokens` whole tokens and `chars` characters of
    /// the next.
    pub open spec fn consume(self, bytes: Seq<u8>, tokens: int, chars: int) -> State {
        self.emit(bytes).reach(tokens, chars)
    }

    /// The state with the cursor at the start of token `index`.
    pub open spec fn at(self, index: nat) -> State {
        State { index, offset: 0, ..self }
    }

    /// The state that has ended with `status`.
    pub open spec fn ended(self, status: Outlook) -> State {
        State { status, ..self }
    }

    /// Runs the assembly from this state until an instruction has to be
    /// parsed, or it has finished or failed.
    ///
    /// Inside a group, a directive at the cursor is consumed; where no
    /// directive begins, an instruction is awaited; a directive with a
    /// missing or malformed value is stuck at the head of the pending tokens;
    /// any other failure of a directive ends the assembly with that error. At
    /// the label declaration that closes a group, the first pass enters the
    /// label, unless its name is empty, with the current count, and fails if
    /// it was entered before. At the end of the tokens the first pass hands
    /// over to the second, which starts again at the first token with a
    /// count of zero, and the second finishes.
    pub open spec fn settle(self) -> State
        decreases
                (match self.pass {
                    Pass::Measure => 1int,
                    Pass::Emit => 0int,
                }),
                self.tokens.len() - self.index,
        via Self::settle_decreases
    {
        let end = group_end(self.tokens, self.index as int);
        if self.index < end {
            match directive(self.pending(), self.lookup()) {
                Ok(emission) => self.consume(
                    emission.bytes,
                    emission.tokens,
                    emission.chars,
                ).settle(),
                Err(Refusal::NotDirective) => self.ended(Outlook::Awaiting),
                Err(Refusal::Malformed) => self.ended(
                    Outlook::Failed(Failure::AssemblyStuck(self.pending()[0])),
                ),
                Err(Refusal::UnknownSymbol(symbol)) => self.ended(
                    Outlook::Failed(Failure::UnknownSymbol(symbol)),
                ),
                Err(Refusal::OutOfBound { actual, min, max }) => self.ended(
                    Outlook::Failed(Failure::OutOfBoundValue { actual, min, max }),
                ),
            }
        } else if self.index < self.tokens.len() {
            let name = label_of(self.tokens[self.index as int]);
            if self.pass is Emit || name.len() == 0 {
                self.at(self.index + 1).settle()
            } else if self.labels.contains_key(name) {
                self.ended(Outlook::Failed(Failure::DuplicateLabel(name)))
            } else {
                State { labels: self.labels.insert(name, self.count), ..self }.at(
                    self.index + 1,
                ).settle()
            }
        } else {
            match self.pass {
                Pass::Measure => State { pass: Pass::Emit, count: 0, ..self }.at(0).settle(),
                Pass::Emit => self.ended(Outlook::Finished),
            }
        }
    }

    #[via_fn]
    proof fn settle_decreases(self) {
        let end = group_end(self.tokens, self.index as int);
        if self.index <= self.tokens.len() {
            lemma_group_end(self.tokens, self.index as int);
        }
        if self.index < end {
            lemma_directive_reach(self.pending(), self.lookup());
        }
    }

    /// Whether every token has a character, which the tokenizer sees to.
    pub open spec fn solid(self) -> bool {
        forall|i: int| 0 <= i < self.tokens.len() ==> (#[trigger] self.tokens[i]).len() > 0
    }

    /// Whether `verdict` can be the outcome of parsing the pending tokens: a
    /// match reaches at least one character and stays inside them.
    pub open spec fn admits(self, verdict: Verdict) -> bool {
        match verdict {
            Verdict::Matched { code, tokens, chars } => {
                &&& tokens + chars > 0
                &&& tokens <= self.pending().len()
                &&& chars > 0 ==> tokens < self.pending().len() && chars
                    <= self.pending()[tokens as int].len()
            },
            _ => true,
        }
    }

    /// The state after an awaited instruction was parsed with `verdict`.
    ///
    /// A match stands for the two bytes of its encoding, low byte first, and
    /// the assembly runs on behind it. Where nothing matched, the first pass
    /// gives up the rest of the group and runs on at its end, and the second
    /// is stuck at the head of the pending tokens. Any other verdict ends the
    /// assembly with that error.
    pub open spec fn deliver(self, verdict: Verdict) -> State {
        match verdict {
            Verdict::Matched { code, tokens, chars } => self.consume(
                le_bytes(code as int, 2),
                tokens as int,
                chars as int,
            ).settle(),
            Verdict::NoMatch => match self.pass {
                Pass::Measure => self.at(group_end(self.tokens, self.index as int) as nat).settle(),
                Pass::Emit => self.ended(
                    Outlook::Failed(Failure::AssemblyStuck(self.pending()[0])),
                ),
            },
            Verdict::UnknownSymbol(symbol) => self.ended(
                Outlook::Failed(Failure::UnknownSymbol(symbol)),
            ),
            Verdict::OutOfBound { actual, min, max } => self.ended(
                Outlook::Failed(Failure::OutOfBoundValue { actual, min, max }),
            ),
        }
    }

    /// Whether the cursor stands inside a token, or at the end of the
    /// tokens.
    pub open spec fn in_tokens(self) -> bool {
        if self.index < self.tokens.len() {
            self.offset < self.tokens[self.index as int].len()
        } else {
            self.index == self.tokens.len() && self.offset == 0
        }
    }

    /// Whether the count agrees with the output: nothing is emitted while
    /// the first pass measures, and in the second pass the count is the
    /// length of the output.
    pub open spec fn balanced(self) -> bool {
        match self.pass {
            Pass::Measure => self.output.len() == 0,
            Pass::Emit => self.output.len() == self.count,
        }
    }

    /// The state after the outcomes of one instruction after another were
    /// taken.
    pub open spec fn follow(self, verdicts: Seq<Verdict>) -> State
        decreases verdicts.len(),
    {
        if verdicts.len() == 0 {
            self
        } else {
            self.follow(verdicts.drop_last()).deliver(verdicts.last())
        }
    }

    /// Whether the outcomes can be taken one after another: each time an
    /// instruction is awaited, and the outcome can be that of parsing the
    /// pending tokens.
    pub open spec fn takes(self, verdicts: Seq<Verdict>) -> bool
        decreases verdicts.len(),
    {
        verdicts.len() == 0 || {
            &&& self.takes(verdicts.drop_last())
            &&& self.follow(verdicts.drop_last()).status is Awaiting
            &&& self.follow(verdicts.drop_last()).admits(verdicts.last())
        }
    }
}

/// The state in which the assembly of `tokens` begins, before anything ran.
pub open spec fn initial(tokens: Seq<Seq<char>>) -> State {
    State {
        tokens,
        pass: Pass::Measure,
        index: 0,
        offset: 0,
        count: 0,
        labels: Map::empty(),
        output: Seq::empty(),
        status: Outlook::Awaiting,
    }
}

/// The second pass only appends: running on in it leaves the tokens and
/// the label table as they are and adds to the end of the output.
pub proof fn lemma_emit_appends(s: State)
    requires
        s.pass is Emit,
        s.index <= s.tokens.len(),
    ensures
        s.settle().pass is Emit,
        s.settle().tokens == s.tokens,
        s.settle().labels == s.labels,
        s.output.is_prefix_of(s.settle().output),
    decreases s.tokens.len() - s.index,
{
    let end = group_end(s.tokens, s.index as int);
    lemma_group_end(s.tokens, s.index as int);
    if s.index < end {
        lemma_directive_reach(s.pending(), s.lookup());
        if let Ok(emission) = directive(s.pending(), s.lookup()) {
            let next = s.consume(emission.bytes, emission.tokens, emission.chars);
            lemma_emit_appends(next);
            assert(s.output.is_prefix_of(next.output));
        }
    } else if s.index < s.tokens.len() {
        lemma_emit_appends(s.at(s.index + 1));
    }
}

/// Running on keeps the count in agreement with the output.
pub proof fn lemma_settle_balanced(s: State)
    requires
        s.balanced(),
        s.index <= s.tokens.len(),
    ensures
        s.settle().balanced(),
    decreases
            (match s.pass {
                Pass::Measure => 1int,
                Pass::Emit => 0int,
            }),
            s.tokens.len() - s.index,
{
    let end = group_end(s.tokens, s.index as int);
    lemma_group_end(s.tokens, s.index as int);
    if s.index < end {
        lemma_directive_reach(s.pending(), s.lookup());
        if let Ok(emission) = directive(s.pending(), s.lookup()) {
            lemma_settle_balanced(s.consume(emission.bytes, emission.tokens, emission.chars));
        }
    } else if s.index < s.tokens.len() {
        let name = label_of(s.tokens[s.index as int]);
        if s.pass is Emit || name.len() == 0 {
            lemma_settle_balanced(s.at(s.index + 1));
        } else if !s.labels.contains_key(name) {
            lemma_settle_balanced(
                State { labels: s.labels.insert(name, s.count), ..s }.at(s.index + 1),
            );
        }
    } else if s.pass is Measure {
        lemma_settle_balanced(State { pass: Pass::Emit, count: 0, ..s }.at(0));
    }
}

/// Taking the outcome of an instruction keeps the count in agreement with
/// the output: the output of the second pass is as long as the bytes that
/// were counted, two for every instruction that matched.
pub proof fn lemma_deliver_balanced(s: State, verdict: Verdict)
    requires
        s.balanced(),
        s.index < group_end(s.tokens, s.index as int),
        s.admits(verdict),
    ensures
        s.deliver(verdict).balanced(),
{
    lemma_group_end(s.tokens, s.index as int);
    match verdict {
        Verdict::Matched { code, tokens, chars } => {
            lemma_le_bytes_len(code as int, 2);
            lemma_settle_balanced(s.consume(le_bytes(code as int, 2), tokens as int, chars as int));
        },
        Verdict::NoMatch => {
            if s.pass is Measure {
                lemma_settle_balanced(s.at(group_end(s.tokens, s.index as int) as nat));
            }
        },
        _ => {},
    }
}

/// Taking the outcome of an instruction in the second pass leaves the
/// tokens and the label table as they are and adds to the end of the output.
pub proof fn lemma_emit_deliver_appends(s: State, verdict: Verdict)
    requires
        s.pass is Emit,
        s.index < group_end(s.tokens, s.index as int),
        s.admits(verdict),
    ensures
        s.deliver(verdict).pass is Emit,
        s.deliver(verdict).tokens == s.tokens,
        s.deliver(verdict).labels == s.labels,
        s.output.is_prefix_of(s.deliver(verdict).output),
{
    lemma_group_end(s.tokens, s.index as int);
    if let Verdict::Matched { code, tokens, chars } = verdict {
        let next = s.consume(le_bytes(code as int, 2), tokens as int, chars as int);
        lemma_emit_appends(next);
        assert(s.output.is_prefix_of(next.output));
    }
}

/// A label resolves to the same value wherever the second pass stands,
/// before its declaration as after it: the address of a label and the
/// distance between two labels do not change when the outcome of an
/// instruction is taken.
pub proof fn lemma_labels_resolve_steadily(s: State, verdict: Verdict, request: Request)
    requires
        s.pass is Emit,
        s.index < group_end(s.tokens, s.index as int),
        s.admits(verdict),
        !(request is DistanceFromCurrent),
    ensures
        resolved(s.deliver(verdict).lookup(), request) == resolved(s.lookup(), request),
{
    lemma_emit_deliver_appends(s, verdict);
}

/// An instruction that matched in the second pass stands in the output as
/// the two bytes of its encoding, the low byte first, right behind what was
/// emitted before it.
pub proof fn lemma_match_emits_code(s: State, code: u16, tokens: nat, chars: nat)
    requires
        s.pass is Emit,
        s.index < group_end(s.tokens, s.index as int),
        s.admits(Verdict::Matched { code, tokens, chars }),
    ensures
        (s.output + seq![(code % 256) as u8, (code / 256) as u8]).is_prefix_of(
            s.deliver(Verdict::Matched { code, tokens, chars }).output,
        ),
{
    let bytes = le_bytes(code as int, 2);
    reveal_with_fuel(le_bytes, 3);
    assert(bytes =~= seq![(code % 256) as u8, (code / 256) as u8]);
    let next = s.consume(bytes, tokens as int, chars as int);
    lemma_group_end(s.tokens, s.index as int);
    lemma_emit_appends(next);
}

/// The encodings of the instructions that matched, two bytes each, the low
/// byte first.
pub open spec fn codes_of(verdicts: Seq<Verdict>) -> Seq<u8>
    decreases verdicts.len(),
{
    if verdicts.len() == 0 {
        Seq::empty()
    } else {
        codes_of(verdicts.drop_last()) + (match verdicts.last() {
            Verdict::Matched { code, tokens, chars } => le_bytes(code as int, 2),
            _ => Seq::empty(),
        })
    }
}

/// Whether the tokens hold instructions only: none of them declares a
/// label, and none ends with the keyword of the data directive.
pub open spec fn instructions_only(tokens: Seq<Seq<char>>) -> bool {
    forall|i: int, k: int|
        0 <= i < tokens.len() && 0 <= k <= tokens[i].len() ==> !is_boundary(tokens[i])
            && #[trigger] tokens[i].skip(k) != keyword()
}

/// Among instructions only, the second pass waits at every token and
/// finishes behind the last: it emits nothing by itself.
proof fn lemma_settle_among_instructions(s: State)
    requires
        instructions_only(s.tokens),
        s.pass is Emit,
        s.in_tokens(),
    ensures
        s.settle() == s.ended(
            if s.index < s.tokens.len() {
                Outlook::Awaiting
            } else {
                Outlook::Finished
            },
        ),
{
    lemma_group_end(s.tokens, s.index as int);
    if s.index < s.tokens.len() {
        assert(s.pending()[0] == s.tokens[s.index as int].skip(s.offset as int));
    }
}

/// A source of instructions and nothing else assembles to the encodings of
/// its instructions, in their order: in the second pass, the outcomes that
/// are taken add two bytes for every instruction that matched, and nothing
/// else.
pub proof fn lemma_instructions_assemble_to_codes(s: State, verdicts: Seq<Verdict>)
    requires
        instructions_only(s.tokens),
        s.pass is Emit,
        s.in_tokens(),
        s.solid(),
        s.takes(verdicts),
    ensures
        s.follow(verdicts).output == s.output + codes_of(verdicts),
        s.follow(verdicts).tokens == s.tokens,
        s.follow(verdicts).pass is Emit,
        s.follow(verdicts).in_tokens(),
        (forall|i: int| 0 <= i < verdicts.len() ==> #[trigger] verdicts[i] is Matched)
            ==> s.follow(verdicts).output.len() == s.output.len() + 2 * verdicts.len(),
    decreases verdicts.len(),
{
    if verdicts.len() == 0 {
        assert(s.output + codes_of(verdicts) =~= s.output);
    } else {
        let earlier = verdicts.drop_last();
        lemma_instructions_assemble_to_codes(s, earlier);
        let t = s.follow(earlier);
        lemma_group_end(t.tokens, t.index as int);
        assert(s.output + codes_of(earlier) + Seq::<u8>::empty() =~= s.output + codes_of(earlier));
        match verdicts.last() {
            Verdict::Matched { code, tokens, chars } => {
                let bytes = le_bytes(code as int, 2);
                lemma_le_bytes_len(code as int, 2);
                let next = t.consume(bytes, tokens as int, chars as int);
                if tokens < t.pending().len() {
                    assert(t.pending()[tokens as int] == if tokens == 0 {
                        t.tokens[t.index as int].skip(t.offset as int)
                    } else {
                        t.tokens[(t.index + tokens) as int]
                    });
                }
                lemma_settle_among_instructions(next);
                assert(s.output + codes_of(earlier) + bytes =~= s.output + (codes_of(earlier)
                    + bytes));
            },
            _ => {},
        }
        if forall|i: int| 0 <= i < verdicts.len() ==> #[trigger] verdicts[i] is Matched {
            assert forall|i: int| 0 <= i < earlier.len() implies #[trigger] earlier[i] is Matched by {
                assert(earlier[i] == verdicts[i]);
            }
            assert(verdicts[verdicts.len() - 1] is Matched);
        }
    }
}

/// What is left of a window of tokens behind a parse that reached `tokens`
/// whole tokens and `chars` characters of the next: the rest of that token,
/// if it has one, and the tokens after it.
pub open spec fn rest_of(w: Seq<Seq<char>>, tokens: int, chars: int) -> Seq<Seq<char>> {
    if chars == 0 {
        w.skip(tokens)
    } else if chars < w[tokens].len() {
        seq![w[tokens].skip(chars)] + w.skip(tokens + 1)
    } else {
        w.skip(tokens + 1)
    }
}

/// No character is lost or repeated between two parse attempts: behind a
/// parse, the pending tokens are what it left of those it was given.
pub proof fn lemma_reach_keeps_rest(s: State, tokens: nat, chars: nat)
    requires
        s.solid(),
        s.in_tokens(),
        s.index < group_end(s.tokens, s.index as int),
        s.admits(Verdict::Matched { code: 0, tokens, chars }),
    ensures
        s.reach(tokens as int, chars as int).pending() == rest_of(
            s.pending(),
            tokens as int,
            chars as int,
        ),
        s.reach(tokens as int, chars as int).in_tokens(),
{
    let w = s.pending();
    let next = s.reach(tokens as int, chars as int);
    lemma_group_end(s.tokens, s.index as int);
    if tokens < w.len() {
        assert(w[tokens as int] == if tokens == 0 {
            s.tokens[s.index as int].skip(s.offset as int)
        } else {
            s.tokens[(s.index + tokens) as int]
        });
    }
    assert(group_end(s.tokens, next.index as int) == group_end(s.tokens, s.index as int));
    assert(next.pending() =~~= rest_of(w, tokens as int, chars as int));
}

/// White space and comments between tokens do not matter to an assembly:
/// whatever filler stands at a place in a piece of the source that is not
/// inside a comment, the assembly begins in the same state, and so takes
/// the same course.
pub proof fn lemma_assembly_ignores_filler(
    pieces: Seq<Seq<char>>,
    i: int,
    a: Seq<char>,
    filler: Seq<char>,
    other: Seq<char>,
    b: Seq<char>,
)
    requires
        0 <= i < pieces.len(),
        pieces[i] == a + filler + b,
        !ends_in_comment(a),
        is_filler(filler),
        is_filler(other),
    ensures
        initial(tokens_of(source_text(pieces))).settle() == initial(
            tokens_of(source_text(pieces.update(i, a + other + b))),
        ).settle(),
{
    lemma_filler_insensitive(a, filler, other, b);
    lemma_pieces_alike(pieces, pieces.update(i, a + other + b));
}

} // verus!
