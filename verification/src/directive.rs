//! The data directive: `.bytes <type>, <value>` emits the value as raw
//! little-endian bytes of the width that the type names.

use crate::number::{le_bytes, Number};
use crate::resolve::{resolved, Lookup, Request, Resolve, Resolver};
use crate::text::{
    digit, digit_value, is_digit, is_symbol_char, is_symbol_start, symbol_char, symbol_start,
};
use crate::token::Tokens;
use vstd::arithmetic::power2::{lemma2_to64, lemma_pow2_adds, pow2};
use vstd::prelude::*;

verus! {

/// The word that begins a data directive.
pub open spec fn keyword() -> Seq<char> {
    seq!['.', 'b', 'y', 't', 'e', 's']
}

/// The type of the value of a data directive: `u` or `i` for unsigned or
/// signed, and a digit `n` up to 4 for a width of 2^n bytes.
#[derive(Clone, Copy, Debug, PartialEq, Eq)]
pub struct DataType {
    pub signed: bool,
    pub size_pow2: u8,
}

impl DataType {
    /// The width is at most 16 bytes.
    pub open spec fn wf(&self) -> bool {
        self.size_pow2 <= 4
    }

    /// The number of bytes of a value.
    pub open spec fn width(&self) -> nat {
        pow2(self.size_pow2 as nat)
    }

    /// Whether a value may be emitted with this type. An unsigned value lies
    /// from 0 up to, not including, 2^bits; a signed one from -2^(bits-1) - 1
    /// up to and including 2^(bits-1).
    pub open spec fn admits(&self, value: int) -> bool {
        if self.signed {
            -pow2((8 * self.width() - 1) as nat) - 1 <= value <= pow2((8 * self.width() - 1) as nat)
        } else {
            0 <= value < pow2(8 * self.width())
        }
    }

    /// The least value that the type admits.
    pub open spec fn lower(&self) -> int {
        if self.signed {
            -pow2((8 * self.width() - 1) as nat) - 1
        } else {
            0
        }
    }

    /// The greatest value that the type admits.
    pub open spec fn upper(&self) -> int {
        if self.signed {
            pow2((8 * self.width() - 1) as nat) as int
        } else {
            pow2(8 * self.width()) - 1
        }
    }

    /// The number of bytes of a value.
    pub fn size(&self) -> (bytes: usize)
        requires
            self.wf(),
        ensures
            bytes == self.width(),
            bytes <= 16,
    {
        proof {
            lemma2_to64();
        }
        if self.size_pow2 == 0 {
            1
        } else if self.size_pow2 == 1 {
            2
        } else if self.size_pow2 == 2 {
            4
        } else if self.size_pow2 == 3 {
            8
        } else {
            16
        }
    }

    /// The least value that the type admits.
    pub fn min(&self) -> (bound: Number)
        requires
            self.wf(),
        ensures
            bound@ == self.lower(),
    {
        proof {
            lemma_bounds();
        }
        if !self.signed {
            Number::new(false, 0)
        } else if self.size_pow2 == 0 {
            Number::new(true, 0x81)
        } else if self.size_pow2 == 1 {
            Number::new(true, 0x8001)
        } else if self.size_pow2 == 2 {
            Number::new(true, 0x8000_0001)
        } else if self.size_pow2 == 3 {
            Number::new(true, 0x8000_0000_0000_0001)
        } else {
            Number::new(true, 0x8000_0000_0000_0000_0000_0000_0000_0001)
        }
    }

    /// The greatest value that the type admits.
    pub fn max(&self) -> (bound: Number)
        requires
            self.wf(),
        ensures
            bound@ == self.upper(),
    {
        proof {
            lemma_bounds();
        }
        if self.signed {
            if self.size_pow2 == 0 {
                Number::new(false, 0x80)
            } else if self.size_pow2 == 1 {
                Number::new(false, 0x8000)
            } else if self.size_pow2 == 2 {
                Number::new(false, 0x8000_0000)
            } else if self.size_pow2 == 3 {
                Number::new(false, 0x8000_0000_0000_0000)
            } else {
                Number::new(false, 0x8000_0000_0000_0000_0000_0000_0000_0000)
            }
        } else {
            if self.size_pow2 == 0 {
                Number::new(false, 0xFF)
            } else if self.size_pow2 == 1 {
                Number::new(false, 0xFFFF)
            } else if self.size_pow2 == 2 {
                Number::new(false, 0xFFFF_FFFF)
            } else if self.size_pow2 == 3 {
                Number::new(false, 0xFFFF_FFFF_FFFF_FFFF)
            } else {
                Number::new(false, 0xFFFF_FFFF_FFFF_FFFF_FFFF_FFFF_FFFF_FFFF)
            }
        }
    }

    /// Whether `value` may be emitted with this type.
    pub fn fits(&self, value: &Number) -> (r: bool)
        requires
            self.wf(),
        ensures
            r == self.admits(value@),
    {
        let low: Number = self.min();
        let high: Number = self.max();
        low.at_most(value) && value.at_most(&high)
    }
}

/// The powers of two that bound the five widths.
proof fn lemma_bounds()
    ensures
        pow2(0) == 1,
        pow2(1) == 2,
        pow2(2) == 4,
        pow2(3) == 8,
        pow2(4) == 16,
        pow2(7) == 0x80,
        pow2(8) == 0x100,
        pow2(15) == 0x8000,
        pow2(16) == 0x1_0000,
        pow2(31) == 0x8000_0000,
        pow2(32) == 0x1_0000_0000,
        pow2(63) == 0x8000_0000_0000_0000,
        pow2(64) == 0x1_0000_0000_0000_0000,
        pow2(127) == 0x8000_0000_0000_0000_0000_0000_0000_0000,
        pow2(128) == 0x1_0000_0000_0000_0000_0000_0000_0000_0000,
{
    lemma2_to64();
    lemma_pow2_adds(32, 31);
    lemma_pow2_adds(64, 63);
    lemma_pow2_adds(64, 64);
}

/// A place in a window of tokens: a token and a character offset into it.
pub struct Place {
    pub token: int,
    pub offset: int,
}

/// The place `n` characters after `at`, where token `at.token` has that many
/// left. A place never rests at the end of a token: it moves on to the start
/// of the next.
pub open spec fn forward(w: Seq<Seq<char>>, at: Place, n: int) -> Place {
    if at.offset + n >= w[at.token].len() {
        Place { token: at.token + 1, offset: 0 }
    } else {
        Place { token: at.token, offset: at.offset + n }
    }
}

/// The tokens that a parse attempt sees: those from `index` up to `end`,
/// the first without the `offset` characters that were consumed before.
pub open spec fn window(tokens: Seq<Seq<char>>, index: int, offset: int, end: int) -> Seq<
    Seq<char>,
> {
    Seq::new(
        (end - index) as nat,
        |k: int|
            if k == 0 {
                tokens[index].skip(offset)
            } else {
                tokens[index + k]
            },
    )
}

/// The head of a directive: the keyword as a whole token, then in the next
/// token the type, then a comma, which may stand in a token of its own.
/// The result is the type and the place after the comma.
pub open spec fn header(w: Seq<Seq<char>>) -> Option<(DataType, Place)> {
    if w.len() >= 2 && w[0] == keyword() && w[1].len() >= 2 && (w[1][0] == 'u' || w[1][0] == 'i')
        && '0' <= w[1][1] <= '4' {
        let at = forward(w, Place { token: 1, offset: 0 }, 2);
        if at.token < w.len() && w[at.token][at.offset] == ',' {
            Some(
                (
                    DataType { signed: w[1][0] == 'i', size_pow2: digit_value(w[1][1]) as u8 },
                    forward(w, at, 1),
                ),
            )
        } else {
            None
        }
    } else {
        None
    }
}

/// The number of symbol characters that `s` begins with.
pub open spec fn symbol_run(s: Seq<char>) -> nat
    decreases s.len(),
{
    if s.len() > 0 && is_symbol_char(s[0]) {
        1 + symbol_run(s.drop_first())
    } else {
        0
    }
}

/// The number of decimal digits that `s` begins with.
pub open spec fn digit_run(s: Seq<char>) -> nat
    decreases s.len(),
{
    if s.len() > 0 && is_digit(s[0]) {
        1 + digit_run(s.drop_first())
    } else {
        0
    }
}

/// The length of the symbol that `s` begins with, 0 where it begins with
/// none. A symbol is a letter or an underscore and the letters, digits and
/// underscores that follow it.
pub open spec fn symbol_len(s: Seq<char>) -> nat {
    if s.len() > 0 && is_symbol_start(s[0]) {
        symbol_run(s)
    } else {
        0
    }
}

/// The number that a run of decimal digits writes.
pub open spec fn number_of(digits: Seq<char>) -> nat
    decreases digits.len(),
{
    if digits.len() == 0 {
        0
    } else {
        number_of(digits.drop_last()) * 10 + digit_value(digits.last())
    }
}

/// The symbolic value that `s` begins with, and its length: `label` asks for
/// an address, `label=>label` for the distance from the first to the second.
pub open spec fn reference(s: Seq<char>) -> Option<(Request, nat)> {
    let first = symbol_len(s);
    let after = s.skip(first as int);
    let second = if after.len() >= 2 && after[0] == '=' && after[1] == '>' {
        symbol_len(after.skip(2))
    } else {
        0
    };
    if first == 0 {
        None
    } else if second == 0 {
        Some((Request::Address(s.take(first as int)), first))
    } else {
        Some(
            (
                Request::Distance(s.take(first as int), after.subrange(2, 2 + second as int)),
                first + 2 + second,
            ),
        )
    }
}

/// The decimal literal that `s` begins with, and its length: an optional
/// sign, then digits that write a magnitude below 2^128.
pub open spec fn literal(s: Seq<char>) -> Option<(int, nat)> {
    let sign: nat = if s.len() > 0 && (s[0] == '-' || s[0] == '+') {
        1
    } else {
        0
    };
    let count = digit_run(s.skip(sign as int));
    let magnitude = number_of(s.subrange(sign as int, (sign + count) as int));
    if count > 0 && magnitude <= u128::MAX {
        Some(
            (
                if sign == 1 && s[0] == '-' {
                    -(magnitude as int)
                } else {
                    magnitude as int
                },
                sign + count,
            ),
        )
    } else {
        None
    }
}

/// Why a window of tokens gave no bytes.
pub enum Refusal {
    /// The window does not begin with the head of a directive.
    NotDirective,
    /// What follows the head is no value.
    Malformed,
    /// The value names a symbol that is not declared.
    UnknownSymbol(Seq<char>),
    /// The type does not admit the value.
    OutOfBound { actual: int, min: int, max: int },
}

/// What a directive gives: its bytes, and how far it reaches into the
/// window, as whole tokens and characters of the token after them.
pub struct Emission {
    pub bytes: Seq<u8>,
    pub tokens: int,
    pub chars: int,
}

/// The value that `s` begins with, and its length. A symbolic value that
/// resolves comes first; failing that, a literal; failing both, the symbol
/// that did not resolve is reported, if there was one.
pub open spec fn operand(s: Seq<char>, lookup: Lookup) -> Result<(int, nat), Refusal> {
    match reference(s) {
        Some((request, length)) => match resolved(lookup, request) {
            Ok(value) => Ok((value, length)),
            Err(symbol) => match literal(s) {
                Some(found) => Ok(found),
                None => Err(Refusal::UnknownSymbol(symbol)),
            },
        },
        None => match literal(s) {
            Some(found) => Ok(found),
            None => Err(Refusal::Malformed),
        },
    }
}

/// The meaning of a window of tokens as a data directive.
pub open spec fn directive(w: Seq<Seq<char>>, lookup: Lookup) -> Result<Emission, Refusal> {
    match header(w) {
        None => Err(Refusal::NotDirective),
        Some((ty, at)) => if at.token >= w.len() {
            Err(Refusal::Malformed)
        } else {
            match operand(w[at.token].skip(at.offset), lookup) {
                Err(refusal) => Err(refusal),
                Ok((value, length)) => if ty.admits(value) {
                    let after = forward(w, at, length as int);
                    Ok(
                        Emission {
                            bytes: le_bytes(value, ty.width()),
                            tokens: after.token,
                            chars: after.offset,
                        },
                    )
                } else {
                    Err(Refusal::OutOfBound { actual: value, min: ty.lower(), max: ty.upper() })
                },
            }
        },
    }
}

/// The bytes of a value are as many as its width.
pub proof fn lemma_le_bytes_len(value: int, width: nat)
    ensures
        le_bytes(value, width).len() == width,
    decreases width,
{
    if width > 0 {
        lemma_le_bytes_len(value / 256, (width - 1) as nat);
    }
}

/// How far a directive reaches: past its keyword and type at least, and
/// never past the window; and it gives at most 16 bytes.
pub proof fn lemma_directive_reach(w: Seq<Seq<char>>, lookup: Lookup)
    ensures
        directive(w, lookup) matches Ok(emission) ==> {
            &&& w.len() >= 2
            &&& w[0].len() == 6
            &&& w[1].len() >= 2
            &&& 1 <= emission.tokens <= w.len()
            &&& emission.tokens == 1 ==> 3 <= emission.chars
            &&& 0 <= emission.chars
            &&& emission.tokens < w.len() && w[emission.tokens].len() > 0 ==> emission.chars
                < w[emission.tokens].len()
            &&& emission.tokens == w.len() ==> emission.chars == 0
            &&& emission.bytes.len() <= 16
        },
{
    if let Ok(emission) = directive(w, lookup) {
        let (ty, at) = header(w)->0;
        lemma_bounds();
        lemma_le_bytes_len(operand(w[at.token].skip(at.offset), lookup)->Ok_0.0, ty.width());
        assert(w[0] == keyword());
        assert(w[1][1] == '0' || w[1][1] == '1' || w[1][1] == '2' || w[1][1] == '3' || w[1][1]
            == '4');
    }
}

/// No text begins with both a symbolic value and a literal.
pub proof fn lemma_reference_or_literal(s: Seq<char>)
    ensures
        reference(s) is Some ==> literal(s) is None,
{
    if reference(s) is Some {
        assert(is_symbol_start(s[0]));
        assert(s.skip(0) =~= s);
    }
}

/// The bytes of a directive are as many, and it reaches as far, whatever
/// its symbols resolve to: a pass that measures with a placeholder counts
/// what a pass with the true values emits.
pub proof fn lemma_directive_size_fixed(w: Seq<Seq<char>>, first: Lookup, second: Lookup)
    ensures
        directive(w, first) matches Ok(one) ==> (directive(w, second) matches Ok(other) ==> {
            &&& one.bytes.len() == other.bytes.len()
            &&& one.tokens == other.tokens
            &&& one.chars == other.chars
        }),
{
    if let Some((ty, at)) = header(w) {
        if at.token < w.len() {
            let rest = w[at.token].skip(at.offset);
            lemma_reference_or_literal(rest);
            if let Ok((value, length)) = operand(rest, first) {
                lemma_le_bytes_len(value, ty.width());
            }
            if let Ok((value, length)) = operand(rest, second) {
                lemma_le_bytes_len(value, ty.width());
            }
        }
    }
}

/// How far a successful parse reaches: `tokens` whole tokens, then `chars`
/// characters of the token after them.
#[derive(Clone, Copy, Debug, PartialEq, Eq)]
pub struct Consumed {
    pub tokens: usize,
    pub chars: usize,
}

/// Why [`parse_bytes_directive`] gave no bytes.
#[derive(Clone, Copy, Debug, PartialEq, Eq)]
pub enum DirectiveError<'a> {
    /// The tokens do not begin with the head of a directive: something else
    /// may parse them.
    NotDirective,
    /// What follows the head is no value.
    Malformed,
    /// The value names a symbol that is not declared.
    UnknownSymbol(&'a [char]),
    /// The type does not admit the value.
    OutOfBound { actual: Number, min: Number, max: Number },
}

impl<'a> View for DirectiveError<'a> {
    type V = Refusal;

    open spec fn view(&self) -> Refusal {
        match *self {
            DirectiveError::NotDirective => Refusal::NotDirective,
            DirectiveError::Malformed => Refusal::Malformed,
            DirectiveError::UnknownSymbol(symbol) => Refusal::UnknownSymbol(symbol@),
            DirectiveError::OutOfBound { actual, min, max } => Refusal::OutOfBound {
                actual: actual@,
                min: min@,
                max: max@,
            },
        }
    }
}

fn is_keyword(token: &[char]) -> (r: bool)
    ensures
        r == (token@ == keyword()),
{
    if token.len() != 6 {
        return false;
    }
    let r: bool = token[0] == '.' && token[1] == 'b' && token[2] == 'y' && token[3] == 't'
        && token[4] == 'e' && token[5] == 's';
    assert(r ==> token@ =~= keyword());
    r
}

proof fn lemma_symbol_run(s: Seq<char>, from: int)
    requires
        0 <= from <= s.len(),
    ensures
        from < s.len() && is_symbol_char(s[from]) ==> symbol_run(s.skip(from)) == 1 + symbol_run(
            s.skip(from + 1),
        ),
        !(from < s.len() && is_symbol_char(s[from])) ==> symbol_run(s.skip(from)) == 0,
{
    if from < s.len() {
        assert(s.skip(from).drop_first() =~= s.skip(from + 1));
    }
}

proof fn lemma_digit_run(s: Seq<char>, from: int)
    requires
        0 <= from <= s.len(),
    ensures
        from < s.len() && is_digit(s[from]) ==> digit_run(s.skip(from)) == 1 + digit_run(
            s.skip(from + 1),
        ),
        !(from < s.len() && is_digit(s[from])) ==> digit_run(s.skip(from)) == 0,
{
    if from < s.len() {
        assert(s.skip(from).drop_first() =~= s.skip(from + 1));
    }
}

/// A longer run of digits does not write a smaller number.
proof fn lemma_number_grows(digits: Seq<char>, k: int)
    requires
        0 <= k <= digits.len(),
    ensures
        number_of(digits.take(k)) <= number_of(digits),
    decreases digits.len(),
{
    if k == digits.len() {
        assert(digits.take(k) =~= digits);
    } else {
        lemma_number_grows(digits.drop_last(), k);
        assert(digits.drop_last().take(k) =~= digits.take(k));
    }
}

fn read_symbol_run(s: &[char], from: usize) -> (n: usize)
    requires
        from <= s.len(),
    ensures
        n == symbol_run(s@.skip(from as int)),
        from + n <= s.len(),
{
    let mut i: usize = from;
    loop
        invariant
            from <= i <= s.len(),
            symbol_run(s@.skip(from as int)) == (i - from) + symbol_run(s@.skip(i as int)),
        decreases s.len() - i,
    {
        proof {
            lemma_symbol_run(s@, i as int);
        }
        if i >= s.len() || !symbol_char(s[i]) {
            return i - from;
        }
        i += 1;
    }
}

fn read_symbol(s: &[char], from: usize) -> (n: usize)
    requires
        from <= s.len(),
    ensures
        n == symbol_len(s@.skip(from as int)),
        from + n <= s.len(),
{
    if from < s.len() && symbol_start(s[from]) {
        read_symbol_run(s, from)
    } else {
        0
    }
}

fn read_digit_run(s: &[char], from: usize) -> (n: usize)
    requires
        from <= s.len(),
    ensures
        n == digit_run(s@.skip(from as int)),
        from + n <= s.len(),
        forall|k: int| from <= k < from + n ==> is_digit(#[trigger] s@[k]),
{
    let mut i: usize = from;
    loop
        invariant
            from <= i <= s.len(),
            digit_run(s@.skip(from as int)) == (i - from) + digit_run(s@.skip(i as int)),
            forall|k: int| from <= k < i ==> is_digit(#[trigger] s@[k]),
        decreases s.len() - i,
    {
        proof {
            lemma_digit_run(s@, i as int);
        }
        if i >= s.len() || !digit(s[i]) {
            return i - from;
        }
        i += 1;
    }
}

/// Reads the symbolic value at the start of `s`.
fn read_reference<'a>(s: &'a [char]) -> (found: Option<(Resolve<'a>, usize)>)
    ensures
        match found {
            Some((request, length)) => reference(s@) == Some((request@, length as nat)) && 0
                < length <= s.len(),
            None => reference(s@) is None,
        },
{
    let first: usize = read_symbol(s, 0);
    assert(s@.skip(0) =~= s@);
    if first == 0 {
        return None;
    }
    let ghost after = s@.skip(first as int);
    let mut second: usize = 0;
    if s.len() - first >= 2 && s[first] == '=' && s[first + 1] == '>' {
        second = read_symbol(s, first + 2);
        assert(after.skip(2) =~= s@.skip(first + 2));
    }
    if second == 0 {
        let name: &[char] = &s[0..first];
        assert(name@ =~= s@.take(first as int));
        Some((Resolve::Address(name), first))
    } else {
        let from: &[char] = &s[0..first];
        let to: &[char] = &s[first + 2..first + 2 + second];
        assert(from@ =~= s@.take(first as int));
        assert(to@ =~= after.subrange(2, 2 + second));
        Some((Resolve::Distance(from, to), first + 2 + second))
    }
}

/// Reads the decimal literal at the start of `s`.
fn read_literal(s: &[char]) -> (found: Option<(Number, usize)>)
    ensures
        match found {
            Some((value, length)) => literal(s@) == Some((value@, length as nat)) && 0 < length
                <= s.len(),
            None => literal(s@) is None,
        },
{
    let sign: usize = if s.len() > 0 && (s[0] == '-' || s[0] == '+') {
        1
    } else {
        0
    };
    let count: usize = read_digit_run(s, sign);
    if count == 0 {
        return None;
    }
    let ghost digits = s@.subrange(sign as int, sign + count);
    let mut magnitude: u128 = 0;
    let mut i: usize = sign;
    while i < sign + count
        invariant
            sign <= i <= sign + count <= s.len(),
            digits == s@.subrange(sign as int, sign + count),
            count == digit_run(s@.skip(sign as int)),
            sign == (if s@.len() > 0 && (s@[0] == '-' || s@[0] == '+') {
                1int
            } else {
                0int
            }),
            forall|k: int| sign <= k < sign + count ==> is_digit(#[trigger] s@[k]),
            magnitude == number_of(digits.take(i - sign)),
        decreases sign + count - i,
    {
        let c: char = s[i];
        assert(is_digit(s@[i as int]));
        let low: u128 = (c as u32 - 0x30) as u128;
        proof {
            assert(digits.take(i - sign + 1).drop_last() =~= digits.take(i - sign));
            assert(digits.take(i - sign + 1).last() == c);
            lemma_number_grows(digits, i - sign + 1);
            assert(low == digit_value(c));
            assert(number_of(digits.take(i - sign + 1)) == magnitude * 10 + low);
        }
        if magnitude > (u128::MAX - low) / 10 {
            return None;
        }
        magnitude = magnitude * 10 + low;
        i += 1;
    }
    assert(digits.take(count as int) =~= digits);
    Some((Number::new(sign == 1 && s[0] == '-', magnitude), sign + count))
}

/// Parses the tokens from `index` up to `end`, the first read from `offset`,
/// as a data directive, and gives its bytes and how far it reaches.
///
/// The window must begin with `.bytes <type>,` or the tokens are not a
/// directive. The value that follows is a symbolic value, which `resolver`
/// resolves, or a decimal literal; it must lie in the range that the type
/// admits.
pub fn parse_bytes_directive<'a>(
    tokens: &'a Tokens,
    index: usize,
    offset: usize,
    end: usize,
    resolver: &Resolver,
) -> (result: Result<(Vec<u8>, Consumed), DirectiveError<'a>>)
    requires
        tokens.wf(),
        resolver.wf(),
        index <= end <= tokens@.len(),
        index < end ==> offset < tokens@[index as int].len(),
        index == end ==> offset == 0,
    ensures
        match result {
            Ok((bytes, consumed)) => directive(
                window(tokens@, index as int, offset as int, end as int),
                resolver@,
            ) == Ok::<Emission, Refusal>(
                Emission { bytes: bytes@, tokens: consumed.tokens as int, chars: consumed.chars as int },
            ),
            Err(error) => directive(
                window(tokens@, index as int, offset as int, end as int),
                resolver@,
            ) == Err::<Emission, Refusal>(error@),
        },
{
    let ghost w = window(tokens@, index as int, offset as int, end as int);
    let count: usize = end - index;
    if count < 2 {
        return Err(DirectiveError::NotDirective);
    }
    let head: &[char] = tokens.get(index);
    let word: &[char] = &head[offset..head.len()];
    assert(word@ =~= w[0]);
    if !is_keyword(word) {
        return Err(DirectiveError::NotDirective);
    }
    let typed: &[char] = tokens.get(index + 1);
    assert(typed@ == w[1]);
    if typed.len() < 2 {
        return Err(DirectiveError::NotDirective);
    }
    let kind: char = typed[0];
    let size: char = typed[1];
    if !(kind == 'u' || kind == 'i') || !('0' <= size && size <= '4') {
        return Err(DirectiveError::NotDirective);
    }
    let ty: DataType = DataType { signed: kind == 'i', size_pow2: (size as u32 - 0x30) as u8 };
    let mut at: Consumed = if typed.len() == 2 {
        Consumed { tokens: 2, chars: 0 }
    } else {
        Consumed { tokens: 1, chars: 2 }
    };
    if at.tokens >= count {
        return Err(DirectiveError::NotDirective);
    }
    proof {
        tokens.lemma_layout(index + at.tokens, index + at.tokens + 1);
    }
    let comma: &[char] = tokens.get(index + at.tokens);
    assert(comma@ == w[at.tokens as int]);
    if comma[at.chars] != ',' {
        return Err(DirectiveError::NotDirective);
    }
    at = if at.chars + 1 == comma.len() {
        Consumed { tokens: at.tokens + 1, chars: 0 }
    } else {
        Consumed { tokens: at.tokens, chars: at.chars + 1 }
    };
    if at.tokens >= count {
        return Err(DirectiveError::Malformed);
    }
    proof {
        tokens.lemma_layout(index + at.tokens, index + at.tokens + 1);
    }
    let whole: &[char] = tokens.get(index + at.tokens);
    assert(whole@ == w[at.tokens as int]);
    let rest: &[char] = &whole[at.chars..whole.len()];
    assert(rest@ =~= w[at.tokens as int].skip(at.chars as int));
    let mut value: Option<(Number, usize)> = None;
    let mut missing: Option<&[char]> = None;
    match read_reference(rest) {
        Some((request, length)) => match resolver.resolve(&request) {
            Ok(address) => {
                value = Some((Number::from_i32(address), length));
            },
            Err(symbol) => {
                missing = Some(symbol);
            },
        },
        None => {},
    }
    if value.is_none() {
        value = read_literal(rest);
    }
    match value {
        None => match missing {
            Some(symbol) => Err(DirectiveError::UnknownSymbol(symbol)),
            None => Err(DirectiveError::Malformed),
        },
        Some((number, length)) => {
            if ty.fits(&number) {
                let after: Consumed = if at.chars + length == whole.len() {
                    Consumed { tokens: at.tokens + 1, chars: 0 }
                } else {
                    Consumed { tokens: at.tokens, chars: at.chars + length }
                };
                let bytes: Vec<u8> = number.to_le_bytes(ty.size());
                Ok((bytes, after))
            } else {
                Err(DirectiveError::OutOfBound { actual: number, min: ty.min(), max: ty.max() })
            }
        },
    }
}

} // verus!
