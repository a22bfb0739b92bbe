//! The two-pass driver. The first pass measures every directive and
//! instruction and enters each label with its offset; the second resolves
//! symbols against the finished table and emits the bytes.
//!
//! Instructions belong to the instruction set, which is not part of this
//! library. The driver therefore runs as far as it can by itself and stops
//! whenever an instruction has to be parsed: the caller parses the pending
//! tokens, answering symbol requests through [`Raw::resolve`], and hands the
//! outcome to [`Raw::advance`]. What the driver does is stated over the
//! machine of [`crate::state`].

use crate::directive::{
    lemma_directive_reach, lemma_le_bytes_len, parse_bytes_directive, Consumed, DirectiveError,
};
use crate::error::AssemblyError;
use crate::group::{group_end, label_of, lemma_group_end, Group, GroupItem, GroupIter};
use crate::label::LabelTable;
use crate::number::{le_bytes, Number};
use crate::resolve::{resolved, Resolve, Resolver};
use crate::state::{initial, Outlook, Pass, State, Verdict};
use crate::text::string_of;
use crate::token::{pieces_of, source_text, tokenize, tokens_of, Tokens};
use byteorder::{LittleEndian, WriteBytesExt};
use vstd::prelude::*;

verus! {

/// The longest source text that can be assembled, in characters: every
/// offset into its output fits a signed 32-bit integer.
pub const MAX_SOURCE: usize = 0x3FFF_FFFF;

/// Where an assembly stands.
#[derive(Clone, Debug, PartialEq, Eq)]
pub enum Status {
    /// An instruction has to be parsed at the cursor.
    Awaiting,
    /// Both passes are done: the output is complete.
    Finished,
    /// The assembly has failed.
    Failed(AssemblyError),
}

impl View for Status {
    type V = Outlook;

    open spec fn view(&self) -> Outlook {
        match *self {
            Status::Awaiting => Outlook::Awaiting,
            Status::Finished => Outlook::Finished,
            Status::Failed(error) => Outlook::Failed(error@),
        }
    }
}

/// What parsing an instruction gave.
#[derive(Clone, Debug, PartialEq, Eq)]
pub enum Outcome {
    /// An instruction with this encoding, which reaches so far into the
    /// pending tokens.
    Matched { code: u16, consumed: Consumed },
    /// No instruction begins at the cursor.
    NoMatch,
    /// The instruction names a symbol that is not declared.
    UnknownSymbol(String),
    /// An operand of the instruction is out of its range.
    OutOfBound { actual: Number, min: Number, max: Number },
}

impl View for Outcome {
    type V = Verdict;

    open spec fn view(&self) -> Verdict {
        match *self {
            Outcome::Matched { code, consumed } => Verdict::Matched {
                code,
                tokens: consumed.tokens as nat,
                chars: consumed.chars as nat,
            },
            Outcome::NoMatch => Verdict::NoMatch,
            Outcome::UnknownSymbol(symbol) => Verdict::UnknownSymbol(symbol@),
            Outcome::OutOfBound { actual, min, max } => Verdict::OutOfBound {
                actual: actual@,
                min: min@,
                max: max@,
            },
        }
    }
}

/// `WriteBytesExt::write_u16::<LittleEndian>` of byteorder, on a `Vec<u8>`:
/// the vector gains the two bytes of `code`, the low byte first, and is
/// otherwise unchanged. Writing to a vector does not fail.
#[verifier::external_body]
fn write_code(output: &mut Vec<u8>, code: u16)
    ensures
        final(output)@ == old(output)@ + le_bytes(code as int, 2),
{
    output.write_u16::<LittleEndian>(code).unwrap();
}

/// An assembly of raw source text: labels, data directives and
/// instructions, and nothing else.
pub struct Raw {
    tokens: Tokens,
    pass: Pass,
    groups: GroupIter,
    group: Group,
    offset: usize,
    count: i32,
    labels: LabelTable,
    output: Vec<u8>,
    status: Status,
}

impl View for Raw {
    type V = State;

    closed spec fn view(&self) -> State {
        State {
            tokens: self.tokens@,
            pass: self.pass,
            index: self.group.cursor as nat,
            offset: self.offset as nat,
            count: self.count as int,
            labels: self.labels@,
            output: self.output@,
            status: self.status@,
        }
    }
}

impl Raw {
    /// Where the cursor stands in the source text.
    spec fn place(&self) -> int {
        self.tokens.start_of(self.group.cursor as int) + self.offset
    }

    /// What holds of the cursor and the count of an assembly while it runs.
    /// The count is at most twice the number of characters before the
    /// cursor, so that it fits a signed 32-bit integer.
    spec fn sound_but_output(&self) -> bool {
        &&& self.tokens.wf()
        &&& self.tokens.source_len() <= MAX_SOURCE
        &&& self.labels.wf()
        &&& self.group.wf(self.tokens@)
        &&& !self.group.done
        &&& self.groups.start == (if self.group.end < self.tokens@.len() {
            self.group.end + 1
        } else {
            self.tokens@.len() as int
        })
        &&& self.groups.emit_label == (self.pass is Measure)
        &&& self.group.emit_label == (self.pass is Measure)
        &&& self.group.cursor < self.group.end ==> self.offset
            < self.tokens@[self.group.cursor as int].len()
        &&& self.group.cursor == self.group.end ==> self.offset == 0
        &&& 0 <= self.count <= 2 * self.place()
    }

    /// What holds of an assembly while it runs.
    spec fn sound(&self) -> bool {
        &&& self.sound_but_output()
        &&& self@.balanced()
    }

    /// The invariant of the type.
    pub closed spec fn wf(&self) -> bool {
        &&& self.sound()
        &&& self.status is Awaiting ==> self.group.cursor < self.group.end
    }

    /// What the invariant says of the state: the cursor stands in the
    /// tokens, none of which is empty, the count agrees with the output, and
    /// an instruction is awaited only inside a group.
    pub proof fn lemma_wf(&self)
        requires
            self.wf(),
        ensures
            self@.solid(),
            self@.in_tokens(),
            self@.balanced(),
            0 <= self@.count <= i32::MAX,
            self@.status is Awaiting ==> self@.index < group_end(
                self@.tokens,
                self@.index as int,
            ),
    {
        self.lemma_solid();
        lemma_group_end(self.tokens@, self.group.cursor as int);
    }

    proof fn lemma_solid(&self)
        requires
            self.tokens.wf(),
        ensures
            self@.solid(),
    {
        assert forall|i: int| 0 <= i < self@.tokens.len() implies (#[trigger] self@.tokens[i]).len()
            > 0 by {
            self.tokens.lemma_layout(i, i + 1);
        }
    }

    /// Moves the cursor behind a directive or an instruction of `size`
    /// bytes and counts them.
    fn step(&mut self, size: usize, consumed: Consumed)
        requires
            old(self).sound_but_output(),
            old(self).group.cursor < old(self).group.end,
            old(self)@.admits(
                Verdict::Matched {
                    code: 0,
                    tokens: consumed.tokens as nat,
                    chars: consumed.chars as nat,
                },
            ),
            old(self).output@.len() == (match old(self).pass {
                Pass::Measure => 0,
                Pass::Emit => old(self).count + size,
            }),
            size <= 2 || {
                &&& size <= 16
                &&& old(self)@.pending().len() >= 2
                &&& old(self)@.pending()[0].len() == 6
                &&& old(self)@.pending()[1].len() >= 2
                &&& consumed.tokens >= 1
                &&& consumed.tokens == 1 ==> consumed.chars >= 3
            },
        ensures
            final(self).tokens == old(self).tokens,
            final(self).pass == old(self).pass,
            final(self).labels == old(self).labels,
            final(self).output == old(self).output,
            final(self).status == old(self).status,
            final(self).group.cursor == old(self)@.reach(
                consumed.tokens as int,
                consumed.chars as int,
            ).index,
            final(self).offset == old(self)@.reach(
                consumed.tokens as int,
                consumed.chars as int,
            ).offset,
            final(self).count == old(self).count + size,
            final(self).sound(),
    {
        let ghost tokens = self.tokens@;
        let ghost w = self@.pending();
        let ghost first = self.group.cursor as int;
        proof {
            self.lemma_solid();
            lemma_group_end(tokens, first);
            self.tokens.lemma_layout(first, first + 1);
            if consumed.tokens < w.len() {
                assert(w[consumed.tokens as int] == if consumed.tokens == 0 {
                    tokens[first].skip(self.offset as int)
                } else {
                    tokens[first + consumed.tokens]
                });
            }
        }
        let mut index: usize = self.group.cursor + consumed.tokens;
        let mut offset: usize = if consumed.tokens == 0 {
            self.offset + consumed.chars
        } else {
            consumed.chars
        };
        proof {
            if index < tokens.len() {
                self.tokens.lemma_layout(index as int, index + 1);
            }
            if first < index {
                self.tokens.lemma_layout(first, index as int);
            }
            if size > 2 {
                assert(w[0] == tokens[first].skip(self.offset as int));
                assert(w[1] == tokens[first + 1]);
                self.tokens.lemma_layout(first + 1, first + 2);
                if first + 1 < index {
                    self.tokens.lemma_layout(first + 1, index as int);
                }
            }
        }
        if index < self.tokens.len() && offset >= self.tokens.get(index).len() {
            index = index + 1;
            offset = 0;
            proof {
                if index < tokens.len() {
                    self.tokens.lemma_layout(index as int, index + 1);
                }
                self.tokens.lemma_layout(index - 1, index as int);
                if first + 1 < index && size > 2 {
                    self.tokens.lemma_layout(first + 1, index as int);
                }
            }
        }
        self.group.cursor = index;
        self.offset = offset;
        self.count = self.count + size as i32;
    }

    /// The head of the pending tokens.
    fn fragment(&self) -> (text: String)
        requires
            self.sound(),
            self.group.cursor < self.group.end,
        ensures
            text@ == self@.pending()[0],
    {
        let head: &[char] = self.tokens.get(self.group.cursor);
        let rest: &[char] = &head[self.offset..head.len()];
        string_of(rest)
    }

    /// Runs until an instruction has to be parsed, or the assembly has
    /// finished or failed.
    fn run(&mut self)
        requires
            old(self).sound(),
        ensures
            final(self).wf(),
            final(self)@ == old(self)@.settle(),
    {
        loop
            invariant
                self.sound(),
                self@.settle() == old(self)@.settle(),
            decreases
                    (match self.pass {
                        Pass::Measure => 1int,
                        Pass::Emit => 0int,
                    }),
                    self.tokens@.len() - self.group.cursor,
        {
            let ghost before = self@;
            proof {
                lemma_group_end(self.tokens@, self.group.cursor as int);
            }
            if self.group.cursor < self.group.end {
                proof {
                    lemma_directive_reach(before.pending(), before.lookup());
                    self.lemma_solid();
                }
                let parsed = match self.pass {
                    Pass::Measure => parse_bytes_directive(
                        &self.tokens,
                        self.group.cursor,
                        self.offset,
                        self.group.end,
                        &Resolver::Placeholder,
                    ),
                    Pass::Emit => parse_bytes_directive(
                        &self.tokens,
                        self.group.cursor,
                        self.offset,
                        self.group.end,
                        &Resolver::Table { labels: &self.labels, current: self.count },
                    ),
                };
                match parsed {
                    Ok((bytes, consumed)) => {
                        let mut bytes: Vec<u8> = bytes;
                        let size: usize = bytes.len();
                        let ghost emitted = bytes@;
                        match self.pass {
                            Pass::Measure => {},
                            Pass::Emit => {
                                self.output.append(&mut bytes);
                            },
                        }
                        self.step(size, consumed);
                        assert(self@ =~= before.consume(
                            emitted,
                            consumed.tokens as int,
                            consumed.chars as int,
                        ));
                    },
                    Err(DirectiveError::NotDirective) => {
                        self.status = Status::Awaiting;
                        assert(self@ =~= before.ended(Outlook::Awaiting));
                        return ;
                    },
                    Err(DirectiveError::Malformed) => {
                        let fragment: String = self.fragment();
                        self.status = Status::Failed(AssemblyError::AssemblyStuck(fragment));
                        assert(self@ =~= before.settle());
                        return ;
                    },
                    Err(DirectiveError::UnknownSymbol(symbol)) => {
                        let name: String = string_of(symbol);
                        self.status = Status::Failed(AssemblyError::UnknownSymbol(name));
                        assert(self@ =~= before.settle());
                        return ;
                    },
                    Err(DirectiveError::OutOfBound { actual, min, max }) => {
                        self.status = Status::Failed(
                            AssemblyError::OutOfBoundValue { actual, min, max },
                        );
                        assert(self@ =~= before.settle());
                        return ;
                    },
                }
            } else if self.group.cursor < self.tokens.len() {
                let mut group: Group = self.group;
                match group.next(&self.tokens) {
                    Some(GroupItem::Label(name)) => {
                        if !self.labels.insert(name, self.count) {
                            let text: String = string_of(name);
                            self.status = Status::Failed(AssemblyError::DuplicateLabel(text));
                            assert(self@ =~= before.settle());
                            return ;
                        }
                    },
                    _ => {},
                }
                proof {
                    self.tokens.lemma_layout(self.group.cursor as int, self.group.cursor + 1);
                }
                self.enter_next_group();
                proof {
                    let name = label_of(before.tokens[before.index as int]);
                    if before.pass is Emit || name.len() == 0 {
                        assert(self@ =~= before.at(before.index + 1));
                    } else {
                        assert(self@ =~= State {
                            labels: before.labels.insert(name, before.count),
                            ..before
                        }.at(before.index + 1));
                    }
                }
            } else {
                match self.pass {
                    Pass::Measure => {
                        self.pass = Pass::Emit;
                        self.output = Vec::with_capacity(self.count as usize);
                        self.count = 0;
                        self.groups = GroupIter::new(false);
                        proof {
                            self.tokens.lemma_start(0);
                        }
                        self.enter_next_group();
                        assert(self@.output =~= before.output);
                        assert(self@ =~= State { pass: Pass::Emit, count: 0, ..before }.at(0));
                    },
                    Pass::Emit => {
                        self.status = Status::Finished;
                        assert(self@ =~= before.ended(Outlook::Finished));
                        return ;
                    },
                }
            }
        }
    }

    /// Makes the group that the group cursor points at the current one; the
    /// empty group at the end of the tokens where none is left.
    fn enter_next_group(&mut self)
        requires
            old(self).tokens.wf(),
            old(self).tokens.source_len() <= MAX_SOURCE,
            old(self).labels.wf(),
            old(self).groups.start <= old(self).tokens@.len(),
            old(self).groups.emit_label == (old(self).pass is Measure),
            0 <= old(self).count <= 2 * old(self).tokens.start_of(old(self).groups.start as int),
        ensures
            final(self).sound_but_output(),
            final(self).tokens == old(self).tokens,
            final(self).pass == old(self).pass,
            final(self).labels == old(self).labels,
            final(self).output == old(self).output,
            final(self).status == old(self).status,
            final(self).count == old(self).count,
            final(self).offset == 0,
            final(self).group.cursor == old(self).groups.start,
    {
        let ghost start = self.groups.start as int;
        proof {
            lemma_group_end(self.tokens@, start);
            if start < self.tokens@.len() {
                self.tokens.lemma_layout(start, start + 1);
            }
        }
        let emit_label: bool = self.groups.emit_label;
        let len: usize = self.tokens.len();
        self.offset = 0;
        match self.groups.next(&self.tokens) {
            Some(group) => {
                self.group = group;
            },
            None => {
                self.group = Group { cursor: len, end: len, done: false, emit_label };
            },
        }
    }

    /// Begins the assembly of `tokens` and runs it up to the first
    /// instruction.
    pub fn new(tokens: Tokens) -> (raw: Raw)
        requires
            tokens.wf(),
            tokens.source_len() <= MAX_SOURCE,
        ensures
            raw.wf(),
            raw@ == initial(tokens@).settle(),
    {
        let mut raw: Raw = Raw {
            tokens,
            pass: Pass::Measure,
            groups: GroupIter::new(true),
            group: Group { cursor: 0, end: 0, done: false, emit_label: true },
            offset: 0,
            count: 0,
            labels: LabelTable::new(),
            output: Vec::new(),
            status: Status::Awaiting,
        };
        proof {
            raw.tokens.lemma_start(0);
        }
        raw.enter_next_group();
        assert(raw@ =~= initial(tokens@));
        raw.run();
        raw
    }

    /// Tokenizes `source` and begins its assembly, unless the source is
    /// longer than [`MAX_SOURCE`] characters, line feeds after the pieces
    /// counted.
    pub fn begin(source: &[&str]) -> (begun: Option<Raw>)
        ensures
            match begun {
                Some(raw) => {
                    &&& source_text(pieces_of(source@)).len() <= MAX_SOURCE
                    &&& raw.wf()
                    &&& raw@ == initial(tokens_of(source_text(pieces_of(source@)))).settle()
                },
                None => source_text(pieces_of(source@)).len() > MAX_SOURCE,
            },
    {
        let tokens: Tokens = tokenize(source);
        if tokens.source_size() <= MAX_SOURCE {
            Some(Raw::new(tokens))
        } else {
            None
        }
    }

    /// Whether an instruction has to be parsed before the assembly can go on.
    pub fn awaiting(&self) -> (r: bool)
        ensures
            r == (self@.status is Awaiting),
    {
        match self.status {
            Status::Awaiting => true,
            _ => false,
        }
    }

    /// The pass that the assembly is in.
    pub fn pass(&self) -> (pass: Pass)
        ensures
            pass == self@.pass,
    {
        self.pass
    }

    /// The number of bytes that the tokens before the cursor stand for.
    pub fn byte_count(&self) -> (count: i32)
        ensures
            count == self@.count,
    {
        self.count
    }

    /// The tokens that the awaited instruction is to be parsed from: those
    /// of the current group from the cursor on, the first without the
    /// characters that were consumed before.
    pub fn pending(&self) -> (view: Vec<String>)
        requires
            self.wf(),
        ensures
            view@.len() == self@.pending().len(),
            forall|i: int| 0 <= i < view@.len() ==> (#[trigger] view@[i])@ == self@.pending()[i],
    {
        let mut view: Vec<String> = Vec::new();
        let mut i: usize = self.group.cursor;
        proof {
            lemma_group_end(self.tokens@, self.group.cursor as int);
        }
        while i < self.group.end
            invariant
                self.sound(),
                self.group.cursor <= i <= self.group.end,
                view@.len() == i - self.group.cursor,
                forall|k: int|
                    0 <= k < view@.len() ==> (#[trigger] view@[k])@ == self@.pending()[k],
            decreases self.group.end - i,
        {
            let token: &[char] = self.tokens.get(i);
            let rest: &[char] = if i == self.group.cursor {
                &token[self.offset..token.len()]
            } else {
                token
            };
            assert(rest@ =~= self@.pending()[i - self.group.cursor]);
            view.push(string_of(rest));
            i += 1;
        }
        view
    }

    /// Answers a symbol request of the awaited instruction: with the
    /// placeholder in the first pass, from the label table in the second.
    /// An error is the symbol that is not declared.
    pub fn resolve<'b>(&self, request: &Resolve<'b>) -> (answer: Result<i32, &'b [char]>)
        requires
            self.wf(),
        ensures
            match answer {
                Ok(value) => resolved(self@.lookup(), request@) == Ok::<int, Seq<char>>(
                    value as int,
                ),
                Err(symbol) => resolved(self@.lookup(), request@) == Err::<int, Seq<char>>(
                    symbol@,
                ),
            },
    {
        match self.pass {
            Pass::Measure => Resolver::Placeholder.resolve(request),
            Pass::Emit => Resolver::Table { labels: &self.labels, current: self.count }.resolve(
                request,
            ),
        }
    }

    /// Whether `outcome` can be the outcome of parsing the pending tokens.
    pub fn accepts(&self, outcome: &Outcome) -> (r: bool)
        requires
            self.wf(),
        ensures
            r == self@.admits(outcome@),
    {
        proof {
            lemma_group_end(self.tokens@, self.group.cursor as int);
        }
        match outcome {
            Outcome::Matched { code, consumed } => {
                let room: usize = self.group.end - self.group.cursor;
                if consumed.tokens == 0 && consumed.chars == 0 {
                    false
                } else if consumed.tokens > room {
                    false
                } else if consumed.chars == 0 {
                    true
                } else if consumed.tokens == room {
                    false
                } else {
                    let token: &[char] = self.tokens.get(self.group.cursor + consumed.tokens);
                    let left: usize = if consumed.tokens == 0 {
                        token.len() - self.offset
                    } else {
                        token.len()
                    };
                    assert(self@.pending()[consumed.tokens as int].len() == left);
                    consumed.chars <= left
                }
            },
            _ => true,
        }
    }

    /// Takes the outcome of parsing the awaited instruction and runs on to
    /// the next one, or to the end.
    pub fn advance(&mut self, outcome: Outcome)
        requires
            old(self).wf(),
            old(self)@.status is Awaiting,
            old(self)@.admits(outcome@),
        ensures
            final(self).wf(),
            final(self)@ == old(self)@.deliver(outcome@),
    {
        let ghost before = self@;
        proof {
            lemma_group_end(self.tokens@, self.group.cursor as int);
        }
        match outcome {
            Outcome::Matched { code, consumed } => {
                match self.pass {
                    Pass::Measure => {},
                    Pass::Emit => {
                        write_code(&mut self.output, code);
                    },
                }
                proof {
                    lemma_le_bytes_len(code as int, 2);
                }
                self.step(2, consumed);
                assert(self@ =~= before.consume(
                    le_bytes(code as int, 2),
                    consumed.tokens as int,
                    consumed.chars as int,
                ));
                self.run();
            },
            Outcome::NoMatch => match self.pass {
                Pass::Measure => {
                    proof {
                        self.tokens.lemma_layout(self.group.cursor as int, self.group.end as int);
                    }
                    self.group.cursor = self.group.end;
                    self.offset = 0;
                    assert(self@ =~= before.at(group_end(before.tokens, before.index as int) as nat));
                    self.run();
                },
                Pass::Emit => {
                    let fragment: String = self.fragment();
                    self.status = Status::Failed(AssemblyError::AssemblyStuck(fragment));
                    assert(self@ =~= before.deliver(outcome@));
                },
            },
            Outcome::UnknownSymbol(symbol) => {
                self.status = Status::Failed(AssemblyError::UnknownSymbol(symbol));
                assert(self@ =~= before.deliver(outcome@));
            },
            Outcome::OutOfBound { actual, min, max } => {
                self.status = Status::Failed(AssemblyError::OutOfBoundValue { actual, min, max });
                assert(self@ =~= before.deliver(outcome@));
            },
        }
    }

    /// Takes the outcome of parsing the awaited instruction, if one is
    /// awaited and the outcome can be that of parsing the pending tokens;
    /// otherwise the assembly stays as it is and the result is `false`.
    pub fn offer(&mut self, outcome: Outcome) -> (taken: bool)
        requires
            old(self).wf(),
        ensures
            final(self).wf(),
            taken == (old(self)@.status is Awaiting && old(self)@.admits(outcome@)),
            taken ==> final(self)@ == old(self)@.deliver(outcome@),
            !taken ==> final(self)@ == old(self)@,
    {
        if self.awaiting() && self.accepts(&outcome) {
            self.advance(outcome);
            true
        } else {
            false
        }
    }

    /// The result of the assembly, once no instruction is awaited: the
    /// output of a finished assembly, the error of a failed one.
    pub fn finish(self) -> (result: Option<Result<Vec<u8>, AssemblyError>>)
        ensures
            match result {
                None => self@.status is Awaiting,
                Some(Ok(bytes)) => self@.status is Finished && bytes@ == self@.output,
                Some(Err(error)) => self@.status == Outlook::Failed(error@),
            },
    {
        match self.status {
            Status::Awaiting => None,
            Status::Finished => Some(Ok(self.output)),
            Status::Failed(error) => Some(Err(error)),
        }
    }

}

} // verus!
