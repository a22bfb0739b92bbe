//! Groups: the runs of tokens between label declarations.

use crate::token::{Tokens, MARKER};
use vstd::prelude::*;

verus! {

/// Whether `token` declares a label: it ends with the label marker.
pub open spec fn is_boundary(token: Seq<char>) -> bool {
    token.len() > 0 && token.last() == MARKER
}

/// The name that a label declaration declares: the token without its marker.
pub open spec fn label_of(token: Seq<char>) -> Seq<char> {
    token.drop_last()
}

/// The index of the first label declaration at or after `from`; the number
/// of tokens where there is none.
pub open spec fn group_end(tokens: Seq<Seq<char>>, from: int) -> int
    decreases tokens.len() - from,
{
    if from >= tokens.len() {
        tokens.len() as int
    } else if is_boundary(tokens[from]) {
        from
    } else {
        group_end(tokens, from + 1)
    }
}

/// The end of a group lies between its start and the end of the tokens, no
/// token before it declares a label, and the token at it does.
pub proof fn lemma_group_end(tokens: Seq<Seq<char>>, from: int)
    requires
        0 <= from <= tokens.len(),
    ensures
        from <= group_end(tokens, from) <= tokens.len(),
        forall|i: int| from <= i < group_end(tokens, from) ==> !is_boundary(#[trigger] tokens[i]),
        group_end(tokens, from) < tokens.len() ==> is_boundary(tokens[group_end(tokens, from)]),
        forall|i: int|
            from <= i <= group_end(tokens, from) ==> #[trigger] group_end(tokens, i) == group_end(
                tokens,
                from,
            ),
    decreases tokens.len() - from,
{
    if from < tokens.len() && !is_boundary(tokens[from]) {
        lemma_group_end(tokens, from + 1);
    }
}

/// Whether the token declares a label.
pub fn boundary(token: &[char]) -> (r: bool)
    ensures
        r == is_boundary(token@),
{
    token.len() > 0 && token[token.len() - 1] == MARKER
}

/// One item of a group.
#[derive(Clone, Copy, Debug, PartialEq, Eq)]
pub enum GroupItem<'a> {
    /// A token of the group's content.
    Token(&'a [char]),
    /// The name of the label that the declaration at the group's end declares.
    Label(&'a [char]),
}

/// A cursor over one group: the tokens from `cursor` up to `end`, where
/// `end` is the label declaration that closes the group, or the end of the
/// tokens.
#[derive(Clone, Copy, Debug, PartialEq, Eq)]
pub struct Group {
    pub cursor: usize,
    pub end: usize,
    pub done: bool,
    pub emit_label: bool,
}

impl Group {
    /// The group lies in `tokens`, and it ends at the first label declaration
    /// from its cursor on.
    pub open spec fn wf(&self, tokens: Seq<Seq<char>>) -> bool {
        &&& self.cursor <= self.end <= tokens.len()
        &&& self.end == group_end(tokens, self.cursor as int)
    }

    /// The next item of the group.
    ///
    /// The tokens before the closing label declaration come one by one. The
    /// declaration itself exhausts the group: it comes as the name it
    /// declares if the group emits labels and the name is not empty, and not
    /// at all otherwise. An exhausted group gives nothing more.
    pub fn next<'a>(&mut self, tokens: &'a Tokens) -> (item: Option<GroupItem<'a>>)
        requires
            tokens.wf(),
            old(self).wf(tokens@),
        ensures
            final(self).wf(tokens@),
            final(self).end == old(self).end,
            final(self).emit_label == old(self).emit_label,
            old(self).done || old(self).cursor >= tokens@.len() ==> item is None && *final(self)
                == *old(self),
            !old(self).done && old(self).cursor < old(self).end ==> {
                &&& item matches Some(GroupItem::Token(token))
                &&& token@ == tokens@[old(self).cursor as int]
                &&& final(self).cursor == old(self).cursor + 1
                &&& !final(self).done
            },
            !old(self).done && old(self).cursor == old(self).end < tokens@.len() ==> {
                &&& final(self).done
                &&& final(self).cursor == old(self).cursor
                &&& if old(self).emit_label && label_of(tokens@[old(self).end as int]).len() > 0 {
                    item matches Some(GroupItem::Label(name)) && name@ == label_of(
                        tokens@[old(self).end as int],
                    )
                } else {
                    item is None
                }
            },
    {
        proof {
            lemma_group_end(tokens@, self.cursor as int);
        }
        if self.done || self.cursor >= tokens.len() {
            return None;
        }
        let token: &[char] = tokens.get(self.cursor);
        if self.cursor < self.end {
            self.cursor = self.cursor + 1;
            return Some(GroupItem::Token(token));
        }
        self.done = true;
        let name: &[char] = &token[0..token.len() - 1];
        assert(name@ =~= label_of(token@));
        if self.emit_label && name.len() > 0 {
            Some(GroupItem::Label(name))
        } else {
            None
        }
    }
}

/// A cursor over the groups of a token sequence.
#[derive(Clone, Copy, Debug)]
pub struct GroupIter {
    /// Where the next group begins.
    pub start: usize,
    pub emit_label: bool,
}

impl GroupIter {
    /// The cursor before the first group.
    pub fn new(emit_label: bool) -> (groups: GroupIter)
        ensures
            groups.start == 0,
            groups.emit_label == emit_label,
    {
        GroupIter { start: 0, emit_label }
    }

    /// The next group, if any token is left: it begins at the cursor and
    /// ends at the first label declaration from there on. The cursor moves
    /// past that declaration.
    pub fn next(&mut self, tokens: &Tokens) -> (group: Option<Group>)
        requires
            tokens.wf(),
            old(self).start <= tokens@.len(),
        ensures
            final(self).emit_label == old(self).emit_label,
            final(self).start <= tokens@.len(),
            old(self).start == tokens@.len() ==> group is None && final(self).start == old(self).start,
            old(self).start < tokens@.len() ==> {
                &&& group == Some(
                    Group {
                        cursor: old(self).start,
                        end: group_end(tokens@, old(self).start as int) as usize,
                        done: false,
                        emit_label: old(self).emit_label,
                    },
                )
                &&& group->0.wf(tokens@)
                &&& final(self).start == if group_end(tokens@, old(self).start as int)
                    < tokens@.len() {
                    group_end(tokens@, old(self).start as int) + 1
                } else {
                    tokens@.len() as int
                }
            },
    {
        if self.start >= tokens.len() {
            return None;
        }
        let start: usize = self.start;
        let mut end: usize = start;
        while end < tokens.len() && !boundary(tokens.get(end))
            invariant
                tokens.wf(),
                start <= end <= tokens@.len(),
                group_end(tokens@, start as int) == group_end(tokens@, end as int),
            decreases tokens@.len() - end,
        {
            end += 1;
        }
        self.start = if end < tokens.len() {
            end + 1
        } else {
            end
        };
        Some(Group { cursor: start, end, done: false, emit_label: self.emit_label })
    }
}

} // verus!
