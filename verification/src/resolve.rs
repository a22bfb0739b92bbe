//! Requests for the value of a symbol, and the two ways of answering them.

use crate::label::LabelTable;
use vstd::prelude::*;

verus! {

/// The value that stands for every symbol while label offsets are unknown.
pub const PLACEHOLDER: i32 = 2;

/// What an encoder asks about a symbolic operand.
#[derive(Clone, Copy, Debug, PartialEq, Eq)]
pub enum Resolve<'a> {
    /// The byte offset of a label.
    Address(&'a [char]),
    /// The distance from the current output offset to a label.
    DistanceFromCurrent(&'a [char]),
    /// The distance from the first label to the second.
    Distance(&'a [char], &'a [char]),
}

/// A [`Resolve`] request as a mathematical value.
pub enum Request {
    Address(Seq<char>),
    DistanceFromCurrent(Seq<char>),
    Distance(Seq<char>, Seq<char>),
}

impl<'a> View for Resolve<'a> {
    type V = Request;

    open spec fn view(&self) -> Request {
        match *self {
            Resolve::Address(label) => Request::Address(label@),
            Resolve::DistanceFromCurrent(label) => Request::DistanceFromCurrent(label@),
            Resolve::Distance(from, to) => Request::Distance(from@, to@),
        }
    }
}

/// How symbols are resolved: by a placeholder while offsets are measured, by
/// the label table once it is complete.
pub enum Resolver<'a> {
    Placeholder,
    Table { labels: &'a LabelTable, current: i32 },
}

/// A [`Resolver`] as a mathematical value.
pub enum Lookup {
    Placeholder,
    Table { labels: Map<Seq<char>, int>, current: int },
}

/// The answer to `request`: the value, or the symbol that is not declared.
///
/// The placeholder answers every request with [`PLACEHOLDER`]. The table
/// answers an address with the label's offset, a distance from the current
/// offset with the label's offset less the current one, and a distance
/// between two labels with the second offset less the first, looking for the
/// first label before the second.
pub open spec fn resolved(lookup: Lookup, request: Request) -> Result<int, Seq<char>> {
    match lookup {
        Lookup::Placeholder => Ok(PLACEHOLDER as int),
        Lookup::Table { labels, current } => match request {
            Request::Address(label) => if labels.contains_key(label) {
                Ok(labels[label])
            } else {
                Err(label)
            },
            Request::DistanceFromCurrent(label) => if labels.contains_key(label) {
                Ok(labels[label] - current)
            } else {
                Err(label)
            },
            Request::Distance(from, to) => if !labels.contains_key(from) {
                Err(from)
            } else if !labels.contains_key(to) {
                Err(to)
            } else {
                Ok(labels[to] - labels[from])
            },
        },
    }
}

impl<'a> View for Resolver<'a> {
    type V = Lookup;

    open spec fn view(&self) -> Lookup {
        match *self {
            Resolver::Placeholder => Lookup::Placeholder,
            Resolver::Table { labels, current } => Lookup::Table {
                labels: labels@,
                current: current as int,
            },
        }
    }
}

impl<'a> Resolver<'a> {
    /// The table is well formed and the current offset is not negative.
    pub open spec fn wf(&self) -> bool {
        match *self {
            Resolver::Placeholder => true,
            Resolver::Table { labels, current } => labels.wf() && current >= 0,
        }
    }

    /// Answers `request`; an error is the symbol that is not declared.
    pub fn resolve<'b>(&self, request: &Resolve<'b>) -> (answer: Result<i32, &'b [char]>)
        requires
            self.wf(),
        ensures
            match answer {
                Ok(value) => resolved(self@, request@) == Ok::<int, Seq<char>>(value as int),
                Err(symbol) => resolved(self@, request@) == Err::<int, Seq<char>>(symbol@),
            },
    {
        match self {
            Resolver::Placeholder => Ok(PLACEHOLDER),
            Resolver::Table { labels, current } => match request {
                Resolve::Address(label) => match labels.get(label) {
                    Some(address) => Ok(address),
                    None => Err(*label),
                },
                Resolve::DistanceFromCurrent(label) => match labels.get(label) {
                    Some(address) => {
                        proof {
                            labels.lemma_offsets(label@);
                        }
                        Ok(address - *current)
                    },
                    None => Err(*label),
                },
                Resolve::Distance(from, to) => match labels.get(from) {
                    None => Err(*from),
                    Some(first) => match labels.get(to) {
                        None => Err(*to),
                        Some(second) => {
                            proof {
                                labels.lemma_offsets(from@);
                                labels.lemma_offsets(to@);
                            }
                            Ok(second - first)
                        },
                    },
                },
            },
        }
    }
}

} // verus!
