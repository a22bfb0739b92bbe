//! The label table: the byte offset of every label that a source declares.

use crate::text::same_text;
use vstd::prelude::*;

verus! {

/// One declared label.
pub struct Label {
    name: Vec<char>,
    address: i32,
}

/// A map from label names to byte offsets. A name is entered at most once,
/// and no offset is negative.
pub struct LabelTable {
    entries: Vec<Label>,
    map: Ghost<Map<Seq<char>, int>>,
}

impl View for LabelTable {
    type V = Map<Seq<char>, int>;

    closed spec fn view(&self) -> Map<Seq<char>, int> {
        self.map@
    }
}

impl LabelTable {
    /// The invariant of the type.
    pub closed spec fn wf(&self) -> bool {
        &&& forall|i: int|
            0 <= i < self.entries@.len() ==> {
                &&& self.map@.contains_key((#[trigger] self.entries@[i]).name@)
                &&& self.map@[self.entries@[i].name@] == self.entries@[i].address
                &&& self.entries@[i].address >= 0
            }
        &&& forall|name: Seq<char>| #[trigger]
            self.map@.contains_key(name) ==> exists|i: int|
                0 <= i < self.entries@.len() && (#[trigger] self.entries@[i]).name@ == name
    }

    /// Every offset of a table lies between zero and the largest `i32`.
    pub proof fn lemma_offsets(&self, name: Seq<char>)
        requires
            self.wf(),
            self@.contains_key(name),
        ensures
            0 <= self@[name] <= i32::MAX,
    {
        let i = choose|i: int|
            0 <= i < self.entries@.len() && (#[trigger] self.entries@[i]).name@ == name;
        assert(self.map@[self.entries@[i].name@] == self.entries@[i].address);
    }

    /// The empty table.
    pub fn new() -> (table: LabelTable)
        ensures
            table.wf(),
            table@ == Map::<Seq<char>, int>::empty(),
    {
        LabelTable { entries: Vec::new(), map: Ghost(Map::empty()) }
    }

    /// The offset of `name`, if it was declared.
    pub fn get(&self, name: &[char]) -> (found: Option<i32>)
        requires
            self.wf(),
        ensures
            match found {
                Some(address) => self@.contains_key(name@) && self@[name@] == address,
                None => !self@.contains_key(name@),
            },
    {
        let mut i: usize = 0;
        while i < self.entries.len()
            invariant
                i <= self.entries.len(),
                self.wf(),
                forall|k: int| 0 <= k < i ==> (#[trigger] self.entries@[k]).name@ != name@,
            decreases self.entries.len() - i,
        {
            if same_text(self.entries[i].name.as_slice(), name) {
                return Some(self.entries[i].address);
            }
            i += 1;
        }
        None
    }

    /// Whether `name` was declared.
    pub fn contains_key(&self, name: &[char]) -> (found: bool)
        requires
            self.wf(),
        ensures
            found == self@.contains_key(name@),
    {
        self.get(name).is_some()
    }

    /// Declares `name` at `address`, unless it was declared before: then the
    /// table stays as it is and the result is `false`.
    pub fn insert(&mut self, name: &[char], address: i32) -> (fresh: bool)
        requires
            old(self).wf(),
            address >= 0,
        ensures
            final(self).wf(),
            fresh == !old(self)@.contains_key(name@),
            fresh ==> final(self)@ == old(self)@.insert(name@, address as int),
            !fresh ==> final(self)@ == old(self)@,
    {
        if self.contains_key(name) {
            return false;
        }
        let mut owned: Vec<char> = Vec::new();
        owned.extend_from_slice(name);
        assert(owned@ =~= name@);
        let ghost before = *self;
        self.entries.push(Label { name: owned, address });
        self.map = Ghost(self.map@.insert(name@, address as int));
        proof {
            assert forall|i: int| 0 <= i < self.entries@.len() implies {
                &&& self.map@.contains_key((#[trigger] self.entries@[i]).name@)
                &&& self.map@[self.entries@[i].name@] == self.entries@[i].address
                &&& self.entries@[i].address >= 0
            } by {
                if i < before.entries@.len() {
                    assert(self.entries@[i] == before.entries@[i]);
                }
            }
            assert forall|n: Seq<char>| #[trigger] self.map@.contains_key(n) implies exists|i: int|
                0 <= i < self.entries@.len() && (#[trigger] self.entries@[i]).name@ == n by {
                if n == name@ {
                    assert(self.entries@[self.entries@.len() - 1].name@ == n);
                } else {
                    assert(before.map@.contains_key(n));
                    let i = choose|i: int|
                        0 <= i < before.entries@.len() && (#[trigger] before.entries@[i]).name@
                            == n;
                    assert(self.entries@[i] == before.entries@[i]);
                }
            }
        }
        true
    }
}

} // verus!
