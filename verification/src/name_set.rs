//! Sets of tag names.

use vstd::prelude::*;
use crate::text::str_eq;
use crate::xpath::numbers::strings;

verus! {

/// A set of names. No name is listed twice; the names stand in the order in
/// which they were first inserted.
pub struct NameSet {
    pub names: Vec<String>,
}

impl View for NameSet {
    type V = Set<Seq<char>>;

    open spec fn view(&self) -> Set<Seq<char>> {
        strings(self.names@).to_set()
    }
}

impl NameSet {
    /// No name is listed twice.
    pub open spec fn wf(&self) -> bool {
        strings(self.names@).no_duplicates()
    }

    /// The empty set.
    pub fn new() -> (r: NameSet)
        ensures
            r.wf(),
            r@ == Set::<Seq<char>>::empty(),
    {
        let r = NameSet { names: Vec::new() };
        assert(r@ =~= Set::<Seq<char>>::empty());
        r
    }

    /// Whether the name is in the set.
    pub fn contains(&self, name: &str) -> (r: bool)
        ensures
            r == self@.contains(name@),
    {
        let n: usize = self.names.len();
        let mut i: usize = 0;
        while i < n
            invariant
                n == self.names@.len(),
                i <= n,
                forall|j: int| 0 <= j < i ==> #[trigger] self.names@[j]@ != name@,
            decreases n - i,
        {
            if str_eq(self.names[i].as_str(), name) {
                assert(strings(self.names@)[i as int] == name@);
                return true;
            }
            i += 1;
        }
        assert forall|j: int| 0 <= j < strings(self.names@).len() implies #[trigger] strings(
            self.names@,
        )[j] != name@ by {
            assert(self.names@[j]@ != name@);
        }
        false
    }

    /// Puts a name into the set. Tells whether it was new.
    pub fn insert(&mut self, name: String) -> (r: bool)
        requires
            old(self).wf(),
        ensures
            final(self).wf(),
            final(self)@ == old(self)@.insert(name@),
            r == !old(self)@.contains(name@),
    {
        let ghost before = strings(self.names@);
        let ghost text = name@;
        if self.contains(name.as_str()) {
            assert(self@ =~= self@.insert(text));
            return false;
        }
        self.names.push(name);
        proof {
            let after = strings(self.names@);
            assert(after =~= before.push(text));
            assert(after.last() == text);
            assert(self@ =~= old(self)@.insert(text)) by {
                assert forall|t: Seq<char>| self@.contains(t) == old(self)@.insert(text).contains(t) by {
                    if before.contains(t) {
                        let i = choose|i: int| 0 <= i < before.len() && before[i] == t;
                        assert(after[i] == t);
                    }
                    if after.contains(t) {
                        let i = choose|i: int| 0 <= i < after.len() && after[i] == t;
                        if i < before.len() {
                            assert(before[i] == t);
                        }
                    }
                }
            }
            assert(after.no_duplicates()) by {
                assert forall|i: int, j: int| 0 <= i < after.len() && 0 <= j < after.len() && i != j implies after[i]
                    != after[j] by {
                    if i < before.len() && j < before.len() {
                        assert(before[i] != before[j]);
                    } else if i < before.len() {
                        assert(before.contains(before[i]));
                    } else {
                        assert(before.contains(before[j]));
                    }
                }
            }
        }
        true
    }

    /// The number of names.
    pub fn len(&self) -> (r: usize)
        requires
            self.wf(),
        ensures
            r == self@.len(),
    {
        proof {
            strings(self.names@).unique_seq_to_set();
        }
        self.names.len()
    }

    /// Whether there is no name in the set.
    pub fn is_empty(&self) -> (r: bool)
        ensures
            r == (self@ == Set::<Seq<char>>::empty()),
    {
        let r = self.names.len() == 0;
        proof {
            if r {
                assert(self@ =~= Set::<Seq<char>>::empty());
            } else {
                assert(strings(self.names@)[0] == self.names@[0]@);
                assert(self@.contains(self.names@[0]@));
            }
        }
        r
    }
}

} // verus!
