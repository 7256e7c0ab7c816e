//! Container variant without an iterator surface: the same tree, root
//! growth and set/get/clear behaviour as `BitFoo`.

use vstd::prelude::*;
use crate::bitfoo::{root_set, root_clear, root_get, spec_root_set};
use crate::node::Node;

verus! {

/// Compressed, ordered set of 64-bit integers.
pub struct BitFooVec {
    pub root_node: Node,
}

impl BitFooVec {
    pub open spec fn wf(self) -> bool {
        self.root_node.wf()
    }

    /// The set of bit numbers held.
    pub open spec fn spec_set(self) -> Set<u64> {
        spec_root_set(self.root_node)
    }

    /// An empty set.
    pub fn new() -> (r: BitFooVec)
        ensures
            r.wf(),
            r.spec_set() == Set::<u64>::empty(),
            r.root_node.index.level == 1,
    {
        let r = BitFooVec { root_node: Node::new(1) };
        proof {
            assert(r.spec_set() =~= Set::<u64>::empty());
        }
        r
    }

    /// Return the level of the root node.
    pub fn level(&self) -> (r: u8)
        ensures
            r == self.root_node.index.level,
    {
        self.root_node.level()
    }

    /// Insert a bit number.  Inserting a member again leaves the set as it
    /// was.
    pub fn set(&mut self, bitno: u64)
        requires
            old(self).wf(),
        ensures
            final(self).wf(),
            final(self).spec_set() == old(self).spec_set().insert(bitno),
            old(self).spec_set().contains(bitno) ==> final(self).spec_set() == old(
                self,
            ).spec_set(),
            final(self).root_node.index.level as int == if crate::addr::spec_level_of(bitno) > old(
                self,
            ).root_node.index.level as int {
                crate::addr::spec_level_of(bitno)
            } else {
                old(self).root_node.index.level as int
            },
    {
        root_set(&mut self.root_node, bitno);
        proof {
            assert(self.spec_set() =~= old(self).spec_set().insert(bitno));
            if old(self).spec_set().contains(bitno) {
                assert(old(self).spec_set().insert(bitno) =~= old(self).spec_set());
            }
        }
    }

    /// Return the state of a bit number.
    pub fn get(&self, bitno: u64) -> (r: bool)
        requires
            self.wf(),
        ensures
            r == self.spec_set().contains(bitno),
    {
        root_get(&self.root_node, bitno)
    }

    /// Remove a bit number.  Clearing a non-member leaves the set as it was,
    /// and the root level never shrinks.
    pub fn clear(&mut self, bitno: u64)
        requires
            old(self).wf(),
        ensures
            final(self).wf(),
            final(self).spec_set() == old(self).spec_set().remove(bitno),
            !old(self).spec_set().contains(bitno) ==> final(self).spec_set() == old(
                self,
            ).spec_set(),
            final(self).root_node.index.level == old(self).root_node.index.level,
    {
        root_clear(&mut self.root_node, bitno);
        proof {
            assert(self.spec_set() =~= old(self).spec_set().remove(bitno));
            if !old(self).spec_set().contains(bitno) {
                assert(old(self).spec_set().remove(bitno) =~= old(self).spec_set());
            }
        }
    }

    /// Independent deep copy.
    pub fn clone(&self) -> (r: BitFooVec)
        requires
            self.wf(),
        ensures
            r.wf(),
            r.spec_set() == self.spec_set(),
            r.root_node.index.level == self.root_node.index.level,
    {
        let root_node = self.root_node.clone();
        let r = BitFooVec { root_node };
        proof {
            assert forall|b: u64| #[trigger]
                crate::iter::spec_member(r.root_node, b) == crate::iter::spec_member(
                self.root_node,
                b,
            ) by {
                assert(r.root_node.spec_contains(crate::addr::spec_digits(b))
                    == self.root_node.spec_contains(crate::addr::spec_digits(b)));
            }
            assert(r.spec_set() =~= self.spec_set());
        }
        r
    }
}

} // verus!
