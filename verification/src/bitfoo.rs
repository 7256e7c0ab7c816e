//! Main container for the bit vector: owns the tree root, grows it lazily as
//! larger bit numbers are inserted, and exposes the public set/get/clear/
//! iterate/clone surface.

use vstd::prelude::*;
use vstd::arithmetic::power2::{pow2, lemma2_to64, lemma2_to64_rest};
use vstd::arithmetic::div_mod::lemma_small_mod;
use crate::addr::{
    Addr, spec_digits, spec_keys_wf, spec_key, spec_max_bit, spec_level_of,
    lemma_level_of_max, lemma_keys_above_level_zero, lemma_digits_partial_rebuild,
    lemma_digit_split, lemma_key_bounds,
};
use crate::node::{Node, spec_prefix_eq};
use crate::iter::{NodeIterator, spec_member, spec_emission, lemma_emission_exact};

verus! {

/// The bit numbers recorded under `root`, as a set.
pub open spec fn spec_root_set(root: Node) -> Set<u64> {
    Set::new(|b: u64| spec_member(root, b))
}

/// Two u64s with the same full digit sequence are the same number.
proof fn lemma_digits_injective(b1: u64, b2: u64)
    requires
        spec_digits(b1) == spec_digits(b2),
    ensures
        b1 == b2,
{
    lemma2_to64();
    lemma2_to64_rest();
    lemma_digits_partial_rebuild(b1, 9);
    lemma_digits_partial_rebuild(b2, 9);
    lemma_small_mod(b1 as nat, pow2(64));
    lemma_small_mod(b2 as nat, pow2(64));
}

/// Inside a root's range, matching the root-level digit prefix of `bitno`
/// pins the bit number down exactly.
proof fn lemma_prefix_is_identity(b: u64, bitno: u64, level: int)
    requires
        0 <= level <= 8,
        b <= spec_max_bit(level),
        bitno <= spec_max_bit(level),
        spec_prefix_eq(spec_digits(b), spec_digits(bitno), level),
    ensures
        b == bitno,
{
    lemma_level_of_max(b, level);
    lemma_level_of_max(bitno, level);
    assert forall|l: int| 0 <= l < 9 implies spec_digits(b)[l] == spec_digits(bitno)[l] by {
        if l > level {
            lemma_keys_above_level_zero(b, l);
            lemma_keys_above_level_zero(bitno, l);
        }
    }
    assert(spec_digits(b) =~= spec_digits(bitno));
    lemma_digits_injective(b, bitno);
}

/// The digit sequence of a bit number is a valid address digit sequence.
proof fn lemma_digits_wf(b: u64)
    ensures
        spec_keys_wf(spec_digits(b)),
{
    lemma_key_bounds(b);
}

/// Insert `bitno` below `root`, growing the root first when `bitno` lies
/// outside its range.
pub(crate) fn root_set(root: &mut Node, bitno: u64)
    requires
        old(root).wf(),
    ensures
        final(root).wf(),
        final(root).index.level as int == if spec_level_of(bitno) > old(root).index.level as int {
            spec_level_of(bitno)
        } else {
            old(root).index.level as int
        },
        forall|b: u64| #[trigger]
            spec_member(*final(root), b) == (spec_member(*old(root), b) || b == bitno),
{
    let addr = Addr::new(bitno);
    let mut level = root.level();
    while addr.node_level > level
        invariant
            root.wf(),
            addr.wf(),
            addr.node_level == spec_level_of(bitno),
            forall|l: int| 0 <= l < 9 ==> addr.key@[l] == spec_key(bitno, l),
            level == root.index.level,
            1 <= level <= 8,
            level >= old(root).index.level,
            spec_level_of(bitno) > old(root).index.level as int ==> level as int <= spec_level_of(
                bitno,
            ),
            spec_level_of(bitno) <= old(root).index.level as int ==> level == old(
                root,
            ).index.level,
            forall|b: u64| #[trigger]
                spec_member(*root, b) == spec_member(*old(root), b),
        decreases 8 - level,
    {
        // Replace root with a new one at the next level up, and attach the
        // previous root as its digit-0 child.
        level = level + 1;
        let mut old_root = Node::new(level);
        core::mem::swap(&mut old_root, root);
        let ghost prev_root = old_root;
        root.add_node(old_root);
        proof {
            let lvl = level as int;
            assert forall|b: u64| #[trigger]
                spec_member(*root, b) == spec_member(prev_root, b) by {
                lemma_digits_wf(b);
                lemma_level_of_max(b, lvl);
                lemma_level_of_max(b, lvl - 1);
                crate::addr::lemma_max_bit_mono(lvl - 1, lvl);
                if b <= spec_max_bit(lvl - 1) {
                    lemma_keys_above_level_zero(b, lvl);
                } else if b <= spec_max_bit(lvl) {
                    lemma_digit_split(b, lvl);
                }
            }
        }
    }
    let ghost grown = *root;
    root.set(&addr);
    proof {
        let lvl = root.index.level as int;
        lemma_level_of_max(bitno, lvl);
        assert forall|b: u64| #[trigger]
            spec_member(*root, b) == (spec_member(grown, b) || b == bitno) by {
            lemma_digits_wf(b);
            lemma_level_of_max(b, lvl);
            if b == bitno {
                assert(spec_prefix_eq(spec_digits(bitno), addr.key@, lvl)) by {
                    assert forall|l: int| 0 <= l <= lvl implies (#[trigger] spec_digits(
                        bitno,
                    )[l]) == addr.key@[l] by {}
                }
            } else {
                if b <= spec_max_bit(lvl) && spec_prefix_eq(spec_digits(b), addr.key@, lvl) {
                    assert(spec_prefix_eq(spec_digits(b), spec_digits(bitno), lvl)) by {
                        assert forall|l: int| 0 <= l <= lvl implies (#[trigger] spec_digits(
                            b,
                        )[l]) == spec_digits(bitno)[l] by {}
                    }
                    lemma_prefix_is_identity(b, bitno, lvl);
                }
            }
        }
    }
}

/// Remove `bitno` from below `root`.  A bit number above the root's range is
/// implicitly clear already.
pub(crate) fn root_clear(root: &mut Node, bitno: u64)
    requires
        old(root).wf(),
    ensures
        final(root).wf(),
        final(root).index.level == old(root).index.level,
        forall|b: u64| #[trigger]
            spec_member(*final(root), b) == (spec_member(*old(root), b) && b != bitno),
{
    let addr = Addr::new(bitno);
    let level = root.level();
    if addr.node_level <= level {
        root.clear(&addr);
        proof {
            let lvl = root.index.level as int;
            lemma_level_of_max(bitno, lvl);
            assert forall|b: u64| #[trigger]
                spec_member(*root, b) == (spec_member(*old(root), b) && b != bitno) by {
                lemma_digits_wf(b);
                lemma_level_of_max(b, lvl);
                if b == bitno {
                    assert(spec_prefix_eq(spec_digits(bitno), addr.key@, lvl)) by {
                        assert forall|l: int| 0 <= l <= lvl implies (#[trigger] spec_digits(
                            bitno,
                        )[l]) == addr.key@[l] by {}
                    }
                } else {
                    if b <= spec_max_bit(lvl) && spec_prefix_eq(spec_digits(b), addr.key@, lvl) {
                        assert(spec_prefix_eq(spec_digits(b), spec_digits(bitno), lvl)) by {
                            assert forall|l: int| 0 <= l <= lvl implies (#[trigger] spec_digits(
                                b,
                            )[l]) == spec_digits(bitno)[l] by {}
                        }
                        lemma_prefix_is_identity(b, bitno, lvl);
                    }
                }
            }
        }
    } else {
        proof {
            let lvl = root.index.level as int;
            lemma_level_of_max(bitno, lvl);
            assert forall|b: u64| #[trigger]
                spec_member(*root, b) == (spec_member(*old(root), b) && b != bitno) by {}
        }
    }
}

/// Membership of `bitno` below `root`.
pub(crate) fn root_get(root: &Node, bitno: u64) -> (r: bool)
    requires
        root.wf(),
    ensures
        r == spec_member(*root, bitno),
{
    let addr = Addr::new(bitno);
    if addr.node_level > root.level() {
        proof {
            lemma_level_of_max(bitno, root.index.level as int);
        }
        false
    } else {
        let r = root.get(&addr);
        proof {
            lemma_level_of_max(bitno, root.index.level as int);
            assert(addr.key@ =~= spec_digits(bitno));
        }
        r
    }
}

/// The contents built by inserting `values[0], ..., values[i-1]` in turn
/// into an empty container: each `set` call, by its contract, inserts one
/// element into the contents.
pub open spec fn spec_inserted(values: Seq<u64>) -> Set<u64>
    decreases values.len(),
{
    if values.len() == 0 {
        Set::empty()
    } else {
        spec_inserted(values.drop_last()).insert(values.last())
    }
}

/// Set/iterate agreement, insertion half: inserting the elements of
/// `values` one at a time into an empty container leaves exactly the set of
/// those elements, so the order of insertion (and any repetition) is
/// irrelevant to the contents.  The iterator's contract then yields those
/// members in ascending order with no duplicates and no extras.
pub proof fn lemma_insert_order_irrelevant(values: Seq<u64>)
    ensures
        spec_inserted(values) == values.to_set(),
    decreases values.len(),
{
    if values.len() == 0 {
        assert(spec_inserted(values) =~= values.to_set());
    } else {
        lemma_insert_order_irrelevant(values.drop_last());
        assert forall|x: u64| #[trigger]
            spec_inserted(values).contains(x) == values.to_set().contains(x) by {
            if x == values.last() {
                assert(values.contains(x)) by {
                    assert(values[values.len() - 1] == x);
                }
            } else {
                if values.contains(x) {
                    let i = choose|i: int| 0 <= i < values.len() && values[i] == x;
                    assert(values.drop_last()[i] == x);
                }
                if values.drop_last().contains(x) {
                    let i = choose|i: int|
                        0 <= i < values.drop_last().len() && values.drop_last()[i] == x;
                    assert(values[i] == x);
                }
            }
        }
        assert(spec_inserted(values) =~= values.to_set());
    }
}

/// Set/iterate agreement, sequence half: the ascending enumeration of a
/// container's members — the sequence its iterator produces entry by entry —
/// lists members only, in strictly increasing order, and omits none.  With
/// the insertion half above, iterating a container built from a finite set
/// of values, inserted in any order, yields exactly that set's sorted
/// ascending sequence.
pub proof fn lemma_iterate_yields_sorted_members(v: BitFoo)
    requires
        v.wf(),
    ensures
        forall|i: int|
            0 <= i < spec_emission(v.root_node, 0).len() ==> v.spec_set().contains(
                #[trigger] spec_emission(v.root_node, 0)[i],
            ),
        forall|i: int, j: int|
            0 <= i < j < spec_emission(v.root_node, 0).len() ==> spec_emission(v.root_node, 0)[i]
                < spec_emission(v.root_node, 0)[j],
        forall|b: u64| v.spec_set().contains(b) ==> spec_emission(v.root_node, 0).contains(b),
{
    lemma_emission_exact(v.root_node, 0);
}

/// Compressed, ordered set of 64-bit integers.
pub struct BitFoo {
    pub root_node: Node,
}

impl BitFoo {
    pub open spec fn wf(self) -> bool {
        self.root_node.wf()
    }

    /// The set of bit numbers held.
    pub open spec fn spec_set(self) -> Set<u64> {
        spec_root_set(self.root_node)
    }

    /// An empty set.
    pub fn new() -> (r: BitFoo)
        ensures
            r.wf(),
            r.spec_set() == Set::<u64>::empty(),
            r.root_node.index.level == 1,
    {
        let r = BitFoo { root_node: Node::new(1) };
        proof {
            assert(r.spec_set() =~= Set::<u64>::empty());
        }
        r
    }

    /// Return the level of the root node.
    pub fn level(&self) -> (r: u8)
        ensures
            r == self.root_node.index.level,
    {
        self.root_node.level()
    }

    /// Insert a bit number.  Inserting a member again leaves the set as it
    /// was.
    pub fn set(&mut self, bitno: u64)
        requires
            old(self).wf(),
        ensures
            final(self).wf(),
            final(self).spec_set() == old(self).spec_set().insert(bitno),
            old(self).spec_set().contains(bitno) ==> final(self).spec_set() == old(
                self,
            ).spec_set(),
            final(self).root_node.index.level as int == if spec_level_of(bitno) > old(
                self,
            ).root_node.index.level as int {
                spec_level_of(bitno)
            } else {
                old(self).root_node.index.level as int
            },
    {
        root_set(&mut self.root_node, bitno);
        proof {
            assert(self.spec_set() =~= old(self).spec_set().insert(bitno));
            if old(self).spec_set().contains(bitno) {
                assert(old(self).spec_set().insert(bitno) =~= old(self).spec_set());
            }
        }
    }

    /// Return the state of a bit number.
    pub fn get(&self, bitno: u64) -> (r: bool)
        requires
            self.wf(),
        ensures
            r == self.spec_set().contains(bitno),
    {
        root_get(&self.root_node, bitno)
    }

    /// Remove a bit number.  Clearing a non-member leaves the set as it was,
    /// and the root level never shrinks.
    pub fn clear(&mut self, bitno: u64)
        requires
            old(self).wf(),
        ensures
            final(self).wf(),
            final(self).spec_set() == old(self).spec_set().remove(bitno),
            !old(self).spec_set().contains(bitno) ==> final(self).spec_set() == old(
                self,
            ).spec_set(),
            final(self).root_node.index.level == old(self).root_node.index.level,
    {
        root_clear(&mut self.root_node, bitno);
        proof {
            assert(self.spec_set() =~= old(self).spec_set().remove(bitno));
            if !old(self).spec_set().contains(bitno) {
                assert(old(self).spec_set().remove(bitno) =~= old(self).spec_set());
            }
        }
    }

    /// Ascending iterator over the members.
    pub fn iter(&self) -> (r: NodeIterator)
        requires
            self.wf(),
        ensures
            r.wf(),
            r.next_from == 0,
            !r.done,
            forall|b: u64| #[trigger] spec_member(r.node, b) == self.spec_set().contains(b),
    {
        self.root_node.iter()
    }

    /// Independent deep copy: afterwards, mutating either side never shows
    /// through the other.
    pub fn clone(&self) -> (r: BitFoo)
        requires
            self.wf(),
        ensures
            r.wf(),
            r.spec_set() == self.spec_set(),
            r.root_node.index.level == self.root_node.index.level,
    {
        let r = BitFoo { root_node: self.root_node.clone() };
        proof {
            assert forall|b: u64| #[trigger]
                spec_member(r.root_node, b) == spec_member(self.root_node, b) by {
                assert(r.root_node.spec_contains(spec_digits(b)) == self.root_node.spec_contains(
                    spec_digits(b),
                ));
            }
            assert(r.spec_set() =~= self.spec_set());
        }
        r
    }
}

} // verus!
