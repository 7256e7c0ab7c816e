//! Recursive tree node: content is either a sequence of 64-bit leaf words
//! (level 1) or a sequence of child nodes (levels 2 and up), indexed by a
//! `KeyIndex`.  `set`/`get`/`clear` route on the digit at the node's level,
//! with bottom-up run detection and run explosion.

use vstd::prelude::*;
use crate::addr::{Addr, spec_keys_wf};
use crate::bitvec64::{spec_bit64, lemma_bit64_or_one, lemma_bit64_and_not_one, lemma_bit64_test, lemma_bit64_const};
use crate::key::{KeyIndex, KeyState};

verus! {

/// Content of one node: raw leaf words at the bottom level, child nodes above.
pub enum Content {
    Bits(Vec<u64>),
    Nodes(Vec<Node>),
}

/// One node of the tree.
pub struct Node {
    /// Indexes content keys by vec offset.
    pub index: KeyIndex,
    /// Vec of either u64 bits or child nodes.
    pub content: Content,
}

/// The digits of `a` and `b` agree at every level up to and including `level`.
pub open spec fn spec_prefix_eq(a: Seq<u8>, b: Seq<u8>, level: int) -> bool {
    forall|l: int| 0 <= l <= level ==> (#[trigger] a[l]) == b[l]
}

/// Membership of the digit sequence `a` in a level-1 content: the leaf word
/// of the digit at level 1, read at the bit given by the digit at level 0.
pub open spec fn spec_bits_contains(index: KeyIndex, words: Seq<u64>, a: Seq<u8>) -> bool {
    let k = a[index.level as int] as int;
    if index.runs.spec_get(k) {
        true
    } else if index.nodes.spec_get(k) {
        let off = index.nodes.spec_rank(k as nat);
        &&& 0 <= off < words.len()
        &&& spec_bit64(words[off], a[0] as u64)
    } else {
        false
    }
}

/// Membership of the digit sequence `a` in an upper-level content: a run
/// digit contains everything below it, a materialized digit delegates to the
/// child at its rank.
pub open spec fn spec_nodes_contains(index: KeyIndex, children: Seq<Node>, a: Seq<u8>) -> bool
    decreases children,
{
    let k = a[index.level as int] as int;
    if index.runs.spec_get(k) {
        true
    } else if index.nodes.spec_get(k) {
        let off = index.nodes.spec_rank(k as nat);
        &&& 0 <= off < children.len()
        &&& children[off].spec_contains(a)
    } else {
        false
    }
}

impl Node {
    /// A node whose index holds no digit at all, neither materialized nor
    /// run.
    pub open spec fn spec_index_empty(self) -> bool {
        &&& forall|k: int| !(#[trigger] self.index.nodes.spec_get(k))
        &&& forall|k: int| !(#[trigger] self.index.runs.spec_get(k))
    }

    /// A node whose index is entirely runs: every digit's sub-range is
    /// saturated.
    pub open spec fn spec_all_runs(self) -> bool {
        forall|k: int| 0 <= k < 256 ==> #[trigger] self.index.runs.spec_get(k)
    }

    /// Structural well-formedness: the index is sound, the content sequence
    /// is exactly as long as the count of materialized digits, leaf words sit
    /// at level 1, and children sit one level below their parent.  Content is
    /// kept in compressed canonical form: a materialized leaf word is never
    /// zero and never saturated, and a materialized child is never entirely
    /// runs — saturation always collapses into a run marker.
    pub open spec fn wf(self) -> bool
        decreases self,
    {
        &&& self.index.wf()
        &&& match self.content {
            Content::Bits(v) => {
                &&& self.index.level == 1
                &&& v@.len() == self.index.nodes.spec_count()
                &&& forall|i: int|
                    0 <= i < v@.len() ==> (#[trigger] v@[i]) != 0 && v@[i] != u64::MAX
            },
            Content::Nodes(v) => {
                &&& self.index.level >= 2
                &&& v@.len() == self.index.nodes.spec_count()
                &&& forall|i: int|
                    0 <= i < v@.len() ==> (#[trigger] v@[i]).wf() && v@[i].index.level
                        == self.index.level - 1 && !v@[i].spec_all_runs()
            },
        }
    }

    /// A node that contains a digit sequence has a non-empty index.
    pub proof fn lemma_contains_nonempty(self, a: Seq<u8>)
        requires
            self.spec_contains(a),
        ensures
            !self.spec_index_empty(),
    {
        let k = a[self.index.level as int] as int;
        assert(self.index.runs.spec_get(k) || self.index.nodes.spec_get(k));
    }

    /// A node whose index is entirely runs contains every digit sequence.
    pub proof fn lemma_all_runs_contains(self, a: Seq<u8>)
        requires
            self.spec_all_runs(),
        ensures
            self.spec_contains(a),
    {
        let k = a[self.index.level as int] as int;
        assert(self.index.runs.spec_get(k));
    }

    /// Membership of the digit sequence `a` in the sub-tree of this node.
    pub open spec fn spec_contains(self, a: Seq<u8>) -> bool
        decreases self,
    {
        match self.content {
            Content::Bits(v) => spec_bits_contains(self.index, v@, a),
            Content::Nodes(v) => spec_nodes_contains(self.index, v@, a),
        }
    }

    /// Constructor: an empty node at `level`.
    pub fn new(level: u8) -> (r: Node)
        requires
            1 <= level <= 8,
        ensures
            r.wf(),
            r.index.level == level,
            forall|k: int| !(#[trigger] r.index.nodes.spec_get(k)),
            forall|k: int| !(#[trigger] r.index.runs.spec_get(k)),
            forall|a: Seq<u8>| !(#[trigger] r.spec_contains(a)),
    {
        // Level 1 contains a list of 64-bit (2^6) chunks (which are level 0).
        // Levels 2+ contain up to 256 (2^8) child nodes.
        let index = KeyIndex::new(level);
        let content = if level == 1 {
            Content::Bits(Vec::new())
        } else {
            Content::Nodes(Vec::new())
        };
        let r = Node { index, content };
        proof {
            r.index.nodes.lemma_rank_bound(256);
            assert(r.index.nodes.spec_count() == 0) by {
                r.index.nodes.lemma_rank_unset_range(0, 256);
            }
        }
        r
    }

    /// Return our level.
    pub fn level(&self) -> (r: u8)
        ensures
            r == self.index.level,
    {
        self.index.level
    }

    /// Return the state of the bit for this address.
    pub fn get(&self, addr: &Addr) -> (r: bool)
        requires
            self.wf(),
            addr.wf(),
        ensures
            r == self.spec_contains(addr.key@),
        decreases self.index.level,
    {
        let ghost k = self.index.spec_key_of(*addr);
        match self.index.search(addr) {
            KeyState::Run(_key) => true,
            KeyState::Node(_key, offset) => {
                proof {
                    self.index.nodes.lemma_rank_strict(k as nat, 256);
                }
                match &self.content {
                    Content::Bits(v) => {
                        let key0 = addr.key(0);
                        proof {
                            lemma_bit64_test();
                        }
                        (v[offset] & (1u64 << key0)) > 0
                    },
                    Content::Nodes(v) => v[offset].get(addr),
                }
            },
            KeyState::Missing(_key, _offset) => false,
        }
    }

    /// Set the bit corresponding to this address.
    pub fn set(&mut self, addr: &Addr)
        requires
            old(self).wf(),
            addr.wf(),
        ensures
            final(self).wf(),
            final(self).index.level == old(self).index.level,
            forall|a: Seq<u8>|
                spec_keys_wf(a) ==> #[trigger] final(self).spec_contains(a) == (old(
                    self,
                ).spec_contains(a) || spec_prefix_eq(a, addr.key@, old(self).index.level as int)),
        decreases old(self).index.level as int, 1int,
    {
        let mut content = Content::Bits(Vec::new());
        core::mem::swap(&mut content, &mut self.content);
        match content {
            Content::Bits(mut vec) => {
                let ghost ov = vec@;
                Self::set_bits(&mut self.index, &mut vec, addr);
                let ghost nv = vec@;
                self.content = Content::Bits(vec);
                proof {
                    assert forall|a: Seq<u8>| spec_keys_wf(a) implies #[trigger] self.spec_contains(
                        a,
                    ) == (old(self).spec_contains(a) || spec_prefix_eq(
                        a,
                        addr.key@,
                        old(self).index.level as int,
                    )) by {
                        assert(spec_bits_contains(self.index, nv, a) == (spec_bits_contains(
                            old(self).index,
                            ov,
                            a,
                        ) || spec_prefix_eq(a, addr.key@, 1)));
                        assert(self.spec_contains(a) == spec_bits_contains(self.index, nv, a));
                        assert(old(self).spec_contains(a) == spec_bits_contains(
                            old(self).index,
                            ov,
                            a,
                        ));
                    }
                }
            },
            Content::Nodes(mut vec) => {
                let ghost ov = vec@;
                Self::set_nodes(&mut self.index, &mut vec, addr);
                let ghost nv = vec@;
                self.content = Content::Nodes(vec);
                proof {
                    assert forall|a: Seq<u8>| spec_keys_wf(a) implies #[trigger] self.spec_contains(
                        a,
                    ) == (old(self).spec_contains(a) || spec_prefix_eq(
                        a,
                        addr.key@,
                        old(self).index.level as int,
                    )) by {
                        assert(spec_nodes_contains(self.index, nv, a) == (spec_nodes_contains(
                            old(self).index,
                            ov,
                            a,
                        ) || spec_prefix_eq(a, addr.key@, old(self).index.level as int)));
                        assert(self.spec_contains(a) == spec_nodes_contains(self.index, nv, a));
                        assert(old(self).spec_contains(a) == spec_nodes_contains(
                            old(self).index,
                            ov,
                            a,
                        ));
                    }
                }
            },
        }
    }

    /// Clear the bit corresponding to this address.
    pub fn clear(&mut self, addr: &Addr)
        requires
            old(self).wf(),
            addr.wf(),
        ensures
            final(self).wf(),
            final(self).index.level == old(self).index.level,
            forall|a: Seq<u8>|
                spec_keys_wf(a) ==> #[trigger] final(self).spec_contains(a) == (old(
                    self,
                ).spec_contains(a) && !spec_prefix_eq(a, addr.key@, old(self).index.level as int)),
            ({
                let kd = addr.key@[old(self).index.level as int] as int;
                final(self).index.nodes.spec_get(kd) ==> match final(self).content {
                    Content::Nodes(v) => !v@[final(self).index.nodes.spec_rank(
                        kd as nat,
                    )].spec_index_empty(),
                    Content::Bits(_) => true,
                }
            }),
        decreases old(self).index.level as int, 1int,
    {
        let mut content = Content::Bits(Vec::new());
        core::mem::swap(&mut content, &mut self.content);
        match content {
            Content::Bits(mut vec) => {
                let ghost ov = vec@;
                Self::clear_bits(&mut self.index, &mut vec, addr);
                let ghost nv = vec@;
                self.content = Content::Bits(vec);
                proof {
                    assert forall|a: Seq<u8>| spec_keys_wf(a) implies #[trigger] self.spec_contains(
                        a,
                    ) == (old(self).spec_contains(a) && !spec_prefix_eq(
                        a,
                        addr.key@,
                        old(self).index.level as int,
                    )) by {
                        assert(spec_bits_contains(self.index, nv, a) == (spec_bits_contains(
                            old(self).index,
                            ov,
                            a,
                        ) && !spec_prefix_eq(a, addr.key@, 1)));
                        assert(self.spec_contains(a) == spec_bits_contains(self.index, nv, a));
                        assert(old(self).spec_contains(a) == spec_bits_contains(
                            old(self).index,
                            ov,
                            a,
                        ));
                    }
                }
            },
            Content::Nodes(mut vec) => {
                let ghost ov = vec@;
                Self::clear_nodes(&mut self.index, &mut vec, addr);
                let ghost nv = vec@;
                self.content = Content::Nodes(vec);
                proof {
                    assert forall|a: Seq<u8>| spec_keys_wf(a) implies #[trigger] self.spec_contains(
                        a,
                    ) == (old(self).spec_contains(a) && !spec_prefix_eq(
                        a,
                        addr.key@,
                        old(self).index.level as int,
                    )) by {
                        assert(spec_nodes_contains(self.index, nv, a) == (spec_nodes_contains(
                            old(self).index,
                            ov,
                            a,
                        ) && !spec_prefix_eq(a, addr.key@, old(self).index.level as int)));
                        assert(self.spec_contains(a) == spec_nodes_contains(self.index, nv, a));
                        assert(old(self).spec_contains(a) == spec_nodes_contains(
                            old(self).index,
                            ov,
                            a,
                        ));
                    }
                }
            },
        }
    }

    /// Adopt the given node as the child for digit 0.  Used only by root
    /// growth, on a freshly created taller node.  Digit 0 becomes
    /// materialized, or a run marker when the adopted node is already fully
    /// saturated; no other digit appears.
    pub fn add_node(&mut self, node: Node)
        requires
            old(self).wf(),
            node.wf(),
            old(self).index.level >= 2,
            node.index.level == old(self).index.level - 1,
            forall|k: int| !(#[trigger] old(self).index.nodes.spec_get(k)),
            forall|k: int| !(#[trigger] old(self).index.runs.spec_get(k)),
        ensures
            final(self).wf(),
            final(self).index.level == old(self).index.level,
            forall|a: Seq<u8>|
                spec_keys_wf(a) ==> #[trigger] final(self).spec_contains(a) == (a[old(
                    self,
                ).index.level as int] == 0 && node.spec_contains(a)),
            final(self).index.nodes.spec_get(0) == !node.spec_all_runs(),
            final(self).index.runs.spec_get(0) == node.spec_all_runs(),
            forall|k: int|
                k != 0 ==> !(#[trigger] final(self).index.nodes.spec_get(k)) && !(
                #[trigger] final(self).index.runs.spec_get(k)),
    {
        let ghost lvl = old(self).index.level as int;
        let mut content = Content::Bits(Vec::new());
        core::mem::swap(&mut content, &mut self.content);
        match content {
            Content::Nodes(mut vec) => {
                proof {
                    old(self).index.nodes.lemma_rank_unset_range(0, 256);
                }
                if node.index.is_all_runs() {
                    // The adopted node is fully saturated: keep it as a run
                    // marker instead of materialized content.
                    let zero = Addr::new(0);
                    self.index.run(&zero);
                    let ghost nv = vec@;
                    self.content = Content::Nodes(vec);
                    proof {
                        old(self).index.nodes.lemma_rank_same(self.index.nodes, 256);
                        assert forall|a: Seq<u8>| spec_keys_wf(a) implies #[trigger] self.spec_contains(
                            a,
                        ) == (a[lvl] == 0 && node.spec_contains(a)) by {
                            assert(self.spec_contains(a) == spec_nodes_contains(
                                self.index,
                                nv,
                                a,
                            ));
                            let ka = a[lvl] as int;
                            if ka == 0 {
                                assert(self.index.runs.spec_get(0));
                                node.lemma_all_runs_contains(a);
                            } else {
                                assert(!self.index.nodes.spec_get(ka));
                                assert(!self.index.runs.spec_get(ka));
                            }
                        }
                    }
                } else {
                    vec.push(node);
                    self.index.set_node_bit(0);
                    let ghost nv = vec@;
                    self.content = Content::Nodes(vec);
                    proof {
                        old(self).index.nodes.lemma_rank_diff_one(self.index.nodes, 0, 256);
                        assert forall|a: Seq<u8>| spec_keys_wf(a) implies #[trigger] self.spec_contains(
                            a,
                        ) == (a[lvl] == 0 && node.spec_contains(a)) by {
                            assert(self.spec_contains(a) == spec_nodes_contains(
                                self.index,
                                nv,
                                a,
                            ));
                            let ka = a[lvl] as int;
                            if ka == 0 {
                                assert(self.index.nodes.spec_get(0));
                                assert(self.index.nodes.spec_rank(0) == 0);
                                assert(nv[0] == node);
                            } else {
                                assert(!self.index.nodes.spec_get(ka));
                                assert(!self.index.runs.spec_get(ka));
                            }
                        }
                    }
                }
            },
            Content::Bits(vec) => {
                // A leaf node cannot adopt a child; the precondition keeps
                // callers above level 1, so this arm is unreachable.
                self.content = Content::Bits(vec);
                proof {
                    assert(false);
                }
            },
        }
    }

    /// Deep copy: an independent node with the same index and the same
    /// contents.
    pub fn clone(&self) -> (r: Node)
        requires
            self.wf(),
        ensures
            r.wf(),
            r.index == self.index,
            forall|a: Seq<u8>| #[trigger] r.spec_contains(a) == self.spec_contains(a),
        decreases self.index.level,
    {
        let index = self.index;
        match &self.content {
            Content::Bits(v) => {
                let mut w: Vec<u64> = Vec::new();
                let mut i: usize = 0;
                while i < v.len()
                    invariant
                        i <= v@.len(),
                        w@.len() == i as int,
                        forall|j: int| 0 <= j < i as int ==> w@[j] == v@[j],
                    decreases v@.len() - i,
                {
                    w.push(v[i]);
                    i = i + 1;
                }
                proof {
                    assert(w@ =~= v@);
                }
                Node { index, content: Content::Bits(w) }
            },
            Content::Nodes(v) => {
                let mut c: Vec<Node> = Vec::new();
                let mut i: usize = 0;
                while i < v.len()
                    invariant
                        self.wf(),
                        self.content == Content::Nodes(*v),
                        i <= v@.len(),
                        c@.len() == i as int,
                        forall|j: int|
                            0 <= j < i as int ==> (#[trigger] c@[j]).wf() && c@[j].index
                                == v@[j].index,
                        forall|j: int, a: Seq<u8>|
                            0 <= j < i as int ==> #[trigger] c@[j].spec_contains(a)
                                == v@[j].spec_contains(a),
                    decreases v@.len() - i,
                {
                    let child = v[i].clone();
                    c.push(child);
                    i = i + 1;
                }
                let r = Node { index, content: Content::Nodes(c) };
                proof {
                    assert forall|a: Seq<u8>| #[trigger] r.spec_contains(a) == self.spec_contains(
                        a,
                    ) by {
                        let ka = a[index.level as int] as int;
                        if index.nodes.spec_get(ka) {
                            let off = index.nodes.spec_rank(ka as nat);
                            index.nodes.lemma_rank_bound(ka as nat);
                            index.nodes.lemma_rank_strict(ka as nat, 256);
                            assert(c@[off].spec_contains(a) == v@[off].spec_contains(a));
                        }
                    }
                }
                r
            },
        }
    }

    /// Canonical-form facts about one-bit updates of a 64-bit word: setting
    /// a bit never yields zero, clearing one never yields all-ones, a
    /// single-bit word is neither, and all-ones minus one bit is not zero.
    proof fn lemma_word_canonical_facts(w: u64, i: u8)
        requires
            i < 64,
        ensures
            (w | (1u64 << i)) != 0,
            (w & !(1u64 << i)) != u64::MAX,
            (1u64 << i) != 0,
            (1u64 << i) != u64::MAX,
            (u64::MAX & !(1u64 << i)) != 0,
    {
        assert((w | (1u64 << i)) != 0 && (w & !(1u64 << i)) != u64::MAX && (1u64 << i) != 0 && (
        1u64 << i) != u64::MAX && (u64::MAX & !(1u64 << i)) != 0) by (bit_vector)
            requires
                i < 64,
        ;
    }

    /// Set a bit for a 'Bits' type content.
    fn set_bits(index: &mut KeyIndex, vec: &mut Vec<u64>, addr: &Addr)
        requires
            old(index).wf(),
            old(index).level == 1,
            addr.wf(),
            old(vec)@.len() == old(index).nodes.spec_count(),
            forall|i: int|
                0 <= i < old(vec)@.len() ==> (#[trigger] old(vec)@[i]) != 0 && old(vec)@[i]
                    != u64::MAX,
        ensures
            final(index).wf(),
            final(index).level == 1,
            final(vec)@.len() == final(index).nodes.spec_count(),
            forall|i: int|
                0 <= i < final(vec)@.len() ==> (#[trigger] final(vec)@[i]) != 0 && final(vec)@[i]
                    != u64::MAX,
            forall|a: Seq<u8>|
                spec_keys_wf(a) ==> #[trigger] spec_bits_contains(*final(index), final(vec)@, a)
                    == (spec_bits_contains(*old(index), old(vec)@, a) || spec_prefix_eq(
                    a,
                    addr.key@,
                    1,
                )),
    {
        let ghost k = old(index).spec_key_of(*addr);
        let key0 = addr.key(0);
        proof {
            lemma_bit64_or_one();
            lemma_bit64_const();
        }
        match index.search(addr) {
            KeyState::Run(_key) => {
                proof {
                    assert forall|a: Seq<u8>| spec_keys_wf(a) implies #[trigger] spec_bits_contains(
                        *final(index),
                        final(vec)@,
                        a,
                    ) == (spec_bits_contains(*old(index), old(vec)@, a) || spec_prefix_eq(
                        a,
                        addr.key@,
                        1,
                    )) by {
                        if spec_prefix_eq(a, addr.key@, 1) {
                            assert(a[1] == addr.key@[1]);
                        }
                    }
                }
            },
            KeyState::Node(_key, offset) => {
                proof {
                    old(index).nodes.lemma_rank_strict(k as nat, 256);
                }
                let newbits = vec[offset] | (1u64 << key0);
                if newbits == u64::MAX {
                    // Run detected - remove the word and update the index.
                    vec.remove(offset);
                    index.run(addr);
                    proof {
                        old(index).nodes.lemma_rank_diff_one(index.nodes, k, 256);
                        assert forall|i: int|
                            0 <= i < final(vec)@.len() implies (#[trigger] final(vec)@[i]) != 0
                            && final(vec)@[i] != u64::MAX by {
                            if i < offset {
                                assert(final(vec)@[i] == old(vec)@[i]);
                            } else {
                                assert(final(vec)@[i] == old(vec)@[i + 1]);
                            }
                        }
                        assert forall|a: Seq<u8>| spec_keys_wf(a) implies #[trigger] spec_bits_contains(
                            *final(index),
                            final(vec)@,
                            a,
                        ) == (spec_bits_contains(*old(index), old(vec)@, a) || spec_prefix_eq(
                            a,
                            addr.key@,
                            1,
                        )) by {
                            let ka = a[1] as int;
                            if ka == k {
                                assert(spec_bit64(newbits, a[0] as u64));
                                if a[0] != addr.key@[0] {
                                    assert(spec_bit64(old(vec)@[offset as int], a[0] as u64));
                                } else {
                                    assert(spec_prefix_eq(a, addr.key@, 1));
                                }
                            } else {
                                old(index).nodes.lemma_rank_diff_one(index.nodes, k, ka as nat);
                                if old(index).nodes.spec_get(ka) {
                                    if ka < k {
                                        old(index).nodes.lemma_rank_strict(ka as nat, k as nat);
                                    } else {
                                        old(index).nodes.lemma_rank_strict(k as nat, ka as nat);
                                        old(index).nodes.lemma_rank_strict(ka as nat, 256);
                                    }
                                }
                                assert(!spec_prefix_eq(a, addr.key@, 1)) by {
                                    assert(a[1] != addr.key@[1]);
                                }
                            }
                        }
                    }
                } else {
                    // Just save the bits.
                    vec[offset] = newbits;
                    proof {
                        Self::lemma_word_canonical_facts(old(vec)@[offset as int], key0);
                        assert forall|i: int|
                            0 <= i < final(vec)@.len() implies (#[trigger] final(vec)@[i]) != 0
                            && final(vec)@[i] != u64::MAX by {
                            if i != offset {
                                assert(final(vec)@[i] == old(vec)@[i]);
                            }
                        }
                        assert forall|a: Seq<u8>| spec_keys_wf(a) implies #[trigger] spec_bits_contains(
                            *final(index),
                            final(vec)@,
                            a,
                        ) == (spec_bits_contains(*old(index), old(vec)@, a) || spec_prefix_eq(
                            a,
                            addr.key@,
                            1,
                        )) by {
                            let ka = a[1] as int;
                            if ka == k {
                                if a[0] == addr.key@[0] {
                                    assert(spec_prefix_eq(a, addr.key@, 1));
                                }
                            } else {
                                if old(index).nodes.spec_get(ka) {
                                    if ka < k {
                                        old(index).nodes.lemma_rank_strict(ka as nat, k as nat);
                                    } else {
                                        old(index).nodes.lemma_rank_strict(k as nat, ka as nat);
                                        old(index).nodes.lemma_rank_strict(ka as nat, 256);
                                    }
                                }
                                assert(!spec_prefix_eq(a, addr.key@, 1)) by {
                                    assert(a[1] != addr.key@[1]);
                                }
                            }
                        }
                    }
                }
            },
            KeyState::Missing(_key, offset) => {
                // Just set - no run possible.
                proof {
                    old(index).nodes.lemma_rank_mono(k as nat, 256);
                }
                vec.insert(offset, 1u64 << key0);
                index.set(addr);
                proof {
                    old(index).nodes.lemma_rank_diff_one(index.nodes, k, 256);
                    Self::lemma_word_canonical_facts(0, key0);
                    assert forall|i: int|
                        0 <= i < final(vec)@.len() implies (#[trigger] final(vec)@[i]) != 0
                        && final(vec)@[i] != u64::MAX by {
                        if i < offset {
                            assert(final(vec)@[i] == old(vec)@[i]);
                        } else if i > offset {
                            assert(final(vec)@[i] == old(vec)@[i - 1]);
                        }
                    }
                    assert forall|a: Seq<u8>| spec_keys_wf(a) implies #[trigger] spec_bits_contains(
                        *final(index),
                        final(vec)@,
                        a,
                    ) == (spec_bits_contains(*old(index), old(vec)@, a) || spec_prefix_eq(
                        a,
                        addr.key@,
                        1,
                    )) by {
                        let ka = a[1] as int;
                        old(index).nodes.lemma_rank_diff_one(index.nodes, k, ka as nat);
                        if ka == k {
                            assert(index.nodes.spec_rank(k as nat) == offset);
                            assert(final(vec)@[offset as int] == 1u64 << key0);
                            assert(spec_bit64(1u64 << key0, a[0] as u64) == (a[0] == key0)) by {
                                assert(1u64 << key0 == 0u64 | (1u64 << key0)) by (bit_vector);
                            }
                            if a[0] == addr.key@[0] {
                                assert(spec_prefix_eq(a, addr.key@, 1));
                            }
                        } else {
                            if old(index).nodes.spec_get(ka) {
                                if ka < k {
                                    old(index).nodes.lemma_rank_strict(ka as nat, k as nat);
                                } else {
                                    old(index).nodes.lemma_rank_mono(k as nat, ka as nat);
                                    old(index).nodes.lemma_rank_strict(ka as nat, 256);
                                }
                            }
                            assert(!spec_prefix_eq(a, addr.key@, 1)) by {
                                assert(a[1] != addr.key@[1]);
                            }
                        }
                    }
                }
            },
        }
    }

    /// Set a bit for a 'Nodes' type content.
    fn set_nodes(index: &mut KeyIndex, vec: &mut Vec<Node>, addr: &Addr)
        requires
            old(index).wf(),
            old(index).level >= 2,
            addr.wf(),
            old(vec)@.len() == old(index).nodes.spec_count(),
            forall|i: int|
                0 <= i < old(vec)@.len() ==> (#[trigger] old(vec)@[i]).wf()
                    && old(vec)@[i].index.level == old(index).level - 1
                    && !old(vec)@[i].spec_all_runs(),
        ensures
            final(index).wf(),
            final(index).level == old(index).level,
            final(vec)@.len() == final(index).nodes.spec_count(),
            forall|i: int|
                0 <= i < final(vec)@.len() ==> (#[trigger] final(vec)@[i]).wf()
                    && final(vec)@[i].index.level == final(index).level - 1
                    && !final(vec)@[i].spec_all_runs(),
            forall|a: Seq<u8>|
                spec_keys_wf(a) ==> #[trigger] spec_nodes_contains(*final(index), final(vec)@, a)
                    == (spec_nodes_contains(*old(index), old(vec)@, a) || spec_prefix_eq(
                    a,
                    addr.key@,
                    old(index).level as int,
                )),
        decreases old(index).level as int, 0int,
    {
        let ghost k = old(index).spec_key_of(*addr);
        let ghost lvl = old(index).level as int;
        match index.search(addr) {
            KeyState::Run(_key) => {
                // No-op to set on a run.
                proof {
                    assert forall|a: Seq<u8>| spec_keys_wf(a) implies #[trigger] spec_nodes_contains(
                        *final(index),
                        final(vec)@,
                        a,
                    ) == (spec_nodes_contains(*old(index), old(vec)@, a) || spec_prefix_eq(
                        a,
                        addr.key@,
                        lvl,
                    )) by {
                        if spec_prefix_eq(a, addr.key@, lvl) {
                            assert(a[lvl] == addr.key@[lvl]);
                        }
                    }
                }
            },
            KeyState::Node(_key, offset) => {
                proof {
                    old(index).nodes.lemma_rank_strict(k as nat, 256);
                }
                // Tell the child node to set the bit.
                let mut child = vec.remove(offset);
                let ghost old_child = child;
                child.set(addr);
                if child.index.is_all_runs() {
                    // Run detected - drop the child and update the index.
                    index.run(addr);
                    proof {
                        old(index).nodes.lemma_rank_diff_one(index.nodes, k, 256);
                        assert forall|i: int|
                            0 <= i < final(vec)@.len() implies (#[trigger] final(vec)@[i]).wf()
                            && final(vec)@[i].index.level == final(index).level - 1
                            && !final(vec)@[i].spec_all_runs() by {
                            if i < offset {
                                assert(final(vec)@[i] == old(vec)@[i]);
                            } else {
                                assert(final(vec)@[i] == old(vec)@[i + 1]);
                            }
                        }
                        assert forall|a: Seq<u8>| spec_keys_wf(a) implies #[trigger] spec_nodes_contains(
                            *final(index),
                            final(vec)@,
                            a,
                        ) == (spec_nodes_contains(*old(index), old(vec)@, a) || spec_prefix_eq(
                            a,
                            addr.key@,
                            lvl,
                        )) by {
                            let ka = a[lvl] as int;
                            if ka == k {
                                assert(child.spec_contains(a));
                                assert(old_child.spec_contains(a) || spec_prefix_eq(
                                    a,
                                    addr.key@,
                                    lvl - 1,
                                ));
                                if spec_prefix_eq(a, addr.key@, lvl - 1) {
                                    assert(spec_prefix_eq(a, addr.key@, lvl));
                                }
                            } else {
                                old(index).nodes.lemma_rank_diff_one(index.nodes, k, ka as nat);
                                if old(index).nodes.spec_get(ka) {
                                    if ka < k {
                                        old(index).nodes.lemma_rank_strict(ka as nat, k as nat);
                                    } else {
                                        old(index).nodes.lemma_rank_strict(k as nat, ka as nat);
                                        old(index).nodes.lemma_rank_strict(ka as nat, 256);
                                    }
                                }
                                assert(!spec_prefix_eq(a, addr.key@, lvl)) by {
                                    assert(a[lvl] != addr.key@[lvl]);
                                }
                            }
                        }
                    }
                } else {
                    vec.insert(offset, child);
                    proof {
                        assert(final(vec)@ =~= old(vec)@.update(offset as int, child));
                        assert(!child.spec_all_runs());
                        assert forall|i: int|
                            0 <= i < final(vec)@.len() implies (#[trigger] final(vec)@[i]).wf()
                            && final(vec)@[i].index.level == final(index).level - 1
                            && !final(vec)@[i].spec_all_runs() by {
                            if i != offset {
                                assert(final(vec)@[i] == old(vec)@[i]);
                            }
                        }
                        assert forall|a: Seq<u8>| spec_keys_wf(a) implies #[trigger] spec_nodes_contains(
                            *final(index),
                            final(vec)@,
                            a,
                        ) == (spec_nodes_contains(*old(index), old(vec)@, a) || spec_prefix_eq(
                            a,
                            addr.key@,
                            lvl,
                        )) by {
                            let ka = a[lvl] as int;
                            if ka == k {
                                assert(final(vec)@[offset as int] == child);
                                assert(old(vec)@[offset as int] == old_child);
                                assert(old_child.index.level == lvl - 1);
                                assert(child.spec_contains(a) == (old_child.spec_contains(a)
                                    || spec_prefix_eq(a, addr.key@, lvl - 1)));
                                if spec_prefix_eq(a, addr.key@, lvl - 1) && a[lvl]
                                    == addr.key@[lvl] {
                                    assert(spec_prefix_eq(a, addr.key@, lvl));
                                }
                                if spec_prefix_eq(a, addr.key@, lvl) {
                                    assert(spec_prefix_eq(a, addr.key@, lvl - 1));
                                }
                            } else {
                                if old(index).nodes.spec_get(ka) {
                                    if ka < k {
                                        old(index).nodes.lemma_rank_strict(ka as nat, k as nat);
                                    } else {
                                        old(index).nodes.lemma_rank_strict(k as nat, ka as nat);
                                        old(index).nodes.lemma_rank_strict(ka as nat, 256);
                                    }
                                }
                                assert(!spec_prefix_eq(a, addr.key@, lvl)) by {
                                    assert(a[lvl] != addr.key@[lvl]);
                                }
                            }
                        }
                    }
                }
            },
            KeyState::Missing(_key, offset) => {
                // Create the new child node.
                proof {
                    old(index).nodes.lemma_rank_mono(k as nat, 256);
                }
                let lower = index.level - 1;
                let mut node = Node::new(lower);
                node.set(addr);
                vec.insert(offset, node);
                index.set(addr);
                proof {
                    old(index).nodes.lemma_rank_diff_one(index.nodes, k, 256);
                    // A node holding a single fresh bit cannot be all runs:
                    // flipping the leaf digit gives a sequence it lacks.
                    let other: Seq<u8> = addr.key@.update(
                        0,
                        if addr.key@[0] == 0 {
                            1u8
                        } else {
                            0u8
                        },
                    );
                    assert(spec_keys_wf(other));
                    assert(!spec_prefix_eq(other, addr.key@, lvl - 1)) by {
                        assert(other[0] != addr.key@[0]);
                    }
                    assert(!node.spec_contains(other));
                    if node.spec_all_runs() {
                        node.lemma_all_runs_contains(other);
                    }
                    assert forall|i: int|
                        0 <= i < final(vec)@.len() implies (#[trigger] final(vec)@[i]).wf()
                        && final(vec)@[i].index.level == final(index).level - 1
                        && !final(vec)@[i].spec_all_runs() by {
                        if i < offset {
                            assert(final(vec)@[i] == old(vec)@[i]);
                        } else if i > offset {
                            assert(final(vec)@[i] == old(vec)@[i - 1]);
                        } else {
                            assert(final(vec)@[i] == node);
                        }
                    }
                    assert forall|a: Seq<u8>| spec_keys_wf(a) implies #[trigger] spec_nodes_contains(
                        *final(index),
                        final(vec)@,
                        a,
                    ) == (spec_nodes_contains(*old(index), old(vec)@, a) || spec_prefix_eq(
                        a,
                        addr.key@,
                        lvl,
                    )) by {
                        let ka = a[lvl] as int;
                        old(index).nodes.lemma_rank_diff_one(index.nodes, k, ka as nat);
                        if ka == k {
                            assert(index.nodes.spec_rank(k as nat) == offset);
                            assert(final(vec)@[offset as int] == node);
                            assert(node.spec_contains(a) == spec_prefix_eq(a, addr.key@, lvl - 1));
                            if spec_prefix_eq(a, addr.key@, lvl - 1) {
                                assert(spec_prefix_eq(a, addr.key@, lvl));
                            }
                            if spec_prefix_eq(a, addr.key@, lvl) {
                                assert(spec_prefix_eq(a, addr.key@, lvl - 1));
                            }
                        } else {
                            if old(index).nodes.spec_get(ka) {
                                if ka < k {
                                    old(index).nodes.lemma_rank_strict(ka as nat, k as nat);
                                } else {
                                    old(index).nodes.lemma_rank_mono(k as nat, ka as nat);
                                    old(index).nodes.lemma_rank_strict(ka as nat, 256);
                                }
                            }
                            assert(!spec_prefix_eq(a, addr.key@, lvl)) by {
                                assert(a[lvl] != addr.key@[lvl]);
                            }
                        }
                    }
                }
            },
        }
    }

    /// Clear a bit for a 'Bits' type content.
    fn clear_bits(index: &mut KeyIndex, vec: &mut Vec<u64>, addr: &Addr)
        requires
            old(index).wf(),
            old(index).level == 1,
            addr.wf(),
            old(vec)@.len() == old(index).nodes.spec_count(),
            forall|i: int|
                0 <= i < old(vec)@.len() ==> (#[trigger] old(vec)@[i]) != 0 && old(vec)@[i]
                    != u64::MAX,
        ensures
            final(index).wf(),
            final(index).level == 1,
            final(vec)@.len() == final(index).nodes.spec_count(),
            forall|i: int|
                0 <= i < final(vec)@.len() ==> (#[trigger] final(vec)@[i]) != 0 && final(vec)@[i]
                    != u64::MAX,
            forall|a: Seq<u8>|
                spec_keys_wf(a) ==> #[trigger] spec_bits_contains(*final(index), final(vec)@, a)
                    == (spec_bits_contains(*old(index), old(vec)@, a) && !spec_prefix_eq(
                    a,
                    addr.key@,
                    1,
                )),
    {
        let ghost k = old(index).spec_key_of(*addr);
        let key0 = addr.key(0);
        proof {
            lemma_bit64_and_not_one();
            lemma_bit64_const();
        }
        match index.search(addr) {
            KeyState::Run(_key) => {
                // It's no longer a run: materialize a word with every bit but
                // the cleared one, at this digit's content offset.
                proof {
                    old(index).nodes.lemma_rank_mono(k as nat, 256);
                }
                let offset = index.offset(addr);
                let word = u64::MAX & !(1u64 << key0);
                vec.insert(offset, word);
                index.set(addr);
                proof {
                    old(index).nodes.lemma_rank_diff_one(index.nodes, k, 256);
                    Self::lemma_word_canonical_facts(u64::MAX, key0);
                    assert forall|i: int|
                        0 <= i < final(vec)@.len() implies (#[trigger] final(vec)@[i]) != 0
                        && final(vec)@[i] != u64::MAX by {
                        if i < offset {
                            assert(final(vec)@[i] == old(vec)@[i]);
                        } else if i > offset {
                            assert(final(vec)@[i] == old(vec)@[i - 1]);
                        }
                    }
                    assert forall|a: Seq<u8>| spec_keys_wf(a) implies #[trigger] spec_bits_contains(
                        *final(index),
                        final(vec)@,
                        a,
                    ) == (spec_bits_contains(*old(index), old(vec)@, a) && !spec_prefix_eq(
                        a,
                        addr.key@,
                        1,
                    )) by {
                        let ka = a[1] as int;
                        old(index).nodes.lemma_rank_diff_one(index.nodes, k, ka as nat);
                        if ka == k {
                            assert(index.nodes.spec_rank(k as nat) == offset);
                            assert(final(vec)@[offset as int] == word);
                            assert(spec_bit64(word, a[0] as u64) == (a[0] != key0));
                            if a[0] == addr.key@[0] {
                                assert(spec_prefix_eq(a, addr.key@, 1));
                            } else {
                                assert(!spec_prefix_eq(a, addr.key@, 1)) by {
                                    assert(a[0] != addr.key@[0]);
                                }
                            }
                        } else {
                            if old(index).nodes.spec_get(ka) {
                                if ka < k {
                                    old(index).nodes.lemma_rank_strict(ka as nat, k as nat);
                                } else {
                                    old(index).nodes.lemma_rank_mono(k as nat, ka as nat);
                                    old(index).nodes.lemma_rank_strict(ka as nat, 256);
                                }
                            }
                            assert(!spec_prefix_eq(a, addr.key@, 1)) by {
                                assert(a[1] != addr.key@[1]);
                            }
                        }
                    }
                }
            },
            KeyState::Node(_key, offset) => {
                proof {
                    old(index).nodes.lemma_rank_strict(k as nat, 256);
                }
                let newbits = vec[offset] & !(1u64 << key0);
                if newbits == 0 {
                    // The word is all 0's, so remove it.
                    vec.remove(offset);
                    index.clear(addr);
                    proof {
                        old(index).nodes.lemma_rank_diff_one(index.nodes, k, 256);
                        assert forall|i: int|
                            0 <= i < final(vec)@.len() implies (#[trigger] final(vec)@[i]) != 0
                            && final(vec)@[i] != u64::MAX by {
                            if i < offset {
                                assert(final(vec)@[i] == old(vec)@[i]);
                            } else {
                                assert(final(vec)@[i] == old(vec)@[i + 1]);
                            }
                        }
                        assert forall|a: Seq<u8>| spec_keys_wf(a) implies #[trigger] spec_bits_contains(
                            *final(index),
                            final(vec)@,
                            a,
                        ) == (spec_bits_contains(*old(index), old(vec)@, a) && !spec_prefix_eq(
                            a,
                            addr.key@,
                            1,
                        )) by {
                            let ka = a[1] as int;
                            if ka == k {
                                assert(!spec_bit64(newbits, a[0] as u64));
                                if a[0] != addr.key@[0] {
                                    assert(!spec_bit64(old(vec)@[offset as int], a[0] as u64));
                                } else {
                                    assert(spec_prefix_eq(a, addr.key@, 1));
                                }
                            } else {
                                old(index).nodes.lemma_rank_diff_one(index.nodes, k, ka as nat);
                                if old(index).nodes.spec_get(ka) {
                                    if ka < k {
                                        old(index).nodes.lemma_rank_strict(ka as nat, k as nat);
                                    } else {
                                        old(index).nodes.lemma_rank_strict(k as nat, ka as nat);
                                        old(index).nodes.lemma_rank_strict(ka as nat, 256);
                                    }
                                }
                                assert(!spec_prefix_eq(a, addr.key@, 1)) by {
                                    assert(a[1] != addr.key@[1]);
                                }
                            }
                        }
                    }
                } else {
                    // Just save the bits.
                    vec[offset] = newbits;
                    proof {
                        Self::lemma_word_canonical_facts(old(vec)@[offset as int], key0);
                        assert forall|i: int|
                            0 <= i < final(vec)@.len() implies (#[trigger] final(vec)@[i]) != 0
                            && final(vec)@[i] != u64::MAX by {
                            if i != offset {
                                assert(final(vec)@[i] == old(vec)@[i]);
                            }
                        }
                        assert forall|a: Seq<u8>| spec_keys_wf(a) implies #[trigger] spec_bits_contains(
                            *final(index),
                            final(vec)@,
                            a,
                        ) == (spec_bits_contains(*old(index), old(vec)@, a) && !spec_prefix_eq(
                            a,
                            addr.key@,
                            1,
                        )) by {
                            let ka = a[1] as int;
                            if ka == k {
                                if a[0] == addr.key@[0] {
                                    assert(spec_prefix_eq(a, addr.key@, 1));
                                } else {
                                    assert(!spec_prefix_eq(a, addr.key@, 1)) by {
                                        assert(a[0] != addr.key@[0]);
                                    }
                                }
                            } else {
                                if old(index).nodes.spec_get(ka) {
                                    if ka < k {
                                        old(index).nodes.lemma_rank_strict(ka as nat, k as nat);
                                    } else {
                                        old(index).nodes.lemma_rank_strict(k as nat, ka as nat);
                                        old(index).nodes.lemma_rank_strict(ka as nat, 256);
                                    }
                                }
                                assert(!spec_prefix_eq(a, addr.key@, 1)) by {
                                    assert(a[1] != addr.key@[1]);
                                }
                            }
                        }
                    }
                }
            },
            KeyState::Missing(_key, _offset) => {
                // No-op to clear all 0's.
                proof {
                    assert forall|a: Seq<u8>| spec_keys_wf(a) implies #[trigger] spec_bits_contains(
                        *final(index),
                        final(vec)@,
                        a,
                    ) == (spec_bits_contains(*old(index), old(vec)@, a) && !spec_prefix_eq(
                        a,
                        addr.key@,
                        1,
                    )) by {
                        if spec_prefix_eq(a, addr.key@, 1) {
                            assert(a[1] == addr.key@[1]);
                        }
                    }
                }
            },
        }
    }

    /// Clear a bit for a 'Nodes' type content.
    fn clear_nodes(index: &mut KeyIndex, vec: &mut Vec<Node>, addr: &Addr)
        requires
            old(index).wf(),
            old(index).level >= 2,
            addr.wf(),
            old(vec)@.len() == old(index).nodes.spec_count(),
            forall|i: int|
                0 <= i < old(vec)@.len() ==> (#[trigger] old(vec)@[i]).wf()
                    && old(vec)@[i].index.level == old(index).level - 1
                    && !old(vec)@[i].spec_all_runs(),
        ensures
            final(index).wf(),
            final(index).level == old(index).level,
            final(vec)@.len() == final(index).nodes.spec_count(),
            forall|i: int|
                0 <= i < final(vec)@.len() ==> (#[trigger] final(vec)@[i]).wf()
                    && final(vec)@[i].index.level == final(index).level - 1
                    && !final(vec)@[i].spec_all_runs(),
            forall|a: Seq<u8>|
                spec_keys_wf(a) ==> #[trigger] spec_nodes_contains(*final(index), final(vec)@, a)
                    == (spec_nodes_contains(*old(index), old(vec)@, a) && !spec_prefix_eq(
                    a,
                    addr.key@,
                    old(index).level as int,
                )),
            ({
                let kd = old(index).spec_key_of(*addr);
                final(index).nodes.spec_get(kd) ==> !final(vec)@[final(index).nodes.spec_rank(
                    kd as nat,
                )].spec_index_empty()
            }),
        decreases old(index).level as int, 0int,
    {
        let ghost k = old(index).spec_key_of(*addr);
        let ghost lvl = old(index).level as int;
        match index.search(addr) {
            KeyState::Run(_key) => {
                // Explode the run: a child whose index is fully saturated,
                // with the target bit cleared, takes the run's place.
                proof {
                    old(index).nodes.lemma_rank_mono(k as nat, 256);
                }
                let offset = index.offset(addr);
                let lower = index.level - 1;
                let mut node = Node::new(lower);
                node.index.set_all_runs();
                let ghost full_node = node;
                node.clear(addr);
                vec.insert(offset, node);
                index.set(addr);
                proof {
                    old(index).nodes.lemma_rank_diff_one(index.nodes, k, 256);
                    old(index).nodes.lemma_rank_diff_one(index.nodes, k, k as nat);
                    assert(full_node.wf());
                    // The exploded child misses the cleared prefix, so it is
                    // neither all runs nor empty.
                    assert(spec_keys_wf(addr.key@));
                    assert(!node.spec_contains(addr.key@)) by {
                        assert(spec_prefix_eq(addr.key@, addr.key@, lvl - 1));
                    }
                    if node.spec_all_runs() {
                        node.lemma_all_runs_contains(addr.key@);
                    }
                    let other: Seq<u8> = addr.key@.update(
                        0,
                        if addr.key@[0] == 0 {
                            1u8
                        } else {
                            0u8
                        },
                    );
                    assert(spec_keys_wf(other));
                    assert(!spec_prefix_eq(other, addr.key@, lvl - 1)) by {
                        assert(other[0] != addr.key@[0]);
                    }
                    full_node.lemma_all_runs_contains(other);
                    assert(node.spec_contains(other));
                    node.lemma_contains_nonempty(other);
                    assert(final(vec)@[offset as int] == node);
                    assert(final(index).nodes.spec_rank(k as nat) == offset);
                    assert forall|i: int|
                        0 <= i < final(vec)@.len() implies (#[trigger] final(vec)@[i]).wf()
                        && final(vec)@[i].index.level == final(index).level - 1
                        && !final(vec)@[i].spec_all_runs() by {
                        if i < offset {
                            assert(final(vec)@[i] == old(vec)@[i]);
                        } else if i > offset {
                            assert(final(vec)@[i] == old(vec)@[i - 1]);
                        } else {
                            assert(final(vec)@[i] == node);
                        }
                    }
                    assert forall|a: Seq<u8>| spec_keys_wf(a) implies #[trigger] spec_nodes_contains(
                        *final(index),
                        final(vec)@,
                        a,
                    ) == (spec_nodes_contains(*old(index), old(vec)@, a) && !spec_prefix_eq(
                        a,
                        addr.key@,
                        lvl,
                    )) by {
                        let ka = a[lvl] as int;
                        old(index).nodes.lemma_rank_diff_one(index.nodes, k, ka as nat);
                        if ka == k {
                            assert(index.nodes.spec_rank(k as nat) == offset);
                            assert(final(vec)@[offset as int] == node);
                            assert(full_node.spec_contains(a));
                            assert(node.spec_contains(a) == (full_node.spec_contains(a)
                                && !spec_prefix_eq(a, addr.key@, lvl - 1)));
                            if spec_prefix_eq(a, addr.key@, lvl - 1) {
                                assert(spec_prefix_eq(a, addr.key@, lvl));
                            }
                            if spec_prefix_eq(a, addr.key@, lvl) {
                                assert(spec_prefix_eq(a, addr.key@, lvl - 1));
                            }
                        } else {
                            if old(index).nodes.spec_get(ka) {
                                if ka < k {
                                    old(index).nodes.lemma_rank_strict(ka as nat, k as nat);
                                } else {
                                    old(index).nodes.lemma_rank_mono(k as nat, ka as nat);
                                    old(index).nodes.lemma_rank_strict(ka as nat, 256);
                                }
                            }
                            assert(!spec_prefix_eq(a, addr.key@, lvl)) by {
                                assert(a[lvl] != addr.key@[lvl]);
                            }
                        }
                    }
                }
            },
            KeyState::Node(_key, offset) => {
                proof {
                    old(index).nodes.lemma_rank_strict(k as nat, 256);
                }
                let mut child = vec.remove(offset);
                let ghost old_child = child;
                child.clear(addr);
                if child.index.is_nodes_empty() && child.index.is_runs_empty() {
                    // The child holds nothing any more: drop it.
                    index.clear(addr);
                    proof {
                        old(index).nodes.lemma_rank_diff_one(index.nodes, k, 256);
                        assert forall|i: int|
                            0 <= i < final(vec)@.len() implies (#[trigger] final(vec)@[i]).wf()
                            && final(vec)@[i].index.level == final(index).level - 1
                            && !final(vec)@[i].spec_all_runs() by {
                            if i < offset {
                                assert(final(vec)@[i] == old(vec)@[i]);
                            } else {
                                assert(final(vec)@[i] == old(vec)@[i + 1]);
                            }
                        }
                        assert forall|a: Seq<u8>| spec_keys_wf(a) implies #[trigger] spec_nodes_contains(
                            *final(index),
                            final(vec)@,
                            a,
                        ) == (spec_nodes_contains(*old(index), old(vec)@, a) && !spec_prefix_eq(
                            a,
                            addr.key@,
                            lvl,
                        )) by {
                            let ka = a[lvl] as int;
                            if ka == k {
                                assert(old(vec)@[offset as int] == old_child);
                                assert(old_child.index.level == lvl - 1);
                                assert(!child.spec_contains(a));
                                assert(child.spec_contains(a) == (old_child.spec_contains(a)
                                    && !spec_prefix_eq(a, addr.key@, lvl - 1)));
                                if old_child.spec_contains(a) {
                                    assert(spec_prefix_eq(a, addr.key@, lvl - 1));
                                    assert(spec_prefix_eq(a, addr.key@, lvl));
                                }
                            } else {
                                old(index).nodes.lemma_rank_diff_one(index.nodes, k, ka as nat);
                                if old(index).nodes.spec_get(ka) {
                                    if ka < k {
                                        old(index).nodes.lemma_rank_strict(ka as nat, k as nat);
                                    } else {
                                        old(index).nodes.lemma_rank_strict(k as nat, ka as nat);
                                        old(index).nodes.lemma_rank_strict(ka as nat, 256);
                                    }
                                }
                                assert(!spec_prefix_eq(a, addr.key@, lvl)) by {
                                    assert(a[lvl] != addr.key@[lvl]);
                                }
                            }
                        }
                    }
                } else {
                    vec.insert(offset, child);
                    proof {
                        assert(final(vec)@ =~= old(vec)@.update(offset as int, child));
                        // The kept child lost the cleared prefix, so it is
                        // not all runs, and the branch shows it non-empty.
                        assert(spec_keys_wf(addr.key@));
                        assert(!child.spec_contains(addr.key@)) by {
                            assert(spec_prefix_eq(addr.key@, addr.key@, lvl - 1));
                        }
                        if child.spec_all_runs() {
                            child.lemma_all_runs_contains(addr.key@);
                        }
                        assert(!child.spec_index_empty());
                        assert(final(vec)@[offset as int] == child);
                        assert forall|i: int|
                            0 <= i < final(vec)@.len() implies (#[trigger] final(vec)@[i]).wf()
                            && final(vec)@[i].index.level == final(index).level - 1
                            && !final(vec)@[i].spec_all_runs() by {
                            if i != offset {
                                assert(final(vec)@[i] == old(vec)@[i]);
                            }
                        }
                        assert forall|a: Seq<u8>| spec_keys_wf(a) implies #[trigger] spec_nodes_contains(
                            *final(index),
                            final(vec)@,
                            a,
                        ) == (spec_nodes_contains(*old(index), old(vec)@, a) && !spec_prefix_eq(
                            a,
                            addr.key@,
                            lvl,
                        )) by {
                            let ka = a[lvl] as int;
                            if ka == k {
                                assert(final(vec)@[offset as int] == child);
                                assert(old(vec)@[offset as int] == old_child);
                                assert(old_child.index.level == lvl - 1);
                                assert(child.spec_contains(a) == (old_child.spec_contains(a)
                                    && !spec_prefix_eq(a, addr.key@, lvl - 1)));
                                if spec_prefix_eq(a, addr.key@, lvl - 1) && a[lvl]
                                    == addr.key@[lvl] {
                                    assert(spec_prefix_eq(a, addr.key@, lvl));
                                }
                                if spec_prefix_eq(a, addr.key@, lvl) {
                                    assert(spec_prefix_eq(a, addr.key@, lvl - 1));
                                }
                            } else {
                                if old(index).nodes.spec_get(ka) {
                                    if ka < k {
                                        old(index).nodes.lemma_rank_strict(ka as nat, k as nat);
                                    } else {
                                        old(index).nodes.lemma_rank_strict(k as nat, ka as nat);
                                        old(index).nodes.lemma_rank_strict(ka as nat, 256);
                                    }
                                }
                                assert(!spec_prefix_eq(a, addr.key@, lvl)) by {
                                    assert(a[lvl] != addr.key@[lvl]);
                                }
                            }
                        }
                    }
                }
            },
            KeyState::Missing(_key, _offset) => {
                // No-op if all 0's.
                proof {
                    assert forall|a: Seq<u8>| spec_keys_wf(a) implies #[trigger] spec_nodes_contains(
                        *final(index),
                        final(vec)@,
                        a,
                    ) == (spec_nodes_contains(*old(index), old(vec)@, a) && !spec_prefix_eq(
                        a,
                        addr.key@,
                        lvl,
                    )) by {
                        if spec_prefix_eq(a, addr.key@, lvl) {
                            assert(a[lvl] == addr.key@[lvl]);
                        }
                    }
                }
            },
        }
    }
}

} // verus!
