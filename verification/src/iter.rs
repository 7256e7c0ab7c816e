//! Lazy ascending iteration: a verified successor function walks the tree
//! one digit at a time, reconstructing run-compressed bit numbers without
//! materializing them, and `NodeIterator` wraps it as a pull iterator.

use vstd::prelude::*;
use vstd::arithmetic::power2::pow2;
use crate::addr::{
    Addr, spec_offset, spec_max_bit, spec_child_max_bit, spec_key, spec_digits,
    lemma_digit_split, lemma_digit_compose,
};
use vstd::bits::lemma_u64_shl_is_mul;
use crate::bitvec64::{spec_bit64, next_set_bit64};
use crate::node::{Node, Content};

verus! {

/// Membership of bit number `b` in the sub-tree of node `n`, with `b`
/// counted from the start of the node's own range.
pub open spec fn spec_member(n: Node, b: u64) -> bool {
    b <= spec_max_bit(n.index.level as int) && n.spec_contains(spec_digits(b))
}

impl Node {
    /// Two digit sequences that agree up to a node's level look the same to
    /// that node.
    pub proof fn lemma_contains_agrees(self, a1: Seq<u8>, a2: Seq<u8>)
        requires
            self.wf(),
            forall|l: int| 0 <= l <= self.index.level ==> a1[l] == a2[l],
        ensures
            self.spec_contains(a1) == self.spec_contains(a2),
        decreases self,
    {
        let lvl = self.index.level as int;
        assert(a1[lvl] == a2[lvl]);
        assert(a1[0] == a2[0]);
        let k = a1[lvl] as int;
        if self.index.nodes.spec_get(k) && !self.index.runs.spec_get(k) {
            let off = self.index.nodes.spec_rank(k as nat);
            self.index.nodes.lemma_rank_bound(k as nat);
            self.index.nodes.lemma_rank_strict(k as nat, 256);
            match self.content {
                Content::Bits(_v) => {},
                Content::Nodes(v) => {
                    if 0 <= off < v@.len() {
                        v@[off].lemma_contains_agrees(a1, a2);
                    }
                },
            }
        }
    }

    /// A digit the index does not hold contributes no bits.
    proof fn lemma_digit_absent(self, j: u64)
        requires
            self.wf(),
            j <= spec_max_bit(self.index.level as int),
            !self.index.spec_present(spec_key(j, self.index.level as int) as int),
        ensures
            !spec_member(self, j),
    {
    }

    /// Smallest set bit number at or above `from` within this node's range,
    /// if any.
    pub fn next_bit(&self, from: u64) -> (r: Option<u64>)
        requires
            self.wf(),
        ensures
            match r {
                Some(m) => from <= m && spec_member(*self, m) && forall|j: u64|
                    from <= j < m ==> !spec_member(*self, j),
                None => forall|j: u64| from <= j ==> !spec_member(*self, j),
            },
        decreases self.index.level,
    {
        let level = self.index.level;
        let ghost lvl = level as int;
        let max = Addr::max_bit(level);
        if from > max {
            return None;
        }
        proof {
            assert(1 <= self.index.level <= 8);
        }
        let sh = Addr::offset(level);
        let ghost w = pow2(spec_offset(lvl)) as int;
        proof {
            vstd::arithmetic::power2::lemma2_to64();
            vstd::arithmetic::power2::lemma2_to64_rest();
            assert(sh <= 62);
            vstd::bits::lemma_u64_pow2_no_overflow(sh as nat);
            lemma_u64_shl_is_mul(1u64, sh);
            if lvl < 8 {
                vstd::arithmetic::power2::lemma_pow2_adds(8, spec_offset(lvl));
                assert(256 * w == pow2(spec_offset(lvl) + 8));
            }
        }
        let k0 = Addr::digit_of(from, level);
        let sub0 = from & ((1u64 << sh) - 1);
        proof {
            crate::addr::lemma_mask_low(from, sh);
            lemma_digit_split(from, lvl);
        }
        let mut k: u16 = k0 as u16;
        let mut sub: u64 = sub0;
        loop
            invariant
                self.wf(),
                level == self.index.level,
                1 <= level <= 8,
                lvl == level as int,
                max == spec_max_bit(lvl),
                sh == spec_offset(lvl),
                sh < 64,
                w == pow2(spec_offset(lvl)),
                w >= 1,
                lvl < 8 ==> 256 * w == max as int + 1,
                lvl == 8 ==> max == u64::MAX,
                from <= max,
                k <= 256,
                sub as int <= spec_child_max_bit(lvl),
                from as int <= (k as int) * w + sub as int,
                forall|j: u64|
                    from <= j && (j as int) < (k as int) * w + sub as int ==> !spec_member(
                        *self,
                        j,
                    ),
            decreases 256 - k,
        {
            if k >= 256 {
                proof {
                    assert forall|j: u64| from <= j implies !spec_member(*self, j) by {
                        if j <= max {
                            lemma_digit_split(j, lvl);
                            assert(spec_key(j, lvl) < 256);
                            assert((spec_key(j, lvl) as int) * w + (j as int) % w == j);
                            assert((j as int) < 256 * w) by (nonlinear_arith)
                                requires
                                    (spec_key(j, lvl) as int) * w + (j as int) % w == j,
                                    spec_key(j, lvl) < 256,
                                    (j as int) % w >= 0,
                                    (j as int) % w < w,
                                    w > 0,
                            ;
                        }
                    }
                }
                return None;
            }
            match self.index.next_key(k) {
                None => {
                    proof {
                        assert forall|j: u64| from <= j implies !spec_member(*self, j) by {
                            if j <= max && (j as int) >= (k as int) * w + sub as int {
                                lemma_digit_split(j, lvl);
                                let kj = spec_key(j, lvl) as int;
                                assert(kj >= k) by (nonlinear_arith)
                                    requires
                                        kj * w + (j as int) % w == j,
                                        (j as int) >= (k as int) * w + sub as int,
                                        0 <= (j as int) % w < w,
                                        0 <= sub as int,
                                        w > 0,
                                ;
                                assert(!self.index.spec_present(kj));
                                self.lemma_digit_absent(j);
                            }
                        }
                    }
                    return None;
                },
                Some(kb) => {
                    let k2: u16 = kb as u16;
                    let s2: u64 = if k2 == k {
                        sub
                    } else {
                        0
                    };
                    proof {
                        if level == 8 {
                            assert(self.index.spec_present(kb as int));
                            assert(kb < 4);
                        }
                        lemma_digit_compose(kb as int, s2, lvl);
                        lemma_u64_shl_is_mul(kb as u64, sh);
                        if k2 != k {
                            assert((k as int) * w + sub as int <= (kb as int) * w)
                                by (nonlinear_arith)
                                requires
                                    (k as int) < (kb as int),
                                    (sub as int) < w,
                                    w > 0,
                            ;
                        }
                        assert((k as int) * w + sub as int <= (kb as int) * w + s2 as int);
                        // Everything between the old floor and the new floor
                        // has an absent digit.
                        assert forall|j: u64|
                            from <= j && (j as int) < (kb as int) * w + s2 as int implies !spec_member(
                            *self,
                            j,
                        ) by {
                            if k2 != k && j <= max && (j as int) >= (k as int) * w
                                + sub as int {
                                lemma_digit_split(j, lvl);
                                let kj = spec_key(j, lvl) as int;
                                assert(kj >= k) by (nonlinear_arith)
                                    requires
                                        kj * w + (j as int) % w == j,
                                        (j as int) >= (k as int) * w + sub as int,
                                        0 <= (j as int) % w < w,
                                        0 <= sub as int,
                                        w > 0,
                                ;
                                assert(kj < kb) by (nonlinear_arith)
                                    requires
                                        kj * w + (j as int) % w == j,
                                        (j as int) < (kb as int) * w,
                                        0 <= (j as int) % w < w,
                                        w > 0,
                                ;
                                assert(!self.index.spec_present(kj));
                                self.lemma_digit_absent(j);
                            }
                        }
                    }
                    let base = (kb as u64) << sh;
                    if self.index.runs.get(kb) {
                        let m = base + s2;
                        proof {
                            assert(spec_member(*self, m)) by {
                                assert(spec_key(m, lvl) == kb as int);
                                assert(self.index.runs.spec_get(kb as int));
                            }
                        }
                        return Some(m);
                    }
                    let off = match self.index.nodes.offset(kb) {
                        Ok(o) => o,
                        Err(o) => o,
                    };
                    proof {
                        assert(self.index.nodes.spec_get(kb as int));
                        self.index.nodes.lemma_rank_bound(kb as nat);
                        self.index.nodes.lemma_rank_strict(kb as nat, 256);
                    }
                    match &self.content {
                        Content::Bits(v) => {
                            proof {
                                assert(level == 1);
                                assert(spec_child_max_bit(1) == 63) by {
                                    vstd::arithmetic::power2::lemma2_to64();
                                }
                            }
                            let word = v[off as usize];
                            match next_set_bit64(word, s2 as u8) {
                                Some(i) => {
                                    proof {
                                        lemma_digit_compose(kb as int, i as u64, lvl);
                                    }
                                    let m = base + i as u64;
                                    proof {
                                        crate::addr::lemma_key0_small(i as u64);
                                        assert(spec_member(*self, m)) by {
                                            assert(spec_key(m, lvl) == kb as int);
                                            assert(spec_key(m, 0) == i);
                                            assert(spec_bit64(word, i as u64));
                                        }
                                        assert forall|j: u64|
                                            from <= j < m implies !spec_member(*self, j) by {
                                            if (j as int) >= (kb as int) * w + s2 as int {
                                                lemma_digit_split(j, lvl);
                                                let kj = spec_key(j, lvl) as int;
                                                let t = (j as int) % w;
                                                assert(kj == kb) by (nonlinear_arith)
                                                    requires
                                                        kj * w + t == j,
                                                        (kb as int) * w + s2 as int <= (j as int) < (
                                                        kb as int) * w + i as int,
                                                        0 <= t < w,
                                                        (i as int) < w,
                                                        w > 0,
                                                ;
                                                assert(s2 as int <= t < i as int) by (nonlinear_arith)
                                                    requires
                                                        kj * w + t == j,
                                                        kj == kb,
                                                        (kb as int) * w + s2 as int <= (j as int) < (
                                                        kb as int) * w + i as int,
                                                ;
                                                lemma_digit_compose(kb as int, (t as u64), lvl);
                                                assert(spec_key(j, 0) == spec_key(t as u64, 0));
                                                crate::addr::lemma_key0_small(t as u64);
                                                assert(!spec_bit64(word, t as u64));
                                            }
                                        }
                                    }
                                    return Some(m);
                                },
                                None => {
                                    proof {
                                        assert forall|j: u64|
                                            from <= j && (j as int) < (kb as int + 1)
                                                * w implies !spec_member(*self, j) by {
                                            if (j as int) >= (kb as int) * w + s2 as int {
                                                if lvl < 8 {
                                                    vstd::arithmetic::mul::lemma_mul_inequality(
                                                        kb as int + 1,
                                                        256,
                                                        w,
                                                    );
                                                }
                                                lemma_digit_split(j, lvl);
                                                let kj = spec_key(j, lvl) as int;
                                                let t = (j as int) % w;
                                                assert(kj == kb) by (nonlinear_arith)
                                                    requires
                                                        kj * w + t == j,
                                                        (kb as int) * w + s2 as int <= (j as int) < (
                                                        kb as int + 1) * w,
                                                        0 <= t < w,
                                                        w > 0,
                                                ;
                                                assert(s2 as int <= t) by (nonlinear_arith)
                                                    requires
                                                        kj * w + t == j,
                                                        kj == kb,
                                                        (kb as int) * w + s2 as int <= j as int,
                                                ;
                                                lemma_digit_compose(kb as int, (t as u64), lvl);
                                                crate::addr::lemma_key0_small(t as u64);
                                                assert(!spec_bit64(word, t as u64));
                                            }
                                        }
                                    }
                                    proof {
                                        assert((kb as int + 1) * w == (kb as int) * w + w)
                                            by (nonlinear_arith);
                                    }
                                    k = k2 + 1;
                                    sub = 0;
                                },
                            }
                        },
                        Content::Nodes(v) => {
                            let child = &v[off as usize];
                            proof {
                                assert(child.wf());
                                assert(child.index.level == level - 1);
                                assert(spec_child_max_bit(lvl) == spec_max_bit(lvl - 1));
                            }
                            match child.next_bit(s2) {
                                Some(s3) => {
                                    proof {
                                        lemma_digit_compose(kb as int, s3, lvl);
                                    }
                                    let m = base + s3;
                                    proof {
                                        assert(spec_member(*self, m)) by {
                                            assert(spec_key(m, lvl) == kb as int);
                                            child.lemma_contains_agrees(
                                                spec_digits(m),
                                                spec_digits(s3),
                                            );
                                        }
                                        assert forall|j: u64|
                                            from <= j < m implies !spec_member(*self, j) by {
                                            if (j as int) >= (kb as int) * w + s2 as int {
                                                lemma_digit_split(j, lvl);
                                                let kj = spec_key(j, lvl) as int;
                                                let t = (j as int) % w;
                                                assert(kj == kb) by (nonlinear_arith)
                                                    requires
                                                        kj * w + t == j,
                                                        (kb as int) * w + s2 as int <= (j as int) < (
                                                        kb as int) * w + s3 as int,
                                                        0 <= t < w,
                                                        (s3 as int) < w,
                                                        w > 0,
                                                ;
                                                assert(s2 as int <= t < s3 as int) by (nonlinear_arith)
                                                    requires
                                                        kj * w + t == j,
                                                        kj == kb,
                                                        (kb as int) * w + s2 as int <= (j as int) < (
                                                        kb as int) * w + s3 as int,
                                                ;
                                                lemma_digit_compose(kb as int, (t as u64), lvl);
                                                assert(!spec_member(*child, t as u64));
                                                child.lemma_contains_agrees(
                                                    spec_digits(j),
                                                    spec_digits(t as u64),
                                                );
                                            }
                                        }
                                    }
                                    return Some(m);
                                },
                                None => {
                                    proof {
                                        assert forall|j: u64|
                                            from <= j && (j as int) < (kb as int + 1)
                                                * w implies !spec_member(*self, j) by {
                                            if (j as int) >= (kb as int) * w + s2 as int {
                                                if lvl < 8 {
                                                    vstd::arithmetic::mul::lemma_mul_inequality(
                                                        kb as int + 1,
                                                        256,
                                                        w,
                                                    );
                                                }
                                                lemma_digit_split(j, lvl);
                                                let kj = spec_key(j, lvl) as int;
                                                let t = (j as int) % w;
                                                assert(kj == kb) by (nonlinear_arith)
                                                    requires
                                                        kj * w + t == j,
                                                        (kb as int) * w + s2 as int <= (j as int) < (
                                                        kb as int + 1) * w,
                                                        0 <= t < w,
                                                        w > 0,
                                                ;
                                                assert(s2 as int <= t) by (nonlinear_arith)
                                                    requires
                                                        kj * w + t == j,
                                                        kj == kb,
                                                        (kb as int) * w + s2 as int <= j as int,
                                                ;
                                                lemma_digit_compose(kb as int, (t as u64), lvl);
                                                assert(!spec_member(*child, t as u64));
                                                child.lemma_contains_agrees(
                                                    spec_digits(j),
                                                    spec_digits(t as u64),
                                                );
                                            }
                                        }
                                    }
                                    proof {
                                        assert((kb as int + 1) * w == (kb as int) * w + w)
                                            by (nonlinear_arith);
                                    }
                                    k = k2 + 1;
                                    sub = 0;
                                },
                            }
                        },
                    }
                },
            }
        }
    }

    /// Bitno iterator starting from this node.
    pub fn iter(&self) -> (r: NodeIterator)
        requires
            self.wf(),
        ensures
            r.wf(),
            r.next_from == 0,
            !r.done,
            r.node.index.level == self.index.level,
            forall|b: u64| #[trigger] spec_member(r.node, b) == spec_member(*self, b),
    {
        NodeIterator::new(self)
    }
}

/// There is a member of `n` at or above `from`.
pub open spec fn spec_has_member_from(n: Node, from: int) -> bool {
    exists|m: u64| from <= m && spec_member(n, m)
}

/// The smallest member of `n` at or above `from`; meaningful only when one
/// exists.
pub open spec fn spec_least_member(n: Node, from: int) -> u64 {
    choose|m: u64|
        from <= m && spec_member(n, m) && forall|j: u64| from <= j < m ==> !spec_member(n, j)
}

/// A node with a member at or above `from` has a smallest one there, and
/// `spec_least_member` denotes it.
pub proof fn lemma_least_member_exists(n: Node, from: int, m0: u64)
    requires
        from <= m0,
        spec_member(n, m0),
    ensures
        from <= spec_least_member(n, from),
        spec_member(n, spec_least_member(n, from)),
        forall|j: u64| from <= j < spec_least_member(n, from) ==> !spec_member(n, j),
    decreases m0 as int - from,
{
    if forall|j: u64| from <= j < m0 ==> !spec_member(n, j) {
        let m = choose|m: u64|
            from <= m && spec_member(n, m) && forall|j: u64|
                from <= j < m ==> !spec_member(n, j);
        assert(from <= m0 && spec_member(n, m0) && forall|j: u64|
            from <= j < m0 ==> !spec_member(n, j));
    } else {
        let j0 = choose|j: u64| from <= j < m0 && spec_member(n, j);
        lemma_least_member_exists(n, from, j0);
    }
}

/// The ascending enumeration of the members of `n` at or above `from`: the
/// smallest such member, then the enumeration above it.
#[verifier::opaque]
pub open spec fn spec_emission(n: Node, from: int) -> Seq<u64>
    decreases u64::MAX as int + 1 - from,
{
    if !spec_has_member_from(n, from) {
        Seq::empty()
    } else {
        let m = spec_least_member(n, from);
        if from <= m {
            seq![m] + spec_emission(n, m as int + 1)
        } else {
            Seq::empty()
        }
    }
}

/// Elements of the ascending enumeration are members at or above `from`,
/// in strictly increasing order.
#[verifier::rlimit(50)]
proof fn lemma_emission_members(n: Node, from: int)
    ensures
        forall|i: int|
            0 <= i < spec_emission(n, from).len() ==> from <= #[trigger] spec_emission(n, from)[i]
                && spec_member(n, spec_emission(n, from)[i]),
        forall|i: int, j: int|
            0 <= i < j < spec_emission(n, from).len() ==> spec_emission(n, from)[i]
                < spec_emission(n, from)[j],
    decreases u64::MAX as int + 1 - from,
{
    reveal(spec_emission);
    let e = spec_emission(n, from);
    if spec_has_member_from(n, from) {
        let m0 = choose|m: u64| from <= m && spec_member(n, m);
        lemma_least_member_exists(n, from, m0);
        let m = spec_least_member(n, from);
        lemma_emission_members(n, m as int + 1);
        let rest = spec_emission(n, m as int + 1);
        assert(e == seq![m] + rest);
        assert(e[0] == m);
        assert forall|i: int| 0 <= i < e.len() implies from <= e[i] && spec_member(n, e[i]) by {
            if i >= 1 {
                assert(e[i] == rest[i - 1]);
            }
        }
        assert forall|i: int, j: int| 0 <= i < j < e.len() implies e[i] < e[j] by {
            assert(e[j] == rest[j - 1]);
            assert(m as int + 1 <= rest[j - 1]);
            if i >= 1 {
                assert(e[i] == rest[i - 1]);
            }
        }
    }
}

/// Every member at or above `from` appears in the ascending enumeration.
#[verifier::rlimit(50)]
proof fn lemma_emission_complete(n: Node, from: int)
    ensures
        forall|b: u64| from <= b && spec_member(n, b) ==> spec_emission(n, from).contains(b),
    decreases u64::MAX as int + 1 - from,
{
    reveal(spec_emission);
    let e = spec_emission(n, from);
    if spec_has_member_from(n, from) {
        let m0 = choose|m: u64| from <= m && spec_member(n, m);
        lemma_least_member_exists(n, from, m0);
        let m = spec_least_member(n, from);
        lemma_emission_complete(n, m as int + 1);
        let rest = spec_emission(n, m as int + 1);
        assert(e == seq![m] + rest);
        assert forall|b: u64| from <= b && spec_member(n, b) implies e.contains(b) by {
            if b == m {
                assert(e[0] == b);
            } else {
                assert(b > m);
                assert(rest.contains(b));
                let i = choose|i: int| 0 <= i < rest.len() && rest[i] == b;
                assert(e[i + 1] == b);
            }
        }
    } else {
        assert forall|b: u64| from <= b && spec_member(n, b) implies e.contains(b) by {
            assert(spec_has_member_from(n, from));
        }
    }
}

/// Set/iterate agreement, sequence half: the ascending enumeration of a
/// node's members visits members only, in strictly increasing order, and
/// omits none — exactly the sorted sequence of the member set.
pub proof fn lemma_emission_exact(n: Node, from: int)
    ensures
        forall|i: int|
            0 <= i < spec_emission(n, from).len() ==> from <= #[trigger] spec_emission(n, from)[i]
                && spec_member(n, spec_emission(n, from)[i]),
        forall|i: int, j: int|
            0 <= i < j < spec_emission(n, from).len() ==> spec_emission(n, from)[i]
                < spec_emission(n, from)[j],
        forall|b: u64| from <= b && spec_member(n, b) ==> spec_emission(n, from).contains(b),
{
    lemma_emission_members(n, from);
    lemma_emission_complete(n, from);
}

/// Lazy ascending iterator over every bit number set anywhere under a node,
/// including bit numbers implied by run digits.  Works on its own snapshot
/// of the node, so later changes to the tree do not disturb it.
pub struct NodeIterator {
    /// Snapshot of the node being iterated.
    pub node: Node,
    /// Smallest bit number not yet passed.
    pub next_from: u64,
    /// Whether the whole range has been exhausted.
    pub done: bool,
}

impl NodeIterator {
    pub open spec fn wf(self) -> bool {
        self.node.wf()
    }

    pub fn new(node: &Node) -> (r: NodeIterator)
        requires
            node.wf(),
        ensures
            r.wf(),
            r.next_from == 0,
            !r.done,
            r.node.index.level == node.index.level,
            forall|b: u64| #[trigger] spec_member(r.node, b) == spec_member(*node, b),
    {
        let snapshot = node.clone();
        proof {
            assert forall|b: u64| #[trigger]
                spec_member(snapshot, b) == spec_member(*node, b) by {
                assert(snapshot.spec_contains(spec_digits(b)) == node.spec_contains(
                    spec_digits(b),
                ));
            }
        }
        NodeIterator { node: snapshot, next_from: 0, done: false }
    }

    /// The next set bit at or above the cursor, in ascending order; `None`
    /// once every set bit has been produced.  Each produced bit is the head
    /// of the ascending enumeration at the cursor, so successive calls walk
    /// that enumeration entry by entry.
    pub fn next(&mut self) -> (r: Option<u64>)
        requires
            old(self).wf(),
        ensures
            final(self).wf(),
            final(self).node == old(self).node,
            match r {
                Some(m) => {
                    &&& !old(self).done
                    &&& old(self).next_from <= m
                    &&& spec_member(old(self).node, m)
                    &&& forall|j: u64|
                        old(self).next_from <= j < m ==> !spec_member(old(self).node, j)
                    &&& spec_emission(old(self).node, old(self).next_from as int) == seq![m]
                        + spec_emission(old(self).node, m as int + 1)
                    &&& m < u64::MAX ==> !final(self).done && final(self).next_from == m + 1
                    &&& m == u64::MAX ==> final(self).done
                },
                None => {
                    &&& old(self).done || forall|j: u64|
                        old(self).next_from <= j ==> !spec_member(old(self).node, j)
                    &&& !old(self).done ==> spec_emission(
                        old(self).node,
                        old(self).next_from as int,
                    ) == Seq::<u64>::empty()
                    &&& final(self).next_from == old(self).next_from
                },
            },
    {
        if self.done {
            return None;
        }
        let ghost from = self.next_from as int;
        match self.node.next_bit(self.next_from) {
            None => {
                proof {
                    reveal(spec_emission);
                    if spec_has_member_from(self.node, from) {
                        let w = choose|m: u64| from <= m && spec_member(self.node, m);
                        assert(!spec_member(self.node, w));
                    }
                }
                None
            },
            Some(m) => {
                proof {
                    reveal(spec_emission);
                    lemma_least_member_exists(self.node, from, m);
                    let least = spec_least_member(self.node, from);
                    if least < m {
                        assert(!spec_member(self.node, least));
                    }
                    if least > m {
                        assert(!spec_member(self.node, m));
                    }
                    assert(least == m);
                    assert(spec_has_member_from(self.node, from)) by {
                        assert(from <= m && spec_member(self.node, m));
                    }
                }
                if m == u64::MAX {
                    self.done = true;
                } else {
                    self.next_from = m + 1;
                }
                Some(m)
            },
        }
    }
}

} // verus!
