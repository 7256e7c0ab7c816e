//! A 64-bit word viewed as a set of bit positions, plus the word-level bit
//! lemmas shared by the wider containers.

use vstd::prelude::*;
use vstd::std_specs::bits::{u64_trailing_zeros, axiom_u64_trailing_zeros};

verus! {

/// Max size of BitVec64.
pub const MAX_BIT: u8 = 63;

/// Bit `i` of word `w`.
pub open spec fn spec_bit64(w: u64, i: u64) -> bool {
    i < 64 && (w >> i) & 1 == 1
}

/// Number of set bits of `w` at positions below `k`.
pub open spec fn spec_rank64(w: u64, k: nat) -> int
    decreases k,
{
    if k == 0 {
        0
    } else {
        spec_rank64(w, (k - 1) as nat) + if spec_bit64(w, (k - 1) as u64) {
            1int
        } else {
            0int
        }
    }
}

/// Setting bit `i` of a word sets exactly that bit.
pub proof fn lemma_bit64_or_one()
    by (bit_vector)
    ensures
        forall|w: u64, i: u64, j: u64|
            i < 64 && j < 64 ==> ((((w | (1u64 << i)) >> j) & 1 == 1) <==> (j == i || (w >> j) & 1
                == 1)),
{
}

/// Clearing bit `i` of a word clears exactly that bit.
pub proof fn lemma_bit64_and_not_one()
    by (bit_vector)
    ensures
        forall|w: u64, i: u64, j: u64|
            i < 64 && j < 64 ==> ((((w & !(1u64 << i)) >> j) & 1 == 1) <==> (j != i && (w >> j) & 1
                == 1)),
{
}

/// Testing a word against a one-bit mask reads that bit.
pub proof fn lemma_bit64_test()
    by (bit_vector)
    ensures
        forall|w: u64, i: u64| i < 64 ==> (((w & (1u64 << i)) > 0) <==> ((w >> i) & 1 == 1)),
{
}

/// The zero word has no bits set, and the all-ones word has every bit set.
pub proof fn lemma_bit64_const()
    by (bit_vector)
    ensures
        forall|j: u64| (0u64 >> j) & 1 == 0,
        forall|j: u64| j < 64 ==> (u64::MAX >> j) & 1 == 1,
{
}

/// A bit of an intersection or union of words, in terms of the operands.
pub proof fn lemma_bit64_and_or()
    by (bit_vector)
    ensures
        forall|w1: u64, w2: u64, j: u64|
            j < 64 ==> ((((w1 & w2) >> j) & 1 == 1) <==> (((w1 >> j) & 1 == 1) && ((w2 >> j) & 1
                == 1))),
        forall|w1: u64, w2: u64, j: u64|
            j < 64 ==> ((((w1 | w2) >> j) & 1 == 1) <==> (((w1 >> j) & 1 == 1) || ((w2 >> j) & 1
                == 1))),
{
}

/// Two shifts compose into one, and shifting everything out leaves nothing.
pub proof fn lemma_bit64_shift_add()
    by (bit_vector)
    ensures
        forall|w: u64, a: u64, b: u64|
            a < 64 && b < 64 && a + b < 64 ==> ((w >> a) >> b) & 1 == (w >> ((a + b) as u64)) & 1,
        forall|w: u64, a: u64, b: u64|
            a < 64 && b < 64 && a + b >= 64 ==> ((w >> a) >> b) & 1 == 0,
{
}

/// A nonzero word has a set bit: its lowest one.
pub proof fn lemma_bit64_nonzero(w: u64)
    requires
        w != 0,
    ensures
        exists|j: u64| j < 64 && spec_bit64(w, j),
{
    broadcast use axiom_u64_trailing_zeros;

    let t = u64_trailing_zeros(w) as u64;
    assert(t < 64 && spec_bit64(w, t));
}

/// A word other than all-ones has a clear bit below 64.
pub proof fn lemma_bit64_not_full(w: u64)
    requires
        w != u64::MAX,
    ensures
        exists|j: u64| j < 64 && !spec_bit64(w, j),
{
    broadcast use axiom_u64_trailing_zeros;

    assert(!w != 0) by (bit_vector)
        requires
            w != u64::MAX,
    ;
    let t = u64_trailing_zeros(!w) as u64;
    assert(t < 64 ==> (((!w) >> t) & 1 == 1) ==> ((w >> t) & 1 == 0)) by (bit_vector);
    assert(t < 64 && !spec_bit64(w, t));
}

/// The rank of a word never exceeds the scanned prefix length.
pub proof fn lemma_rank64_bound(w: u64, k: nat)
    ensures
        0 <= spec_rank64(w, k) <= k,
    decreases k,
{
    if k > 0 {
        lemma_rank64_bound(w, (k - 1) as nat);
    }
}

/// The rank does not change across a range with no set bits.
pub proof fn lemma_rank64_unset_range(w: u64, a: nat, b: nat)
    requires
        a <= b <= 64,
        forall|j: u64| a <= j < b ==> !spec_bit64(w, j),
    ensures
        spec_rank64(w, b) == spec_rank64(w, a),
    decreases b - a,
{
    if b > a {
        lemma_rank64_unset_range(w, a, (b - 1) as nat);
    }
}

/// Smallest set bit of `w` at position `from` or above, if any.
pub fn next_set_bit64(w: u64, from: u8) -> (r: Option<u8>)
    requires
        from <= 64,
    ensures
        match r {
            Some(i) => from <= i < 64 && spec_bit64(w, i as u64) && forall|j: u64|
                from <= j < i ==> !spec_bit64(w, j),
            None => forall|j: u64| from <= j ==> !spec_bit64(w, j),
        },
{
    proof {
        broadcast use axiom_u64_trailing_zeros;

        lemma_bit64_shift_add();
        lemma_bit64_const();
    }
    if from >= 64 {
        return None;
    }
    let shifted = w >> from;
    let t = shifted.trailing_zeros();
    if t >= 64 || from as u32 + t >= 64 {
        proof {
            assert forall|j: u64| from <= j implies !spec_bit64(w, j) by {
                if j < 64 {
                    let b = (j - from) as u64;
                    if t >= 64 {
                        assert(shifted == 0);
                        assert((shifted >> b) & 1 == 0);
                    } else {
                        assert(from + t >= 64);
                        assert(b < u64_trailing_zeros(shifted));
                        assert((shifted >> b) & 1 == 0);
                    }
                    assert(((w >> (from as u64)) >> b) & 1 == (w >> j) & 1);
                }
            }
        }
        None
    } else {
        let i = from + t as u8;
        proof {
            let tt = t as u64;
            assert((shifted >> tt) & 1 == 1);
            assert(((w >> (from as u64)) >> tt) & 1 == (w >> (i as u64)) & 1);
            assert forall|j: u64| from <= j < i implies !spec_bit64(w, j) by {
                let b = (j - from) as u64;
                assert(b < u64_trailing_zeros(shifted));
                assert((shifted >> b) & 1 == 0);
                assert(((w >> (from as u64)) >> b) & 1 == (w >> j) & 1);
            }
        }
        Some(i)
    }
}

/// Simple tuple struct to give bit vector semantics to u64.
#[derive(Clone, Copy, Debug)]
pub struct BitVec64(pub u64);

impl BitVec64 {
    /// Membership of position `i` in this bit set.
    pub open spec fn spec_get(self, i: u64) -> bool {
        spec_bit64(self.0, i)
    }

    pub fn set(&mut self, bitno: u8)
        requires
            bitno < 64,
        ensures
            forall|j: u64| #[trigger]
                final(self).spec_get(j) == (old(self).spec_get(j) || j == bitno),
    {
        proof {
            lemma_bit64_or_one();
        }
        self.0 = self.0 | (1u64 << bitno);
    }

    pub fn clear(&mut self, bitno: u8)
        requires
            bitno < 64,
        ensures
            forall|j: u64| #[trigger]
                final(self).spec_get(j) == (old(self).spec_get(j) && j != bitno),
    {
        proof {
            lemma_bit64_and_not_one();
        }
        self.0 = self.0 & !(1u64 << bitno);
    }

    pub fn get(&self, bitno: u8) -> (r: bool)
        requires
            bitno < 64,
        ensures
            r == self.spec_get(bitno as u64),
    {
        proof {
            lemma_bit64_test();
        }
        (self.0 & (1u64 << bitno)) > 0
    }

    pub fn set_all(&mut self)
        ensures
            forall|j: u64| #[trigger] final(self).spec_get(j) == (j < 64),
    {
        proof {
            lemma_bit64_const();
        }
        self.0 = u64::MAX;
    }

    pub fn clear_all(&mut self)
        ensures
            forall|j: u64| !(#[trigger] final(self).spec_get(j)),
    {
        proof {
            lemma_bit64_const();
        }
        self.0 = 0;
    }

    pub fn is_empty(&self) -> (r: bool)
        ensures
            r == forall|j: u64| !(#[trigger] self.spec_get(j)),
    {
        proof {
            lemma_bit64_const();
            if self.0 != 0 {
                lemma_bit64_nonzero(self.0);
                let j = choose|j: u64| j < 64 && spec_bit64(self.0, j);
                assert(self.spec_get(j));
            }
        }
        self.0 == 0
    }

    pub fn is_full(&self) -> (r: bool)
        ensures
            r == forall|j: u64| j < 64 ==> #[trigger] self.spec_get(j),
    {
        proof {
            lemma_bit64_const();
            if self.0 != u64::MAX {
                lemma_bit64_not_full(self.0);
                let j = choose|j: u64| j < 64 && !spec_bit64(self.0, j);
                assert(!self.spec_get(j));
            }
        }
        self.0 == u64::MAX
    }

    pub fn iter(&self) -> (r: BitVec64Iterator)
        ensures
            r.bitvec == self.0,
            r.curr_bitno == 0,
    {
        BitVec64Iterator::new(self.0)
    }

    pub fn raw_data(&self) -> (r: u64)
        ensures
            r == self.0,
    {
        self.0
    }

    /// Return the offset for the given key: the number of set bits before
    /// `key`.  `Ok` when `key` itself is set, `Err` with the insertion point
    /// when it is not.
    pub fn offset(&self, key: u8) -> (r: Result<u8, u8>)
        requires
            key < 64,
        ensures
            match r {
                Ok(o) => self.spec_get(key as u64) && o == spec_rank64(self.0, key as nat),
                Err(o) => !self.spec_get(key as u64) && o == spec_rank64(self.0, key as nat),
            },
    {
        let w = self.0;
        let mut curr: u8 = 0;
        let mut off: u8 = 0;
        loop
            invariant
                curr <= key < 64,
                off == spec_rank64(w, curr as nat),
                w == self.0,
            decreases 64 - curr,
        {
            proof {
                lemma_rank64_bound(w, curr as nat);
            }
            match next_set_bit64(w, curr) {
                None => {
                    proof {
                        lemma_rank64_unset_range(w, curr as nat, key as nat);
                    }
                    return Err(off);
                },
                Some(i) => {
                    proof {
                        lemma_rank64_unset_range(w, curr as nat, i as nat);
                    }
                    if i == key {
                        return Ok(off);
                    } else if i > key {
                        proof {
                            lemma_rank64_unset_range(w, curr as nat, key as nat);
                        }
                        return Err(off);
                    }
                    off = off + 1;
                    curr = i + 1;
                },
            }
        }
    }

    /// Intersection with another bit set.
    pub fn bitand(&self, rhs: &BitVec64) -> (r: BitVec64)
        ensures
            forall|j: u64| #[trigger] r.spec_get(j) == (self.spec_get(j) && rhs.spec_get(j)),
    {
        proof {
            lemma_bit64_and_or();
        }
        BitVec64(self.0 & rhs.0)
    }

    /// Union with another bit set.
    pub fn bitor(&self, rhs: &BitVec64) -> (r: BitVec64)
        ensures
            forall|j: u64| #[trigger] r.spec_get(j) == (self.spec_get(j) || rhs.spec_get(j)),
    {
        proof {
            lemma_bit64_and_or();
        }
        BitVec64(self.0 | rhs.0)
    }
}

/// Iterator for BitVec64 bits, ascending.
#[derive(Clone, Copy, Debug)]
pub struct BitVec64Iterator {
    pub bitvec: u64,
    pub curr_bitno: u8,
}

impl BitVec64Iterator {
    pub fn new(bitvec: u64) -> (r: BitVec64Iterator)
        ensures
            r.bitvec == bitvec,
            r.curr_bitno == 0,
    {
        BitVec64Iterator { bitvec, curr_bitno: 0 }
    }

    /// The next set bit at or above the cursor, advancing the cursor past it.
    pub fn next(&mut self) -> (r: Option<u8>)
        ensures
            final(self).bitvec == old(self).bitvec,
            match r {
                Some(i) => {
                    &&& old(self).curr_bitno <= i < 64
                    &&& spec_bit64(old(self).bitvec, i as u64)
                    &&& forall|j: u64|
                        old(self).curr_bitno <= j < i ==> !spec_bit64(old(self).bitvec, j)
                    &&& final(self).curr_bitno == i + 1
                },
                None => {
                    &&& forall|j: u64|
                        old(self).curr_bitno <= j ==> !spec_bit64(old(self).bitvec, j)
                    &&& final(self).curr_bitno == old(self).curr_bitno
                },
            },
    {
        let from = if self.curr_bitno > 64 {
            64
        } else {
            self.curr_bitno
        };
        match next_set_bit64(self.bitvec, from) {
            None => None,
            Some(i) => {
                self.curr_bitno = i + 1;
                Some(i)
            },
        }
    }
}

} // verus!
