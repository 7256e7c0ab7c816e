//! Static 256-bit vector over four 64-bit words: membership, emptiness and
//! fullness checks, rank ("offset") computation, and ascending iteration.

use vstd::prelude::*;
use vstd::arithmetic::div_mod::{lemma_fundamental_div_mod_converse, lemma_basic_div};
use crate::bitvec64::{
    spec_bit64, spec_rank64, lemma_bit64_or_one, lemma_bit64_and_not_one, lemma_bit64_test,
    lemma_bit64_const, lemma_bit64_and_or, lemma_bit64_nonzero, lemma_bit64_not_full,
    next_set_bit64,
};

verus! {

/// Static 256 bit vector.
#[derive(Clone, Copy, Debug)]
pub struct BitVec256 {
    pub data0: u64,
    pub data1: u64,
    pub data2: u64,
    pub data3: u64,
}

/// Quotient and remainder of a position split into word number and bit
/// offset.
pub proof fn lemma_split256(j: int)
    requires
        0 <= j < 256,
    ensures
        j / 64 == (if j < 64 {
            0int
        } else if j < 128 {
            1int
        } else if j < 192 {
            2int
        } else {
            3int
        }),
        j % 64 == j - 64 * (j / 64),
        0 <= j % 64 < 64,
{
    if j < 64 {
        lemma_fundamental_div_mod_converse(j, 64, 0, j);
    } else if j < 128 {
        lemma_fundamental_div_mod_converse(j, 64, 1, j - 64);
    } else if j < 192 {
        lemma_fundamental_div_mod_converse(j, 64, 2, j - 128);
    } else {
        lemma_fundamental_div_mod_converse(j, 64, 3, j - 192);
    }
}

impl BitVec256 {
    /// The word that holds position `w * 64`.
    pub open spec fn spec_word(self, w: int) -> u64 {
        if w == 0 {
            self.data0
        } else if w == 1 {
            self.data1
        } else if w == 2 {
            self.data2
        } else {
            self.data3
        }
    }

    /// Membership of position `k` in this bit set.
    pub open spec fn spec_get(self, k: int) -> bool {
        0 <= k < 256 && spec_bit64(self.spec_word(k / 64), (k % 64) as u64)
    }

    /// Number of set positions below `k`.
    pub open spec fn spec_rank(self, k: nat) -> int
        decreases k,
    {
        if k == 0 {
            0
        } else {
            self.spec_rank((k - 1) as nat) + if self.spec_get(k - 1) {
                1int
            } else {
                0int
            }
        }
    }

    /// Number of set positions in the whole vector.
    pub open spec fn spec_count(self) -> int {
        self.spec_rank(256)
    }

    /// Constructor initializes to 0/false.
    pub fn new() -> (r: BitVec256)
        ensures
            forall|k: int| !(#[trigger] r.spec_get(k)),
    {
        proof {
            lemma_bit64_const();
        }
        BitVec256 { data0: 0, data1: 0, data2: 0, data3: 0 }
    }

    /// Split a position into word number and bit offset.
    pub fn location(&self, bitno: u8) -> (r: (u8, u8))
        ensures
            r.0 == bitno as int / 64,
            r.1 == bitno as int % 64,
    {
        (bitno / 64, bitno % 64)
    }

    pub fn set(&mut self, bitno: u8)
        ensures
            forall|k: int| #[trigger]
                final(self).spec_get(k) == (old(self).spec_get(k) || k == bitno as int),
    {
        let (word, off) = self.location(bitno);
        proof {
            lemma_bit64_or_one();
            lemma_split256(bitno as int);
        }
        if word == 0 {
            self.data0 = self.data0 | (1u64 << off);
        } else if word == 1 {
            self.data1 = self.data1 | (1u64 << off);
        } else if word == 2 {
            self.data2 = self.data2 | (1u64 << off);
        } else {
            self.data3 = self.data3 | (1u64 << off);
        }
        proof {
            assert forall|k: int| #[trigger]
                final(self).spec_get(k) == (old(self).spec_get(k) || k == bitno as int) by {
                if 0 <= k < 256 {
                    lemma_split256(k);
                }
            }
        }
    }

    pub fn clear(&mut self, bitno: u8)
        ensures
            forall|k: int| #[trigger]
                final(self).spec_get(k) == (old(self).spec_get(k) && k != bitno as int),
    {
        let (word, off) = self.location(bitno);
        proof {
            lemma_bit64_and_not_one();
            lemma_split256(bitno as int);
        }
        if word == 0 {
            self.data0 = self.data0 & !(1u64 << off);
        } else if word == 1 {
            self.data1 = self.data1 & !(1u64 << off);
        } else if word == 2 {
            self.data2 = self.data2 & !(1u64 << off);
        } else {
            self.data3 = self.data3 & !(1u64 << off);
        }
        proof {
            assert forall|k: int| #[trigger]
                final(self).spec_get(k) == (old(self).spec_get(k) && k != bitno as int) by {
                if 0 <= k < 256 {
                    lemma_split256(k);
                }
            }
        }
    }

    pub fn get(&self, bitno: u8) -> (r: bool)
        ensures
            r == self.spec_get(bitno as int),
    {
        let (word, off) = self.location(bitno);
        proof {
            lemma_bit64_test();
            lemma_split256(bitno as int);
        }
        let w = if word == 0 {
            self.data0
        } else if word == 1 {
            self.data1
        } else if word == 2 {
            self.data2
        } else {
            self.data3
        };
        (w & (1u64 << off)) > 0
    }

    pub fn set_all(&mut self)
        ensures
            forall|k: int| #[trigger] final(self).spec_get(k) == (0 <= k < 256),
    {
        proof {
            lemma_bit64_const();
        }
        self.data0 = u64::MAX;
        self.data1 = u64::MAX;
        self.data2 = u64::MAX;
        self.data3 = u64::MAX;
        proof {
            assert forall|k: int| #[trigger] final(self).spec_get(k) == (0 <= k < 256) by {
                if 0 <= k < 256 {
                    lemma_split256(k);
                }
            }
        }
    }

    pub fn clear_all(&mut self)
        ensures
            forall|k: int| !(#[trigger] final(self).spec_get(k)),
    {
        proof {
            lemma_bit64_const();
        }
        self.data0 = 0;
        self.data1 = 0;
        self.data2 = 0;
        self.data3 = 0;
    }

    pub fn is_empty(&self) -> (r: bool)
        ensures
            r == forall|k: int| !(#[trigger] self.spec_get(k)),
    {
        proof {
            lemma_bit64_const();
            if self.data0 != 0 {
                lemma_bit64_nonzero(self.data0);
                let j = choose|j: u64| j < 64 && spec_bit64(self.data0, j);
                lemma_split256(j as int);
                assert(self.spec_get(j as int));
            } else if self.data1 != 0 {
                lemma_bit64_nonzero(self.data1);
                let j = choose|j: u64| j < 64 && spec_bit64(self.data1, j);
                lemma_split256(j + 64);
                assert(self.spec_get(j + 64));
            } else if self.data2 != 0 {
                lemma_bit64_nonzero(self.data2);
                let j = choose|j: u64| j < 64 && spec_bit64(self.data2, j);
                lemma_split256(j + 128);
                assert(self.spec_get(j + 128));
            } else if self.data3 != 0 {
                lemma_bit64_nonzero(self.data3);
                let j = choose|j: u64| j < 64 && spec_bit64(self.data3, j);
                lemma_split256(j + 192);
                assert(self.spec_get(j + 192));
            } else {
                assert forall|k: int| !(#[trigger] self.spec_get(k)) by {
                    if 0 <= k < 256 {
                        lemma_split256(k);
                    }
                }
            }
        }
        self.data0 == 0 && self.data1 == 0 && self.data2 == 0 && self.data3 == 0
    }

    pub fn is_full(&self) -> (r: bool)
        ensures
            r == forall|k: int| 0 <= k < 256 ==> #[trigger] self.spec_get(k),
    {
        proof {
            lemma_bit64_const();
            if self.data0 != u64::MAX {
                lemma_bit64_not_full(self.data0);
                let j = choose|j: u64| j < 64 && !spec_bit64(self.data0, j);
                lemma_split256(j as int);
                assert(!self.spec_get(j as int));
            } else if self.data1 != u64::MAX {
                lemma_bit64_not_full(self.data1);
                let j = choose|j: u64| j < 64 && !spec_bit64(self.data1, j);
                lemma_split256(j + 64);
                assert(!self.spec_get(j + 64));
            } else if self.data2 != u64::MAX {
                lemma_bit64_not_full(self.data2);
                let j = choose|j: u64| j < 64 && !spec_bit64(self.data2, j);
                lemma_split256(j + 128);
                assert(!self.spec_get(j + 128));
            } else if self.data3 != u64::MAX {
                lemma_bit64_not_full(self.data3);
                let j = choose|j: u64| j < 64 && !spec_bit64(self.data3, j);
                lemma_split256(j + 192);
                assert(!self.spec_get(j + 192));
            } else {
                assert forall|k: int| 0 <= k < 256 implies #[trigger] self.spec_get(k) by {
                    lemma_split256(k);
                }
            }
        }
        self.data0 == u64::MAX && self.data1 == u64::MAX && self.data2 == u64::MAX && self.data3
            == u64::MAX
    }

    /// Return the raw word at `offset` (0 to 3).
    pub fn raw_data(&self, offset: u8) -> (r: u64)
        requires
            offset < 4,
        ensures
            r == self.spec_word(offset as int),
    {
        if offset == 0 {
            self.data0
        } else if offset == 1 {
            self.data1
        } else if offset == 2 {
            self.data2
        } else {
            self.data3
        }
    }

    /// Return the offset for the given key: the number of set positions
    /// before `key`.  `Ok` when `key` itself is set, `Err` with the
    /// insertion point when it is not.
    pub fn offset(&self, key: u8) -> (r: Result<u8, u8>)
        ensures
            match r {
                Ok(o) => self.spec_get(key as int) && o == self.spec_rank(key as nat),
                Err(o) => !self.spec_get(key as int) && o == self.spec_rank(key as nat),
            },
    {
        let mut curr: u16 = 0;
        let mut off: u8 = 0;
        loop
            invariant
                curr <= key as u16,
                off == self.spec_rank(curr as nat),
            decreases 256 - curr,
        {
            proof {
                self.lemma_rank_bound(curr as nat);
            }
            match self.next_set(curr) {
                None => {
                    proof {
                        self.lemma_rank_unset_range(curr as nat, key as nat);
                    }
                    return Err(off);
                },
                Some(i) => {
                    proof {
                        self.lemma_rank_unset_range(curr as nat, i as nat);
                    }
                    if i == key {
                        return Ok(off);
                    } else if i > key {
                        proof {
                            self.lemma_rank_unset_range(curr as nat, key as nat);
                        }
                        return Err(off);
                    }
                    off = off + 1;
                    curr = i as u16 + 1;
                },
            }
        }
    }

    /// Smallest set position at `from` or above, if any.
    pub fn next_set(&self, from: u16) -> (r: Option<u8>)
        ensures
            match r {
                Some(i) => from <= i as u16 && self.spec_get(i as int) && forall|j: int|
                    from <= j < i as int ==> !self.spec_get(j),
                None => forall|j: int| from <= j ==> !self.spec_get(j),
            },
    {
        if from >= 256 {
            return None;
        }
        let mut wordno: u8 = (from / 64) as u8;
        let mut bitno: u8 = (from % 64) as u8;
        proof {
            lemma_split256(from as int);
        }
        loop
            invariant
                wordno <= 4,
                bitno < 64,
                wordno == from as int / 64 ==> bitno == from as int % 64,
                wordno != from as int / 64 ==> bitno == 0 && wordno > from as int / 64,
                forall|j: int| from <= j < 64 * (wordno as int) ==> !self.spec_get(j),
            decreases 4 - wordno,
        {
            if wordno >= 4 {
                return None;
            }
            let w = self.raw_data(wordno);
            match next_set_bit64(w, bitno) {
                Some(i) => {
                    let r = wordno * 64 + i;
                    proof {
                        lemma_split256(r as int);
                        assert forall|j: int| from <= j < r as int implies !self.spec_get(j) by {
                            if 0 <= j < 256 {
                                lemma_split256(j);
                                if j >= 64 * (wordno as int) {
                                    assert(j / 64 == wordno as int);
                                    assert(bitno <= j % 64 < i as int);
                                }
                            }
                        }
                    }
                    return Some(r);
                },
                None => {
                    proof {
                        assert forall|j: int|
                            from <= j < 64 * (wordno as int + 1) implies !self.spec_get(j) by {
                            if 0 <= j < 256 {
                                lemma_split256(j);
                                if j >= 64 * (wordno as int) {
                                    assert(j / 64 == wordno as int);
                                }
                            }
                        }
                    }
                    wordno = wordno + 1;
                    bitno = 0;
                },
            }
        }
    }

    /// Return an ascending iterator over the set positions.
    pub fn iter(&self) -> (r: BitVec256Iterator)
        ensures
            r.vec == *self,
            r.wordno == 0,
            r.bitno == 0,
    {
        BitVec256Iterator { vec: *self, bitno: 0, wordno: 0 }
    }

    /// Intersection with another bit set.
    pub fn bitand(&self, rhs: &BitVec256) -> (r: BitVec256)
        ensures
            forall|k: int| #[trigger] r.spec_get(k) == (self.spec_get(k) && rhs.spec_get(k)),
    {
        proof {
            lemma_bit64_and_or();
        }
        BitVec256 {
            data0: self.data0 & rhs.data0,
            data1: self.data1 & rhs.data1,
            data2: self.data2 & rhs.data2,
            data3: self.data3 & rhs.data3,
        }
    }

    /// Union with another bit set.
    pub fn bitor(&self, rhs: &BitVec256) -> (r: BitVec256)
        ensures
            forall|k: int| #[trigger] r.spec_get(k) == (self.spec_get(k) || rhs.spec_get(k)),
    {
        proof {
            lemma_bit64_and_or();
        }
        BitVec256 {
            data0: self.data0 | rhs.data0,
            data1: self.data1 | rhs.data1,
            data2: self.data2 | rhs.data2,
            data3: self.data3 | rhs.data3,
        }
    }

    /// The rank never exceeds the scanned prefix length.
    pub proof fn lemma_rank_bound(self, k: nat)
        ensures
            0 <= self.spec_rank(k) <= k,
        decreases k,
    {
        if k > 0 {
            self.lemma_rank_bound((k - 1) as nat);
        }
    }

    /// The rank is monotone in the prefix length.
    pub proof fn lemma_rank_mono(self, k1: nat, k2: nat)
        requires
            k1 <= k2,
        ensures
            self.spec_rank(k1) <= self.spec_rank(k2),
        decreases k2 - k1,
    {
        if k2 > k1 {
            self.lemma_rank_mono(k1, (k2 - 1) as nat);
        }
    }

    /// A set position strictly increases the rank of everything after it.
    pub proof fn lemma_rank_strict(self, k: nat, k2: nat)
        requires
            self.spec_get(k as int),
            k < k2,
        ensures
            self.spec_rank(k2) >= self.spec_rank(k) + 1,
    {
        self.lemma_rank_mono((k + 1) as nat, k2);
    }

    /// The rank does not change across a range with no set positions.
    pub proof fn lemma_rank_unset_range(self, a: nat, b: nat)
        requires
            a <= b,
            forall|j: int| a <= j < b ==> !self.spec_get(j),
        ensures
            self.spec_rank(b) == self.spec_rank(a),
        decreases b - a,
    {
        if b > a {
            self.lemma_rank_unset_range(a, (b - 1) as nat);
        }
    }

    /// Two vectors that differ at most at position `i` have ranks that
    /// differ exactly by that position's change, and only after it.
    pub proof fn lemma_rank_diff_one(self, other: BitVec256, i: int, k: nat)
        requires
            forall|j: int| j != i ==> self.spec_get(j) == other.spec_get(j),
        ensures
            other.spec_rank(k) == self.spec_rank(k) + if i < k && other.spec_get(i)
                && !self.spec_get(i) {
                1int
            } else if i < k && !other.spec_get(i) && self.spec_get(i) {
                -1int
            } else {
                0int
            },
        decreases k,
    {
        if k > 0 {
            self.lemma_rank_diff_one(other, i, (k - 1) as nat);
        }
    }

    /// Two vectors with the same positions set have the same rank.
    pub proof fn lemma_rank_same(self, other: BitVec256, k: nat)
        requires
            forall|j: int| self.spec_get(j) == other.spec_get(j),
        ensures
            other.spec_rank(k) == self.spec_rank(k),
        decreases k,
    {
        if k > 0 {
            self.lemma_rank_same(other, (k - 1) as nat);
        }
    }
}

/// Iterator over set positions, ascending.
#[derive(Clone, Copy, Debug)]
pub struct BitVec256Iterator {
    pub vec: BitVec256,
    pub bitno: u8,
    pub wordno: u8,
}

impl BitVec256Iterator {
    /// The first position the iterator has not yet passed.
    pub open spec fn spec_cursor(self) -> int {
        64 * self.wordno as int + self.bitno as int
    }

    /// The next set position at or above the cursor, advancing the cursor
    /// past it.
    pub fn next(&mut self) -> (r: Option<u8>)
        ensures
            final(self).vec == old(self).vec,
            match r {
                Some(i) => {
                    &&& old(self).spec_cursor() <= i as int
                    &&& old(self).vec.spec_get(i as int)
                    &&& forall|j: int|
                        old(self).spec_cursor() <= j < i as int ==> !old(self).vec.spec_get(j)
                    &&& final(self).spec_cursor() == i as int + 1
                },
                None => {
                    &&& forall|j: int| old(self).spec_cursor() <= j ==> !old(self).vec.spec_get(j)
                },
            },
    {
        let cursor: u16 = if self.wordno >= 4 {
            256
        } else {
            self.wordno as u16 * 64 + self.bitno as u16
        };
        proof {
            if self.wordno >= 4 {
                assert forall|j: int|
                    old(self).spec_cursor() <= j implies !old(self).vec.spec_get(j) by {}
            }
        }
        match self.vec.next_set(cursor) {
            None => None,
            Some(i) => {
                let n = i as u16 + 1;
                self.wordno = (n / 64) as u8;
                self.bitno = (n % 64) as u8;
                proof {
                    if n < 256 {
                        lemma_split256(n as int);
                    } else {
                        lemma_fundamental_div_mod_converse(256, 64, 4, 0);
                    }
                }
                Some(i)
            },
        }
    }
}

} // verus!
