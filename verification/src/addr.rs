//! Address decomposition: a 64-bit bit number is split into one small digit
//! ("key") per tree level.  Level 0 covers the 6 low bits (a position inside a
//! 64-bit leaf word); levels 1 through 8 each cover the next 8 bits.

use vstd::prelude::*;
use vstd::arithmetic::power2::{pow2, lemma2_to64, lemma2_to64_rest, lemma_pow2_adds};
use vstd::arithmetic::div_mod::{
    lemma_basic_div, lemma_div_multiples_vanish_fancy, lemma_fundamental_div_mod,
    lemma_hoist_over_denominator, lemma_mod_breakdown, lemma_mod_multiples_vanish, lemma_small_mod,
    lemma_multiply_divide_lt,
};
use vstd::arithmetic::mul::lemma_mul_inequality;
use vstd::bits::{
    low_bits_mask, lemma_u64_pow2_no_overflow, lemma_u64_shr_is_div, lemma_u64_shl_is_mul,
    lemma_u64_low_bits_mask_is_mod,
};

verus! {

/// Highest tree level; a node at this level spans the whole `u64` domain.
pub const MAX_LEVEL: u8 = 8;

/// Bit offset of the digit that belongs to `level`: 0 for level 0, then
/// 6, 14, 22, ... for the 8-bit digits of the upper levels.
pub open spec fn spec_offset(level: int) -> nat {
    if 1 <= level <= 8 {
        (6 + 8 * (level - 1)) as nat
    } else {
        0
    }
}

/// Number of distinct digit values at `level`: 64 at the leaf level, 256 above.
pub open spec fn spec_radix(level: int) -> nat {
    if level == 0 {
        64
    } else {
        256
    }
}

/// Largest bit number representable by a node at `level` (0 outside the table).
pub open spec fn spec_max_bit(level: int) -> u64 {
    if 0 <= level <= 7 {
        (pow2(spec_offset(level + 1)) - 1) as u64
    } else if level == 8 {
        u64::MAX
    } else {
        0
    }
}

/// Largest bit number representable by one child of a node at `level`.
pub open spec fn spec_child_max_bit(level: int) -> u64 {
    if 1 <= level <= 8 {
        spec_max_bit(level - 1)
    } else {
        0
    }
}

/// The digit of bit number `b` at `level`.
pub open spec fn spec_key(b: u64, level: int) -> u8 {
    if 0 <= level <= 8 {
        (((b as nat) / pow2(spec_offset(level))) % spec_radix(level)) as u8
    } else {
        0
    }
}

/// The smallest level whose range contains bit number `b`.
pub open spec fn spec_level_of(b: u64) -> int {
    if b <= 0x3f {
        0
    } else if b <= 0x3fff {
        1
    } else if b <= 0x3f_ffff {
        2
    } else if b <= 0x3fff_ffff {
        3
    } else if b <= 0x3f_ffff_ffff {
        4
    } else if b <= 0x3fff_ffff_ffff {
        5
    } else if b <= 0x3f_ffff_ffff_ffff {
        6
    } else if b <= 0x3fff_ffff_ffff_ffff {
        7
    } else {
        8
    }
}

/// Bit number reconstructed from the digits below position `t`:
/// the weighted sum of `keys[0], ..., keys[t-1]`.
pub open spec fn spec_keys_bitno_upto(keys: Seq<u8>, t: nat) -> int
    decreases t,
{
    if t == 0 {
        0
    } else {
        spec_keys_bitno_upto(keys, (t - 1) as nat) + keys[t - 1] * pow2(spec_offset(t - 1))
    }
}

/// Bit offset just above the digit at position `t - 1`; 64 once every digit
/// of a `u64` has been consumed.
pub open spec fn spec_span(t: nat) -> nat {
    if t <= 8 {
        spec_offset(t as int)
    } else {
        64
    }
}

/// Digit sequences that can arise from a valid address: the leaf digit is a
/// position inside a 64-bit word, and the topmost digit only spans the two
/// remaining high bits.
pub open spec fn spec_keys_wf(keys: Seq<u8>) -> bool {
    keys.len() == 9 && keys[0] < 64 && keys[8] < 4
}

/// Converts a bit number to and from the per-level digits used to navigate
/// the tree.
#[derive(Debug)]
pub struct Addr {
    /// Smallest level whose range contains the bit number this address was
    /// built from.
    pub node_level: u8,
    /// One digit per level, level 0 first; always 9 entries.
    pub key: Vec<u8>,
}

impl Addr {
    pub open spec fn wf(self) -> bool {
        &&& spec_keys_wf(self.key@)
        &&& self.node_level <= 8
        &&& forall|l: int| self.node_level < l < 9 ==> (#[trigger] self.key@[l]) == 0
    }

    /// The bit number this address denotes: the weighted sum of its digits
    /// up to and including `node_level`.
    pub open spec fn spec_bitno(self) -> int {
        spec_keys_bitno_upto(self.key@, (self.node_level + 1) as nat)
    }

    /// Return the bit mask for this level.
    pub fn mask(level: u8) -> (r: u64)
        ensures
            r == if level <= 8 { (spec_radix(level as int) - 1) as u64 } else { 0u64 },
    {
        if level == 0 {
            0x3f
        } else if level <= 8 {
            0xff
        } else {
            0
        }
    }

    /// Return the max bit number for a node at this level.
    pub fn max_bit(level: u8) -> (r: u64)
        ensures
            r == spec_max_bit(level as int),
    {
        proof {
            lemma2_to64();
            lemma2_to64_rest();
        }
        match level {
            0 => 0x3f,
            1 => 0x3fff,
            2 => 0x3f_ffff,
            3 => 0x3fff_ffff,
            4 => 0x3f_ffff_ffff,
            5 => 0x3fff_ffff_ffff,
            6 => 0x3f_ffff_ffff_ffff,
            7 => 0x3fff_ffff_ffff_ffff,
            8 => u64::MAX,
            _ => 0,
        }
    }

    /// Return the cardinality of a child node from this level.
    pub fn child_max_bit(level: u8) -> (r: u64)
        ensures
            r == spec_child_max_bit(level as int),
    {
        if 1 <= level && level <= 8 {
            Self::max_bit(level - 1)
        } else {
            0
        }
    }

    /// Return bit offset (from u64) for this node level.
    pub fn offset(level: u8) -> (r: u64)
        ensures
            r == spec_offset(level as int),
    {
        if 1 <= level && level <= 8 {
            6 + 8 * ((level - 1) as u64)
        } else {
            0
        }
    }

    /// Extract the digit of `bitno` at `level` by shift and mask.
    pub(crate) fn digit_of(bitno: u64, level: u8) -> (r: u8)
        requires
            level <= 8,
        ensures
            r == spec_key(bitno, level as int),
    {
        let sh = Self::offset(level);
        let m = Self::mask(level);
        proof {
            lemma2_to64();
            lemma_u64_shr_is_div(bitno, sh);
            if level == 0 {
                lemma_u64_low_bits_mask_is_mod(bitno >> sh, 6);
                assert(low_bits_mask(6) == 0x3f) by {
                    lemma2_to64();
                }
            } else {
                lemma_u64_low_bits_mask_is_mod(bitno >> sh, 8);
                assert(low_bits_mask(8) == 0xff) by {
                    lemma2_to64();
                }
            }
        }
        ((bitno >> sh) & m) as u8
    }

    /// Constructor: decompose `bitno` into one digit per level.
    pub fn new(bitno: u64) -> (r: Addr)
        ensures
            r.wf(),
            r.node_level == spec_level_of(bitno),
            forall|l: int| 0 <= l < 9 ==> r.key@[l] == spec_key(bitno, l),
            r.spec_bitno() == bitno,
    {
        let node_level: u8 = if bitno <= 0x3f {
            0
        } else if bitno <= 0x3fff {
            1
        } else if bitno <= 0x3f_ffff {
            2
        } else if bitno <= 0x3fff_ffff {
            3
        } else if bitno <= 0x3f_ffff_ffff {
            4
        } else if bitno <= 0x3fff_ffff_ffff {
            5
        } else if bitno <= 0x3f_ffff_ffff_ffff {
            6
        } else if bitno <= 0x3fff_ffff_ffff_ffff {
            7
        } else {
            8
        };

        let mut key: Vec<u8> = Vec::new();
        let mut l: u8 = 0;
        while l < 9
            invariant
                l <= 9,
                key@.len() == l as int,
                forall|i: int| 0 <= i < l as int ==> key@[i] == spec_key(bitno, i),
            decreases 9 - l as int,
        {
            key.push(Self::digit_of(bitno, l));
            l = l + 1;
        }

        proof {
            lemma_key_bounds(bitno);
            lemma_digits_roundtrip(bitno);
            lemma_keys_bitno_upto_prefix(key@, spec_digits(bitno), (node_level + 1) as nat);
            assert forall|l: int| node_level < l < 9 implies (#[trigger] key@[l]) == 0 by {
                lemma_keys_above_level_zero(bitno, l);
            }
        }
        Addr { node_level, key }
    }

    /// The level of the node that stores this bit number; nodes start at
    /// level 1, so level-0 addresses live in a level-1 node.
    pub fn level(&self) -> (r: u8)
        requires
            self.wf(),
        ensures
            r == if self.node_level == 0 { 1u8 } else { self.node_level },
    {
        if self.node_level == 0 {
            1
        } else {
            self.node_level
        }
    }

    /// Return the key value at `level`; 0 above this address's own level.
    pub fn key(&self, level: u8) -> (r: u8)
        requires
            self.wf(),
        ensures
            r == if level <= 8 { self.key@[level as int] } else { 0u8 },
            level > self.node_level ==> r == 0,
    {
        if level <= 8 {
            self.key[level as usize]
        } else {
            0
        }
    }

    /// Overwrite the digit at `level`, raising `node_level` if needed;
    /// levels above the table are ignored.
    pub fn set(&mut self, level: u8, key: u8)
        requires
            old(self).wf(),
            level == 0 ==> key < 64,
            level == 8 ==> key < 4,
        ensures
            final(self).wf(),
            level <= 8 ==> final(self).key@ == old(self).key@.update(level as int, key),
            level <= 8 ==> final(self).node_level == if level > old(self).node_level {
                level
            } else {
                old(self).node_level
            },
            level > 8 ==> *final(self) == *old(self),
    {
        if level <= 8 {
            self.key[level as usize] = key;
            if level > self.node_level {
                self.node_level = level;
            }
        }
    }

    /// Deep copy.
    pub fn clone(&self) -> (r: Addr)
        ensures
            r.node_level == self.node_level,
            r.key@ == self.key@,
    {
        let mut key: Vec<u8> = Vec::new();
        let mut l: usize = 0;
        while l < self.key.len()
            invariant
                l <= self.key@.len(),
                key@.len() == l as int,
                forall|i: int| 0 <= i < l as int ==> key@[i] == self.key@[i],
            decreases self.key@.len() - l,
        {
            key.push(self.key[l]);
            l = l + 1;
        }
        proof {
            assert(key@ =~= self.key@);
        }
        Addr { node_level: self.node_level, key }
    }

    /// Convert the address back to a bit number.
    pub fn bitno(&self) -> (r: u64)
        requires
            self.wf(),
        ensures
            r == self.spec_bitno(),
    {
        let mut r: u64 = 0;
        let mut l: u8 = 0;
        while l <= self.node_level
            invariant
                self.wf(),
                l <= self.node_level + 1,
                r == spec_keys_bitno_upto(self.key@, l as nat),
            decreases self.node_level + 1 - l as int,
        {
            let d = self.key[l as usize] as u64;
            let sh = Self::offset(l);
            proof {
                lemma_keys_bitno_upto_bound(self.key@, (l + 1) as nat);
                lemma_digit_weight_fits(self.key@, l as nat);
                lemma_u64_shl_is_mul(d, sh);
                lemma2_to64_rest();
                if spec_span((l + 1) as nat) < 64 {
                    vstd::arithmetic::power2::lemma_pow2_strictly_increases(
                        spec_span((l + 1) as nat),
                        64,
                    );
                }
            }
            r = r + (d << sh);
            l = l + 1;
        }
        r
    }

    /// Return the lowest bitno for our address at the given level:
    /// every digit below `level` zeroed.
    pub fn min_bitno(&self, level: u8) -> (r: u64)
        requires
            self.wf(),
        ensures
            level <= 8 ==> r == self.spec_bitno() - self.spec_bitno() % (pow2(
                spec_offset(level as int),
            ) as int),
            level > 8 ==> r == 0,
    {
        if level > 8 {
            return 0;
        }
        let b = self.bitno();
        let sh = Self::offset(level);
        proof {
            lemma_mask_down(b, sh);
        }
        b & (u64::MAX << sh)
    }

    /// Return the highest bitno for our address at the given level:
    /// the lowest bitno plus the full span of one child.
    pub fn max_bitno(&self, level: u8) -> (r: u64)
        requires
            self.wf(),
        ensures
            1 <= level <= 8 ==> r == self.spec_bitno() - self.spec_bitno() % (pow2(
                spec_offset(level as int),
            ) as int) + spec_child_max_bit(level as int),
            !(1 <= level && level <= 8) ==> r == 0,
    {
        if 1 <= level && level <= 8 {
            let lo = self.min_bitno(level);
            let span = Self::child_max_bit(level);
            proof {
                lemma_keys_bitno_upto_bound(self.key@, (self.node_level + 1) as nat);
                lemma2_to64_rest();
                let t = (self.node_level + 1) as nat;
                if spec_span(t) < 64 {
                    vstd::arithmetic::power2::lemma_pow2_strictly_increases(spec_span(t), 64);
                }
                let sh = spec_offset(level as int) as u64;
                lemma_u64_pow2_no_overflow(sh as nat);
                lemma_aligned_plus_span(self.spec_bitno() as u64, sh);
            }
            lo + span
        } else {
            0
        }
    }
}

/// The full digit sequence of a bit number, level 0 first.
pub open spec fn spec_digits(b: u64) -> Seq<u8> {
    Seq::new(9, |l: int| spec_key(b, l))
}

/// The weighted digit sum only reads the digits below position `t`.
pub proof fn lemma_keys_bitno_upto_prefix(keys1: Seq<u8>, keys2: Seq<u8>, t: nat)
    requires
        t <= keys1.len(),
        t <= keys2.len(),
        forall|l: int| 0 <= l < t ==> keys1[l] == keys2[l],
    ensures
        spec_keys_bitno_upto(keys1, t) == spec_keys_bitno_upto(keys2, t),
    decreases t,
{
    if t > 0 {
        lemma_keys_bitno_upto_prefix(keys1, keys2, (t - 1) as nat);
    }
}

/// The weighted sum of the digits of `b` below position `t` equals the low
/// bits of `b` those digits were taken from.
pub proof fn lemma_digits_partial_rebuild(b: u64, t: nat)
    requires
        t <= 9,
    ensures
        spec_keys_bitno_upto(spec_digits(b), t) == (b as nat) % pow2(spec_span(t)),
    decreases t,
{
    lemma2_to64();
    lemma2_to64_rest();
    if t == 0 {
        lemma_small_mod(0, 1);
        assert((b as nat) % pow2(0) == 0) by {
            assert(pow2(0) == 1);
        }
    } else if t == 9 {
        lemma_digits_partial_rebuild(b, 8);
        let q = (b as nat) / pow2(62);
        lemma_multiply_divide_lt(b as int, pow2(62) as int, 4);
        lemma_small_mod(q, 256);
        lemma_fundamental_div_mod(b as int, pow2(62) as int);
        lemma_small_mod(b as nat, pow2(64));
        vstd::arithmetic::mul::lemma_mul_is_commutative(pow2(62) as int, q as int);
    } else {
        let l = (t - 1) as int;
        lemma_digits_partial_rebuild(b, (t - 1) as nat);
        let w = pow2(spec_offset(l)) as int;
        let r = spec_radix(l) as int;
        lemma_mod_breakdown(b as int, w, r);
        if l == 0 {
            lemma_pow2_adds(0, 6);
        } else {
            lemma_pow2_adds(spec_offset(l), 8);
        }
        vstd::arithmetic::mul::lemma_mul_is_commutative(w, ((b as int / w) % r));
    }
}

/// Round trip: rebuilding a bit number from its digit decomposition, up to
/// and including its own level, gives the number back.
pub proof fn lemma_digits_roundtrip(b: u64)
    ensures
        spec_keys_bitno_upto(spec_digits(b), (spec_level_of(b) + 1) as nat) == b,
{
    lemma2_to64();
    lemma2_to64_rest();
    let t = (spec_level_of(b) + 1) as nat;
    lemma_digits_partial_rebuild(b, t);
    lemma_small_mod(b as nat, pow2(spec_span(t)));
}

/// The digits of `b` above its own level are zero.
pub proof fn lemma_keys_above_level_zero(b: u64, l: int)
    requires
        spec_level_of(b) < l <= 8,
    ensures
        spec_key(b, l) == 0,
{
    lemma2_to64();
    lemma2_to64_rest();
    lemma_basic_div(b as int, pow2(spec_offset(l)) as int);
    lemma_small_mod(0, spec_radix(l));
}

/// A bit number within a node's range splits into its digit at the node's
/// level, weighted, plus a remainder that one child can represent.
pub proof fn lemma_digit_split(b: u64, level: int)
    requires
        1 <= level <= 8,
        b <= spec_max_bit(level),
    ensures
        spec_key(b, level) as int * pow2(spec_offset(level)) + (b as int) % (pow2(
            spec_offset(level),
        ) as int) == b,
        (b as int) % (pow2(spec_offset(level)) as int) <= spec_child_max_bit(level),
        level == 8 ==> spec_key(b, 8) < 4,
        spec_key(b, level) as int * pow2(spec_offset(level)) <= b,
{
    lemma2_to64();
    lemma2_to64_rest();
    let w = pow2(spec_offset(level)) as int;
    lemma_fundamental_div_mod(b as int, w);
    if level == 8 {
        lemma_multiply_divide_lt(b as int, w, 4);
        lemma_small_mod(((b as nat) / pow2(62)), 256);
    } else {
        lemma_pow2_adds(spec_offset(level), 8);
        lemma_multiply_divide_lt(b as int, w, 256);
        lemma_small_mod(((b as nat) / pow2(spec_offset(level))), 256);
    }
    let q = b as int / w;
    vstd::arithmetic::mul::lemma_mul_is_commutative(w, q);
    assert(spec_key(b, level) == q);
    vstd::arithmetic::div_mod::lemma_mod_bound(b as int, w);
}

/// A digit at `level`, weighted, plus a child-ranged remainder composes to a
/// bit number with that digit at `level` and the remainder's digits below.
pub proof fn lemma_digit_compose(k: int, s: u64, level: int)
    requires
        1 <= level <= 8,
        0 <= k < spec_radix(level),
        level == 8 ==> k < 4,
        s <= spec_child_max_bit(level),
    ensures
        k * pow2(spec_offset(level)) + s <= spec_max_bit(level),
        spec_key((k * pow2(spec_offset(level)) + s) as u64, level) == k,
        forall|l: int|
            0 <= l < level ==> spec_key((k * pow2(spec_offset(level)) + s) as u64, l) == spec_key(
                s,
                l,
            ),
{
    lemma2_to64();
    lemma2_to64_rest();
    let w = pow2(spec_offset(level)) as int;
    let b = k * w + s;
    assert(s < w);
    assert(k * w + s < (k + 1) * w) by (nonlinear_arith)
        requires
            s < w,
    ;
    if level == 8 {
        assert(4 * w == pow2(64)) by {
            lemma_pow2_adds(2, 62);
        }
        assert(k * w <= 3 * w) by (nonlinear_arith)
            requires
                k <= 3,
                w > 0,
        ;
    } else {
        assert(256 * w == pow2(spec_offset(level) + 8)) by {
            lemma_pow2_adds(8, spec_offset(level));
        }
        assert(k * w <= 255 * w) by (nonlinear_arith)
            requires
                k <= 255,
                w > 0,
        ;
    }
    let bu = b as u64;
    // The digit at `level` itself.
    assert(spec_key(bu, level) == k) by {
        lemma_div_multiples_vanish_fancy(k, s as int, w);
        assert(w * k + s == k * w + s) by (nonlinear_arith);
        lemma_small_mod(k as nat, spec_radix(level));
    }
    // The digits below `level` come from the remainder alone.
    assert forall|l: int| 0 <= l < level implies spec_key(bu, l) == spec_key(s, l) by {
        let wl = pow2(spec_offset(l)) as int;
        let diff = (spec_offset(level) - spec_offset(l)) as nat;
        lemma_pow2_adds(spec_offset(l), diff);
        let m = pow2(diff) as int;
        assert(w == wl * m);
        lemma_hoist_over_denominator(s as int, k * m, wl as nat);
        assert((k * m) * wl == k * (wl * m)) by (nonlinear_arith);
        assert(b / wl == s as int / wl + k * m);
        let r = spec_radix(l) as int;
        let rbits: nat = if l == 0 {
            6
        } else {
            8
        };
        assert(diff >= rbits);
        lemma_pow2_adds(rbits, (diff - rbits) as nat);
        let p = pow2((diff - rbits) as nat) as int;
        assert(m == r * p);
        assert(k * m == r * (k * p)) by (nonlinear_arith)
            requires
                m == r * p,
        ;
        lemma_mod_multiples_vanish(k * p, s as int / wl, r);
        assert((s as int / wl + k * m) == (r * (k * p) + s as int / wl));
    }
}

/// A bit number fits in a node at `l` exactly when its own level is at most
/// `l`.
pub proof fn lemma_level_of_max(b: u64, l: int)
    requires
        0 <= l <= 8,
    ensures
        (b <= spec_max_bit(l)) == (spec_level_of(b) <= l),
{
    lemma2_to64();
    lemma2_to64_rest();
}

/// Taller nodes span larger ranges.
pub proof fn lemma_max_bit_mono(l1: int, l2: int)
    requires
        0 <= l1 <= l2 <= 8,
    ensures
        spec_max_bit(l1) <= spec_max_bit(l2),
{
    lemma2_to64();
    lemma2_to64_rest();
    if l1 < 8 && l2 < 8 && l1 < l2 {
        vstd::arithmetic::power2::lemma_pow2_strictly_increases(
            spec_offset(l1 + 1),
            spec_offset(l2 + 1),
        );
    }
}

/// A value below 64 is its own leaf digit.
pub proof fn lemma_key0_small(t: u64)
    requires
        t < 64,
    ensures
        spec_key(t, 0) == t,
{
    lemma2_to64();
    vstd::arithmetic::div_mod::lemma_div_basics(t as int);
    lemma_small_mod(t as nat, 64);
}

/// Each digit of a bit number is in range: the leaf digit is below 64 and the
/// top digit below 4.
pub proof fn lemma_key_bounds(b: u64)
    ensures
        spec_key(b, 0) < 64,
        spec_key(b, 8) < 4,
{
    lemma2_to64();
    lemma2_to64_rest();
    let q = (b as nat) / pow2(62);
    lemma_multiply_divide_lt(b as int, pow2(62) as int, 4);
    lemma_small_mod(q, 256);
}

/// The weighted digit sum below position `t` stays within the bits those
/// digits occupy.
pub proof fn lemma_keys_bitno_upto_bound(keys: Seq<u8>, t: nat)
    requires
        spec_keys_wf(keys),
        t <= 9,
    ensures
        0 <= spec_keys_bitno_upto(keys, t) < pow2(spec_span(t)),
    decreases t,
{
    lemma2_to64();
    lemma2_to64_rest();
    if t > 0 {
        let l = (t - 1) as nat;
        lemma_keys_bitno_upto_bound(keys, l);
        let w = pow2(spec_offset(l as int));
        let d = keys[l as int] as int;
        let r: int = if l == 0 {
            64
        } else if l == 8 {
            4
        } else {
            256
        };
        assert(d <= r - 1);
        lemma_mul_inequality(d, r - 1, w as int);
        assert(spec_keys_bitno_upto(keys, t) < w + (r - 1) * w);
        assert(w + (r - 1) * w == r * w) by (nonlinear_arith);
        if l == 0 {
            lemma_pow2_adds(6, 0);
            assert(r * w == pow2(6) * pow2(0));
        } else if l == 8 {
            lemma_pow2_adds(2, 62);
            assert(r * w == pow2(2) * pow2(62));
        } else {
            lemma_pow2_adds(8, spec_offset(l as int));
        }
    }
}

/// One weighted digit fits in a `u64`.
pub proof fn lemma_digit_weight_fits(keys: Seq<u8>, l: nat)
    requires
        spec_keys_wf(keys),
        l <= 8,
    ensures
        keys[l as int] * pow2(spec_offset(l as int)) <= u64::MAX,
{
    lemma2_to64();
    lemma2_to64_rest();
    let w = pow2(spec_offset(l as int));
    let d = keys[l as int] as int;
    if l == 8 {
        lemma_mul_inequality(d, 3, w as int);
    } else {
        lemma_mul_inequality(d, 255, w as int);
        lemma_pow2_adds(8, spec_offset(l as int));
        assert(spec_offset(l as int) <= 54);
        vstd::arithmetic::power2::lemma_pow2_strictly_increases(
            (8 + spec_offset(l as int)) as nat,
            64,
        );
    }
}

/// Keeping only the low `sh` bits of `b` gives `b % 2^sh`.
pub proof fn lemma_mask_low(b: u64, sh: u64)
    requires
        sh < 64,
    ensures
        b & ((1u64 << sh) - 1) as u64 == (b as int) % (pow2(sh as nat) as int),
{
    lemma_u64_pow2_no_overflow(sh as nat);
    lemma_u64_shl_is_mul(1u64, sh);
    lemma_u64_low_bits_mask_is_mod(b, sh as nat);
    assert(((1u64 << sh) - 1) as u64 == low_bits_mask(sh as nat) as u64);
}

/// Clearing the low `sh` bits of `b` subtracts `b % 2^sh`.
proof fn lemma_mask_down(b: u64, sh: u64)
    requires
        sh < 64,
    ensures
        b & (u64::MAX << sh) == b as int - (b as int) % (pow2(sh as nat) as int),
{
    lemma_u64_pow2_no_overflow(sh as nat);
    lemma_u64_shl_is_mul(1u64, sh);
    lemma_u64_low_bits_mask_is_mod(b, sh as nat);
    assert(((1u64 << sh) - 1) as u64 == low_bits_mask(sh as nat) as u64);
    assert((b & (u64::MAX << sh)) + (b & (((1u64 << sh) - 1) as u64)) == b) by (bit_vector)
        requires
            sh < 64,
    ;
}

/// An address whose low `sh` bits are cleared can absorb a full low span
/// without overflowing.
proof fn lemma_aligned_plus_span(b: u64, sh: u64)
    requires
        sh < 64,
    ensures
        (b as int - (b as int) % (pow2(sh as nat) as int)) + (pow2(sh as nat) - 1) <= u64::MAX,
{
    let m = pow2(sh as nat) as int;
    lemma_u64_pow2_no_overflow(sh as nat);
    lemma_fundamental_div_mod(b as int, m);
    lemma_pow2_adds(sh as nat, (64 - sh) as nat);
    lemma2_to64();
    lemma2_to64_rest();
    let k = pow2((64 - sh) as nat) as int;
    lemma_multiply_divide_lt(b as int, m, k);
    lemma_mul_inequality(b as int / m, k - 1, m);
    assert((k - 1) * m == k * m - m) by (nonlinear_arith);
    vstd::arithmetic::mul::lemma_mul_is_commutative(m, b as int / m);
    assert(b as int - (b as int) % m == m * (b as int / m));
    assert(m * (b as int / m) <= k * m - m);
    assert(k * m == pow2(64));
}

} // verus!
