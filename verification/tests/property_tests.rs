use bitfoo::{Addr, BitFoo, BitVec256, Node};

// Round trip: decomposing a bit number into an address and rebuilding it
// gives the number back, across level boundaries.
#[test]
fn round_trip_samples() {
    for b in [
        0_u64,
        1,
        0x3f,
        0x40,
        0x3fff,
        0x4000,
        0x3f_ffff,
        0x40_0000,
        0x3fff_ffff,
        0x4000_0000,
        1 << 62,
        u64::MAX,
    ] {
        assert_eq!(Addr::new(b).bitno(), b);
    }
}

// Set/iterate agreement: inserting a set of values in scrambled order and
// iterating yields exactly the ascending sequence, without duplicates.
#[test]
fn set_iterate_agreement() {
    let scrambled = [
        0x4000_u64,
        7,
        u64::MAX,
        0x3f,
        0x3fff,
        64,
        65,
        0x40_0000,
        1,
        7,  // duplicate insert on purpose
    ];
    let mut sorted: Vec<u64> = scrambled.to_vec();
    sorted.sort();
    sorted.dedup();

    let mut bv = BitFoo::new();
    for b in &scrambled {
        bv.set(*b);
    }

    let mut out = Vec::new();
    let mut it = bv.iter();
    while let Some(b) = it.next() {
        out.push(b);
    }
    assert_eq!(sorted, out);
}

// Idempotence: setting a bit twice leaves the same observable state as
// once, and clearing an unset bit is a no-op.
#[test]
fn idempotence() {
    let mut once = BitFoo::new();
    let mut twice = BitFoo::new();
    for b in [5_u64, 0x4000, u64::MAX] {
        once.set(b);
        twice.set(b);
        twice.set(b);
    }
    twice.clear(99);  // 99 was never set
    for b in [0_u64, 5, 99, 0x3fff, 0x4000, u64::MAX] {
        assert_eq!(once.get(b), twice.get(b));
    }
}

// Run formation: filling one leaf word's range bit by bit turns the digit
// into a run and drops the materialized word.
#[test]
fn run_formation() {
    let mut node = Node::new(1);
    for b in 64_u64..=127 {
        // Bits not yet set in the range read false throughout.
        for probe in b..=127 {
            assert_eq!(node.get(&Addr::new(probe)), false);
        }
        node.set(&Addr::new(b));
    }
    let addr = Addr::new(64);
    assert_eq!(node.index.is_run(&addr), true);
    assert_eq!(node.index.is_node(&addr), false);
    for b in 64_u64..=127 {
        assert_eq!(node.get(&Addr::new(b)), true);
    }
}

// Run explosion: clearing one bit of a fully-set run rematerializes the
// digit with every other bit still set.
#[test]
fn run_explosion() {
    let mut node = Node::new(1);
    for b in 64_u64..=127 {
        node.set(&Addr::new(b));
    }
    let addr = Addr::new(64);
    assert_eq!(node.index.is_run(&addr), true);

    node.clear(&Addr::new(64));
    assert_eq!(node.index.is_run(&addr), false);
    assert_eq!(node.index.is_node(&addr), true);
    assert_eq!(node.get(&Addr::new(64)), false);
    for b in 65_u64..=127 {
        assert_eq!(node.get(&Addr::new(b)), true);
    }
}

// Clone independence: after clone(), mutating the original does not affect
// the clone and vice versa.
#[test]
fn clone_independence() {
    let mut original = BitFoo::new();
    original.set(3);
    original.set(0x4000);

    let mut copy = original.clone();
    original.set(10);
    copy.clear(3);
    copy.set(77);

    assert_eq!(original.get(3), true);
    assert_eq!(original.get(10), true);
    assert_eq!(original.get(77), false);
    assert_eq!(copy.get(3), false);
    assert_eq!(copy.get(10), false);
    assert_eq!(copy.get(77), true);
    assert_eq!(copy.get(0x4000), true);
}

// Range computation: minimum and maximum bit numbers match the brute-force
// mask-below-level definition.
#[test]
fn range_computation() {
    for level in 1_u8..=8 {
        for b in [0_u64, 1, 0x40, 0x3fff, 0x123_4567, 1 << 62, u64::MAX] {
            let addr = Addr::new(b);
            let mask = u64::MAX << Addr::offset(level);
            assert_eq!(addr.min_bitno(level), b & mask);
            assert_eq!(addr.max_bitno(level), (b & mask) + Addr::max_bit(level - 1));
        }
    }
}

// Root growth preserves data: a low bit survives inserting a bit that
// forces a taller root.
#[test]
fn root_growth_preserves_data() {
    let mut bv = BitFoo::new();
    bv.set(1);
    assert_eq!(bv.level(), 1);
    bv.set(u64::MAX);
    assert_eq!(bv.level(), 8);
    assert_eq!(bv.get(1), true);
    assert_eq!(bv.get(u64::MAX), true);
    assert_eq!(bv.get(2), false);
}

// End-to-end example with exact expected iteration output.
#[test]
fn end_to_end_example() {
    let mut bv = BitFoo::new();
    for b in [0_u64, 1, 0x3f, 0x40, 0x3fff, 0x4000, u64::MAX] {
        bv.set(b);
    }
    let mut out = Vec::new();
    let mut it = bv.iter();
    while let Some(b) = it.next() {
        out.push(b);
    }
    assert_eq!(out, vec![0, 1, 63, 64, 16383, 16384, 18446744073709551615]);
}

// Level table formulas: shift amounts and max-representable values.
#[test]
fn level_table_values() {
    assert_eq!(Addr::offset(0), 0);
    assert_eq!(Addr::offset(1), 6);
    assert_eq!(Addr::offset(2), 14);
    assert_eq!(Addr::offset(8), 62);
    assert_eq!(Addr::offset(9), 0);
    assert_eq!(Addr::mask(0), 0x3f);
    assert_eq!(Addr::mask(1), 0xff);
    assert_eq!(Addr::mask(9), 0);
    assert_eq!(Addr::max_bit(0), 0x3f);
    assert_eq!(Addr::max_bit(1), 0x3fff);
    assert_eq!(Addr::max_bit(7), 0x3fff_ffff_ffff_ffff);
    assert_eq!(Addr::max_bit(8), u64::MAX);
    assert_eq!(Addr::child_max_bit(1), 0x3f);
    assert_eq!(Addr::child_max_bit(8), 0x3fff_ffff_ffff_ffff);
    assert_eq!(Addr::child_max_bit(0), 0);
}

// The offset computation reports the insertion point of an absent key.
#[test]
fn offset_err_insertion_point() {
    let mut v = BitVec256::new();
    v.set(3);
    v.set(10);
    v.set(200);
    assert_eq!(v.offset(0), Err(0));
    assert_eq!(v.offset(3), Ok(0));
    assert_eq!(v.offset(7), Err(1));
    assert_eq!(v.offset(10), Ok(1));
    assert_eq!(v.offset(150), Err(2));
    assert_eq!(v.offset(200), Ok(2));
    assert_eq!(v.offset(255), Err(3));
}

// An iterator taken before later mutations keeps yielding the snapshot.
#[test]
fn iterator_snapshot() {
    let mut bv = BitFoo::new();
    bv.set(1);
    bv.set(2);
    let mut it = bv.iter();
    bv.set(3);
    let mut out = Vec::new();
    while let Some(b) = it.next() {
        out.push(b);
    }
    assert_eq!(out, vec![1, 2]);
    assert_eq!(bv.get(3), true);
}
