//! Per-node digit dictionary: classifies each of the 256 possible digits at
//! one tree level as Materialized ("node"), Run, or Missing, with rank-based
//! lookup into the owning node's content sequence.

use vstd::prelude::*;
use crate::addr::Addr;
use crate::bitvec256::BitVec256;

verus! {

/// Classification of one digit: a fully saturated run, a materialized entry
/// at a content offset, or an absent digit with its insertion offset.
#[derive(Debug)]
pub enum KeyState {
    Run(u8),
    Node(u8, usize),
    Missing(u8, usize),
}

/// Digit index of one tree node: which digits have materialized content
/// ("nodes") and which are fully saturated ("runs").  A digit is never both.
#[derive(Clone, Copy, Debug)]
pub struct KeyIndex {
    pub level: u8,
    /// Digits with a materialized content entry.
    pub nodes: BitVec256,
    /// Digits whose entire sub-range is set.
    pub runs: BitVec256,
}

impl KeyIndex {
    pub open spec fn wf(self) -> bool {
        &&& 1 <= self.level <= 8
        &&& forall|k: int| !(#[trigger] self.nodes.spec_get(k) && self.runs.spec_get(k))
        &&& self.level == 8 ==> forall|k: int|
            4 <= k ==> !(#[trigger] self.nodes.spec_get(k)) && !(#[trigger] self.runs.spec_get(k))
    }

    /// The digit of `a` at this index's level.
    pub open spec fn spec_key_of(self, a: Addr) -> int {
        a.key@[self.level as int] as int
    }

    /// Constructor.
    pub fn new(level: u8) -> (r: KeyIndex)
        requires
            1 <= level <= 8,
        ensures
            r.wf(),
            r.level == level,
            forall|k: int| !(#[trigger] r.nodes.spec_get(k)),
            forall|k: int| !(#[trigger] r.runs.spec_get(k)),
    {
        KeyIndex { level, nodes: BitVec256::new(), runs: BitVec256::new() }
    }

    /// Return true if the runs vector is full.
    pub fn is_all_runs(&self) -> (r: bool)
        ensures
            r == forall|k: int| 0 <= k < 256 ==> #[trigger] self.runs.spec_get(k),
    {
        self.runs.is_full()
    }

    /// Marks runs vector as all set.  Only meaningful on an index with no
    /// materialized digits, such as a freshly created node's.
    pub fn set_all_runs(&mut self)
        requires
            old(self).wf(),
            old(self).level < 8,
            forall|k: int| !(#[trigger] old(self).nodes.spec_get(k)),
        ensures
            final(self).wf(),
            final(self).level == old(self).level,
            final(self).nodes == old(self).nodes,
            forall|k: int| #[trigger] final(self).runs.spec_get(k) == (0 <= k < 256),
    {
        self.runs.set_all();
    }

    /// Return true if nodes vector is all 0s.
    pub fn is_nodes_empty(&self) -> (r: bool)
        ensures
            r == forall|k: int| !(#[trigger] self.nodes.spec_get(k)),
    {
        self.nodes.is_empty()
    }

    /// Return true if nodes vector is all 1s.
    pub fn is_nodes_full(&self) -> (r: bool)
        ensures
            r == forall|k: int| 0 <= k < 256 ==> #[trigger] self.nodes.spec_get(k),
    {
        self.nodes.is_full()
    }

    /// Return true if runs vector is all 0s.
    pub fn is_runs_empty(&self) -> (r: bool)
        ensures
            r == forall|k: int| !(#[trigger] self.runs.spec_get(k)),
    {
        self.runs.is_empty()
    }

    /// Return true if runs vector is all 1s.
    pub fn is_runs_full(&self) -> (r: bool)
        ensures
            r == forall|k: int| 0 <= k < 256 ==> #[trigger] self.runs.spec_get(k),
    {
        self.runs.is_full()
    }

    /// Return true if this Addr's digit is materialized.
    pub fn is_node(&self, addr: &Addr) -> (r: bool)
        requires
            self.wf(),
            addr.wf(),
        ensures
            r == self.nodes.spec_get(self.spec_key_of(*addr)),
    {
        let key = self.key(addr);
        self.nodes.get(key)
    }

    /// Return true if this Addr's digit is a run.
    pub fn is_run(&self, addr: &Addr) -> (r: bool)
        requires
            self.wf(),
            addr.wf(),
        ensures
            r == self.runs.spec_get(self.spec_key_of(*addr)),
    {
        let key = self.key(addr);
        self.runs.get(key)
    }

    /// Classify this address's digit as Run, Node (with its content offset)
    /// or Missing (with its insertion offset).
    pub fn search(&self, addr: &Addr) -> (r: KeyState)
        requires
            self.wf(),
            addr.wf(),
        ensures
            ({
                let k = self.spec_key_of(*addr);
                match r {
                    KeyState::Run(key) => key == k && self.runs.spec_get(k),
                    KeyState::Node(key, offset) => key == k && self.nodes.spec_get(k)
                        && !self.runs.spec_get(k) && offset == self.nodes.spec_rank(k as nat),
                    KeyState::Missing(key, offset) => key == k && !self.nodes.spec_get(k)
                        && !self.runs.spec_get(k) && offset == self.nodes.spec_rank(k as nat),
                }
            }),
    {
        let key = self.key(addr);
        if self.runs.get(key) {
            KeyState::Run(key)
        } else {
            match self.nodes.offset(key) {
                Ok(offset) => KeyState::Node(key, offset as usize),
                Err(offset) => KeyState::Missing(key, offset as usize),
            }
        }
    }

    /// Return the content offset corresponding to this Addr's digit,
    /// whether or not the digit is materialized.
    pub fn offset(&self, addr: &Addr) -> (r: usize)
        requires
            self.wf(),
            addr.wf(),
        ensures
            r == self.nodes.spec_rank(self.spec_key_of(*addr) as nat),
    {
        let key = self.key(addr);
        match self.nodes.offset(key) {
            Ok(offset) => offset as usize,
            Err(offset) => offset as usize,
        }
    }

    /// Return the key value for this Addr at our level.
    pub fn key(&self, addr: &Addr) -> (r: u8)
        requires
            self.wf(),
            addr.wf(),
        ensures
            r == self.spec_key_of(*addr),
    {
        addr.key(self.level)
    }

    /// Mark this digit as a run: its whole sub-range is set and any
    /// materialized entry has already been removed by the caller.
    pub fn run(&mut self, addr: &Addr)
        requires
            old(self).wf(),
            addr.wf(),
        ensures
            final(self).wf(),
            final(self).level == old(self).level,
            ({
                let k = old(self).spec_key_of(*addr);
                &&& forall|j: int| #[trigger]
                    final(self).nodes.spec_get(j) == (old(self).nodes.spec_get(j) && j != k)
                &&& forall|j: int| #[trigger]
                    final(self).runs.spec_get(j) == (old(self).runs.spec_get(j) || j == k)
            }),
    {
        let key = self.key(addr);
        self.nodes.clear(key);
        self.runs.set(key);
    }

    /// Mark this digit as materialized.
    pub fn set(&mut self, addr: &Addr)
        requires
            old(self).wf(),
            addr.wf(),
        ensures
            final(self).wf(),
            final(self).level == old(self).level,
            ({
                let k = old(self).spec_key_of(*addr);
                &&& forall|j: int| #[trigger]
                    final(self).nodes.spec_get(j) == (old(self).nodes.spec_get(j) || j == k)
                &&& forall|j: int| #[trigger]
                    final(self).runs.spec_get(j) == (old(self).runs.spec_get(j) && j != k)
            }),
    {
        let key = self.key(addr);
        self.nodes.set(key);
        self.runs.clear(key);
    }

    /// Remove this digit from the index entirely.
    pub fn clear(&mut self, addr: &Addr)
        requires
            old(self).wf(),
            addr.wf(),
        ensures
            final(self).wf(),
            final(self).level == old(self).level,
            ({
                let k = old(self).spec_key_of(*addr);
                &&& forall|j: int| #[trigger]
                    final(self).nodes.spec_get(j) == (old(self).nodes.spec_get(j) && j != k)
                &&& forall|j: int| #[trigger]
                    final(self).runs.spec_get(j) == (old(self).runs.spec_get(j) && j != k)
            }),
    {
        let key = self.key(addr);
        self.nodes.clear(key);
        self.runs.clear(key);
    }

    /// Set a node bit directly.  Used when a taller root adopts its first
    /// child at digit 0.
    pub fn set_node_bit(&mut self, bitno: u8)
        requires
            old(self).wf(),
            !old(self).runs.spec_get(bitno as int),
            old(self).level == 8 ==> bitno < 4,
        ensures
            final(self).wf(),
            final(self).level == old(self).level,
            final(self).runs == old(self).runs,
            forall|j: int| #[trigger]
                final(self).nodes.spec_get(j) == (old(self).nodes.spec_get(j) || j == bitno as int),
    {
        self.nodes.set(bitno);
    }

    /// Whether digit `k` is present in the index at all, as a run or as a
    /// materialized entry.
    pub open spec fn spec_present(self, k: int) -> bool {
        self.nodes.spec_get(k) || self.runs.spec_get(k)
    }

    /// The smallest present digit at `from` or above, if any.
    pub fn next_key(&self, from: u16) -> (r: Option<u8>)
        requires
            self.wf(),
        ensures
            match r {
                Some(k) => from <= k as u16 && self.spec_present(k as int) && forall|j: int|
                    from <= j < k as int ==> !self.spec_present(j),
                None => forall|j: int| from <= j ==> !self.spec_present(j),
            },
    {
        let union = self.nodes.bitor(&self.runs);
        match union.next_set(from) {
            None => {
                proof {
                    assert forall|j: int| from <= j implies !self.spec_present(j) by {
                        assert(!union.spec_get(j));
                    }
                }
                None
            },
            Some(k) => {
                proof {
                    assert(union.spec_get(k as int));
                    assert forall|j: int| from <= j < k as int implies !self.spec_present(j) by {
                        assert(!union.spec_get(j));
                    }
                }
                Some(k)
            },
        }
    }

    /// Return the raw word at `offset` of the materialized-digit vector.
    pub fn raw_data(&self, offset: u8) -> (r: u64)
        requires
            offset < 4,
        ensures
            r == self.nodes.spec_word(offset as int),
    {
        self.nodes.raw_data(offset)
    }

    /// Return an iterator over the digits present in this index, ascending,
    /// each classified as in `search`.
    pub fn iter(&self) -> (r: KeyIndexIterator)
        requires
            self.wf(),
        ensures
            r.wf(),
            r.nodes == self.nodes,
            r.runs == self.runs,
            r.curr == 0,
    {
        KeyIndexIterator { nodes: self.nodes, runs: self.runs, curr: 0, node_offset: 0 }
    }
}

/// Iterator over a digit index: yields the sequence of present digits in
/// ascending order, each as a `KeyState` with sequential content offsets.
#[derive(Clone, Copy, Debug)]
pub struct KeyIndexIterator {
    pub nodes: BitVec256,
    pub runs: BitVec256,
    pub curr: u16,
    pub node_offset: usize,
}

impl KeyIndexIterator {
    pub open spec fn wf(self) -> bool {
        &&& self.curr <= 256
        &&& self.node_offset == self.nodes.spec_rank(self.curr as nat)
        &&& forall|k: int| !(#[trigger] self.nodes.spec_get(k) && self.runs.spec_get(k))
    }

    /// Classification of digit `k`, as `search` would give it.
    pub open spec fn spec_entry(self, k: int) -> KeyState {
        if self.runs.spec_get(k) {
            KeyState::Run(k as u8)
        } else {
            KeyState::Node(k as u8, self.nodes.spec_rank(k as nat) as usize)
        }
    }

    /// Whether digit `k` is present in the index at all.
    pub open spec fn spec_present(self, k: int) -> bool {
        self.nodes.spec_get(k) || self.runs.spec_get(k)
    }

    /// The next present digit at or above the cursor, advancing past it.
    pub fn next(&mut self) -> (r: Option<KeyState>)
        requires
            old(self).wf(),
        ensures
            final(self).wf(),
            final(self).nodes == old(self).nodes,
            final(self).runs == old(self).runs,
            match r {
                Some(state) => {
                    exists|k: int|
                        {
                            &&& #[trigger] old(self).spec_present(k)
                            &&& old(self).curr <= k < 256
                            &&& forall|j: int|
                                old(self).curr <= j < k ==> !old(self).spec_present(j)
                            &&& state == old(self).spec_entry(k)
                            &&& final(self).curr == k + 1
                        }
                },
                None => {
                    &&& forall|j: int| old(self).curr <= j ==> !old(self).spec_present(j)
                    &&& final(self).curr == old(self).curr
                },
            },
    {
        let union = self.nodes.bitor(&self.runs);
        match union.next_set(self.curr) {
            None => {
                proof {
                    assert forall|j: int| old(self).curr <= j implies !old(self).spec_present(
                        j,
                    ) by {
                        assert(!union.spec_get(j));
                    }
                }
                None
            },
            Some(k) => {
                proof {
                    assert(union.spec_get(k as int));
                    assert forall|j: int|
                        old(self).curr <= j < k as int implies !old(self).spec_present(j) by {
                        assert(!union.spec_get(j));
                    }
                    assert forall|j: int|
                        old(self).curr <= j < k as int implies !self.nodes.spec_get(j) by {
                        assert(!union.spec_get(j));
                    }
                    self.nodes.lemma_rank_unset_range(self.curr as nat, k as nat);
                    self.nodes.lemma_rank_bound(k as nat);
                }
                let result: KeyState;
                if self.runs.get(k) {
                    result = KeyState::Run(k);
                    proof {
                        assert(!self.nodes.spec_get(k as int));
                        self.nodes.lemma_rank_unset_range(k as nat, (k + 1) as nat);
                    }
                } else {
                    result = KeyState::Node(k, self.node_offset);
                    self.node_offset = self.node_offset + 1;
                }
                self.curr = k as u16 + 1;
                proof {
                    let kk = k as int;
                    assert(old(self).spec_present(kk));
                    assert(result == old(self).spec_entry(kk));
                    assert(final(self).curr == kk + 1);
                }
                Some(result)
            },
        }
    }
}

} // verus!
