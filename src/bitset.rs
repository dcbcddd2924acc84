//! Fixed-size visited set over node ids.
use vstd::prelude::*;
use vstd::set_lib::{lemma_int_range, lemma_len_subset, set_int_range};

verus! {

/// Hard capacity of node ids: every id lies in `[0, MAX_NODE_COUNT)`.
pub const MAX_NODE_COUNT: usize = 2048;

/// Number of 64-bit words that hold one bit per possible node id.
pub const BITSET_WORDS: usize = 32;

/// Whether bit `b` of word `w` is set.
pub open spec fn word_has(w: u64, b: u64) -> bool {
    (w >> b) & 1u64 == 1u64
}

proof fn lemma_bit_or(w: u64, b: u64, j: u64)
    requires
        b < 64,
        j < 64,
    ensures
        word_has(w | (1u64 << b), j) == (j == b || word_has(w, j)),
{
    assert(((w | (1u64 << b)) >> j) & 1u64 == 1u64 <==> (j == b || (w >> j) & 1u64 == 1u64))
        by (bit_vector)
        requires
            b < 64,
            j < 64,
    ;
}

proof fn lemma_bit_clear(w: u64, b: u64, j: u64)
    requires
        b < 64,
        j < 64,
    ensures
        word_has(w & !(1u64 << b), j) == (j != b && word_has(w, j)),
{
    assert(((w & !(1u64 << b)) >> j) & 1u64 == 1u64 <==> (j != b && (w >> j) & 1u64 == 1u64))
        by (bit_vector)
        requires
            b < 64,
            j < 64,
    ;
}

proof fn lemma_bit_zero(j: u64)
    requires
        j < 64,
    ensures
        !word_has(0u64, j),
{
    assert((0u64 >> j) & 1u64 != 1u64) by (bit_vector);
}

/// A set of node ids below `MAX_NODE_COUNT`, one bit per id, with its
/// cardinality kept alongside so that `count` is O(1).
#[derive(Clone, Copy)]
pub struct NodeBitset {
    data: [u64; BITSET_WORDS],
    len: usize,
}

impl View for NodeBitset {
    type V = Set<int>;

    closed spec fn view(&self) -> Set<int> {
        Set::new(
            |n: int|
                0 <= n < MAX_NODE_COUNT && word_has(self.data@[n / 64], (n % 64) as u64),
        )
    }
}

impl NodeBitset {
    /// The set is finite, its ids are in range and `len` is its cardinality.
    pub closed spec fn wf(&self) -> bool {
        &&& self@.finite()
        &&& self@.len() == self.len
        &&& forall|n: int| #[trigger] self@.contains(n) ==> 0 <= n < MAX_NODE_COUNT
    }

    /// A well-formed set is finite, holds ids in range, and so holds at most
    /// `MAX_NODE_COUNT` of them.
    pub proof fn lemma_bounded(&self)
        requires
            self.wf(),
        ensures
            self@.finite(),
            self@.len() <= MAX_NODE_COUNT,
            forall|n: int| #[trigger] self@.contains(n) ==> 0 <= n < MAX_NODE_COUNT,
    {
        Self::lemma_len_bound(self@);
    }

    proof fn lemma_len_bound(s: Set<int>)
        requires
            forall|n: int| #[trigger] s.contains(n) ==> 0 <= n < MAX_NODE_COUNT,
        ensures
            s.finite(),
            s.len() <= MAX_NODE_COUNT,
    {
        lemma_int_range(0, MAX_NODE_COUNT as int);
        assert(s.subset_of(set_int_range(0, MAX_NODE_COUNT as int)));
        lemma_len_subset(s, set_int_range(0, MAX_NODE_COUNT as int));
    }

    /// An empty set.
    pub fn new() -> (r: Self)
        ensures
            r.wf(),
            r@ == Set::<int>::empty(),
    {
        let r = NodeBitset { data: [0u64; BITSET_WORDS], len: 0 };
        assert forall|n: int| !r@.contains(n) by {
            if 0 <= n < MAX_NODE_COUNT {
                lemma_bit_zero((n % 64) as u64);
            }
        }
        assert(r@ =~= Set::<int>::empty());
        r
    }

    /// Adds `node_id` to the set.
    pub fn set(&mut self, node_id: u32)
        requires
            old(self).wf(),
            (node_id as int) < MAX_NODE_COUNT,
        ensures
            final(self).wf(),
            final(self)@ == old(self)@.insert(node_id as int),
    {
        let idx = node_id as usize;
        let arr_idx = idx / 64;
        let bit_idx = (idx % 64) as u64;
        let had = self.contains(node_id);
        let ghost before = self@;
        let w = self.data[arr_idx];
        self.data[arr_idx] = w | (1u64 << bit_idx);
        assert forall|n: int| #[trigger] self@.contains(n) == before.insert(node_id as int).contains(n) by {
            if 0 <= n < MAX_NODE_COUNT {
                if n / 64 == arr_idx as int {
                    lemma_bit_or(w, bit_idx, (n % 64) as u64);
                }
            }
        }
        assert(self@ =~= before.insert(node_id as int));
        proof {
            Self::lemma_len_bound(self@);
        }
        if !had {
            self.len = self.len + 1;
        }
    }

    /// Removes `node_id` from the set.
    pub fn clear(&mut self, node_id: u32)
        requires
            old(self).wf(),
            (node_id as int) < MAX_NODE_COUNT,
        ensures
            final(self).wf(),
            final(self)@ == old(self)@.remove(node_id as int),
    {
        let idx = node_id as usize;
        let arr_idx = idx / 64;
        let bit_idx = (idx % 64) as u64;
        let had = self.contains(node_id);
        let ghost before = self@;
        let w = self.data[arr_idx];
        self.data[arr_idx] = w & !(1u64 << bit_idx);
        if had {
            self.len = self.len - 1;
        }
        assert forall|n: int| #[trigger] self@.contains(n) == before.remove(node_id as int).contains(n) by {
            if 0 <= n < MAX_NODE_COUNT {
                if n / 64 == arr_idx as int {
                    lemma_bit_clear(w, bit_idx, (n % 64) as u64);
                }
            }
        }
        assert(self@ =~= before.remove(node_id as int));
    }

    /// Whether `node_id` is in the set.
    pub fn contains(&self, node_id: u32) -> (r: bool)
        requires
            self.wf(),
            (node_id as int) < MAX_NODE_COUNT,
        ensures
            r == self@.contains(node_id as int),
    {
        let idx = node_id as usize;
        let arr_idx = idx / 64;
        let bit_idx = (idx % 64) as u64;
        (self.data[arr_idx] >> bit_idx) & 1u64 == 1u64
    }

    /// Number of ids in the set.
    pub fn count(&self) -> (r: usize)
        requires
            self.wf(),
        ensures
            r == self@.len(),
    {
        self.len
    }
}

} // verus!
