//! Trait defining the common interface for KV manager backends.

use vstd::prelude::*;
use crate::common::protocols::{
    MoveBlock, PositionalLineageHash, PrefillCost, Signal, UniqueBlock,
};
use crate::common::sequence::ActiveSequence;
use crate::common::sequence_model;
use crate::common::sequence_model::SequenceState;
use crate::kv_manager::accounting;

verus! {

/// The number of leading places that hold `true`.
pub open spec fn leading(hits: Seq<bool>) -> nat
    decreases hits.len(),
{
    if hits.len() > 0 && hits.first() {
        1 + leading(hits.drop_first())
    } else {
        0
    }
}

/// The leading `true` places end at the first `false`, or at the end.
pub proof fn lemma_leading(hits: Seq<bool>, n: int)
    requires
        0 <= n <= hits.len(),
        forall|i: int| 0 <= i < n ==> hits[i],
        n < hits.len() ==> !hits[n],
    ensures
        leading(hits) == n,
    decreases n,
{
    if n > 0 {
        assert(hits[0]);
        assert forall|i: int| 0 <= i < n - 1 implies hits.drop_first()[i] by {
            assert(hits[i + 1]);
        }
        lemma_leading(hits.drop_first(), n - 1);
    }
}

/// Where the first places hold `true`, the leading ones are at least these.
pub proof fn lemma_leading_at_least(hits: Seq<bool>, n: int)
    requires
        0 <= n <= hits.len(),
        forall|i: int| 0 <= i < n ==> hits[i],
    ensures
        n <= leading(hits) <= hits.len(),
    decreases hits.len(),
{
    if hits.len() > 0 && hits.first() {
        let less = if n > 0 {
            n - 1
        } else {
            0
        };
        assert forall|i: int| 0 <= i < less implies hits.drop_first()[i] by {
            assert(hits[i + 1]);
        }
        lemma_leading_at_least(hits.drop_first(), less);
    } else if n > 0 {
        assert(hits[0]);
    }
}

/// The lineage hash of block `i` of a sequence, if the block is complete.
pub open spec fn lineage_hash_at(s: SequenceState, i: int) -> Option<PositionalLineageHash> {
    let lineage_hashes = sequence_model::lineage_hashes_of(s.tokens, s.block_size);
    if i < lineage_hashes.len() {
        Some(lineage_hashes[i])
    } else {
        None
    }
}

/// The number of input tokens in the first `blocks` blocks of a sequence.
pub open spec fn tokens_in(s: SequenceState, blocks: nat, tokens_per_block: nat) -> nat {
    if blocks * tokens_per_block <= s.num_input_tokens {
        blocks * tokens_per_block
    } else {
        s.num_input_tokens
    }
}

/// For each block of a sequence, whether it is complete and cached.
pub open spec fn cached_blocks(
    cached: spec_fn(u64, Option<PositionalLineageHash>) -> bool,
    s: SequenceState,
) -> Seq<bool> {
    Seq::new(
        s.unique_blocks.len(),
        |i: int|
            match s.unique_blocks[i] {
                UniqueBlock::FullBlock(seq_hash) => cached(seq_hash, lineage_hash_at(s, i)),
                UniqueBlock::PartialBlock(_) => false,
            },
    )
}

/// The blocks and input tokens of a sequence that are not in its longest cached prefix.
pub open spec fn prefill_cost(
    cached: spec_fn(u64, Option<PositionalLineageHash>) -> bool,
    tokens_per_block: nat,
    s: SequenceState,
) -> PrefillCost {
    let overlap = leading(cached_blocks(cached, s));
    PrefillCost {
        new_blocks: (s.unique_blocks.len() - overlap) as usize,
        new_tokens: (s.num_input_tokens - tokens_in(s, overlap, tokens_per_block)) as usize,
    }
}

/// The number of `blocks` that are not among those present.
pub open spec fn count_new(blocks: Seq<UniqueBlock>, present: Set<UniqueBlock>) -> nat {
    blocks.filter(|b: UniqueBlock| !present.contains(b)).len()
}

/// Common interface implemented by each KV manager backend.
///
/// Required methods capture the per-backend logic (allocation, eviction, block lifecycle), while
/// default methods provide shared derived computations.
pub trait KvBackend: Sized {
    /// The backend is in order.
    spec fn valid(&self) -> bool;

    /// The signal has a defined outcome.
    spec fn accepts(&self, signal: Signal) -> bool;

    /// Processing `signal` may leave the backend as `after`, with the result `ok`.
    spec fn leads_to(&self, signal: Signal, after: &Self, ok: bool) -> bool;

    /// The blocks in use with the references on them.
    spec fn active(&self) -> Map<UniqueBlock, nat>;

    /// The number of blocks in the inactive pool.
    spec fn num_inactive(&self) -> nat;

    /// The blocks in all pools.
    spec fn present(&self) -> Set<UniqueBlock>;

    /// The blocks kept for reuse: those in all pools but the active one.
    spec fn reusable(&self) -> Set<UniqueBlock>;

    /// The complete blocks that can be found without computing them, by hash and lineage hash.
    spec fn cached(&self) -> spec_fn(u64, Option<PositionalLineageHash>) -> bool;

    /// The number of block slots.
    spec fn capacity(&self) -> nat;

    /// The number of tokens per block.
    spec fn tokens_per_block(&self) -> nat;

    /// The counters of the backend can still grow by `n`.
    spec fn headroom(&self, n: nat) -> bool;

    /// A backend that is in order keeps within its capacity, and counts a reference for each
    /// block in use.
    proof fn lemma_valid(&self)
        requires
            self.valid(),
        ensures
            self.active().dom().finite(),
            accounting::counted(self.active()),
            self.present() == self.active().dom().union(self.reusable()),
            0 < self.capacity() <= usize::MAX,
            self.active().dom().len() + self.num_inactive() <= self.capacity(),
    ;

    /// What can grow by some number can grow by less.
    proof fn lemma_headroom(&self, n: nat, m: nat)
        requires
            self.headroom(n),
            m <= n,
        ensures
            self.headroom(m),
    ;

    /// A signal that is in order has a defined outcome.
    proof fn lemma_accepts(&self, signal: Signal)
        requires
            self.valid(),
            accounting::sound(self.active(), self.present(), signal),
            self.headroom(accounting::cost(signal)),
        ensures
            self.accepts(signal),
    ;

    /// What is known of a backend that has processed a signal.
    proof fn lemma_leads_to(&self, signal: Signal, after: &Self, ok: bool)
        requires
            self.valid(),
            self.accepts(signal),
            self.leads_to(signal, after, ok),
        ensures
            after.valid(),
            accounting::settled(self.active(), signal, self.capacity(), after.active(), ok),
            after.capacity() == self.capacity(),
            after.tokens_per_block() == self.tokens_per_block(),
            forall|b: UniqueBlock| #[trigger]
                after.present().contains(b) ==> self.present().contains(b) || accounting::names(
                    signal,
                    b,
                ),
            forall|b: UniqueBlock| #[trigger]
                after.reusable().contains(b) ==> self.reusable().contains(b)
                    || accounting::releases(signal, b),
            forall|n: nat| #[trigger]
                self.headroom(n + accounting::cost(signal)) ==> after.headroom(n),
    ;

    /// Process a `MoveBlock` instruction. Returns `false` when allocation fails (the scheduler
    /// uses this to trigger preemption).
    fn process(&mut self, event: &MoveBlock) -> (r: bool)
        requires
            old(self).valid(),
            old(self).accepts(event@),
        ensures
            final(self).valid(),
            old(self).leads_to(event@, final(self), r),
            accounting::settled(
                old(self).active(),
                event@,
                old(self).capacity(),
                final(self).active(),
                r,
            ),
            final(self).capacity() == old(self).capacity(),
            final(self).tokens_per_block() == old(self).tokens_per_block(),
            forall|b: UniqueBlock| #[trigger]
                final(self).present().contains(b) ==> old(self).present().contains(b)
                    || accounting::names(event@, b),
            forall|b: UniqueBlock| #[trigger]
                final(self).reusable().contains(b) ==> old(self).reusable().contains(b)
                    || accounting::releases(event@, b),
            forall|n: nat| #[trigger]
                old(self).headroom(n + accounting::cost(event@)) ==> final(self).headroom(n),
    ;

    /// Total number of block slots available to this backend.
    fn max_capacity(&self) -> (n: usize)
        requires
            self.valid(),
        ensures
            n == self.capacity(),
    ;

    /// Number of tokens per block.
    fn block_size(&self) -> (n: usize)
        ensures
            n == self.tokens_per_block(),
    ;

    /// Number of blocks currently held by active requests.
    fn num_active_blocks(&self) -> (n: usize)
        requires
            self.valid(),
        ensures
            n == self.active().dom().len(),
    ;

    /// Number of blocks in the inactive (reclaimable) pool.
    fn num_inactive_blocks(&self) -> (n: usize)
        requires
            self.valid(),
        ensures
            n == self.num_inactive(),
    ;

    /// Total blocks currently in use (active + inactive).
    fn current_capacity(&self) -> (n: usize)
        requires
            self.valid(),
        ensures
            n == self.active().dom().len() + self.num_inactive(),
    ;

    /// Count how many of `blocks` are *not* present in any pool.
    fn probe_new_blocks(&self, blocks: &[UniqueBlock]) -> (n: usize)
        requires
            self.valid(),
        ensures
            n == count_new(blocks@, self.present()),
    ;

    /// Returns `true` when the block identified by `seq_hash` can be found in the pools. `plh` is
    /// provided for backends that need it for registry look-ups.
    fn is_block_cached(&self, seq_hash: u64, plh: Option<PositionalLineageHash>) -> (r: bool)
        requires
            self.valid(),
        ensures
            r == self.cached()(seq_hash, plh),
    ;

    /// Number of blocks in the G2 (DRAM) inactive pool.
    fn num_g2_inactive_blocks(&self) -> (n: usize)
        default_ensures
            n == 0,
    {
        0
    }

    /// Total G2 capacity (0 means G2 is disabled).
    fn g2_max_capacity(&self) -> (n: usize)
        default_ensures
            n == 0,
    {
        0
    }

    /// Check if a block exists in the G2 cache.
    fn is_block_in_g2(&self, _seq_hash: u64) -> (r: bool)
        default_ensures
            !r,
    {
        false
    }

    /// Calculate the prefill cost for a sequence by finding the longest cached prefix and
    /// computing the number of new blocks/tokens required.
    fn get_prefill_cost(&self, sequence: &ActiveSequence) -> (r: PrefillCost)
        requires
            self.valid(),
            sequence.wf(),
            sequence_model::full_ids(sequence@.unique_blocks).len() * self.tokens_per_block()
                <= usize::MAX,
        ensures
            r == prefill_cost(self.cached(), self.tokens_per_block(), sequence@),
    {
        let blocks = sequence.unique_blocks();
        let lineage_hashes = sequence.positional_lineage_hashes();
        let ghost hits = cached_blocks(self.cached(), sequence@);
        let mut overlap: usize = 0;
        while overlap < blocks.len()
            invariant_except_break
                forall|i: int| 0 <= i < overlap ==> hits[i],
            invariant
                overlap <= blocks@.len(),
                self.valid(),
                blocks@ == sequence@.unique_blocks,
                lineage_hashes@ == sequence_model::lineage_hashes_of(
                    sequence@.tokens,
                    sequence@.block_size,
                ),
                hits == cached_blocks(self.cached(), sequence@),
            ensures
                forall|i: int| 0 <= i < overlap ==> hits[i],
                overlap < blocks@.len() ==> !hits[overlap as int],
            decreases blocks@.len() - overlap,
        {
            match blocks[overlap] {
                UniqueBlock::FullBlock(seq_hash) => {
                    let plh = if overlap < lineage_hashes.len() {
                        Some(lineage_hashes[overlap])
                    } else {
                        None
                    };
                    if !self.is_block_cached(seq_hash, plh) {
                        break;
                    }
                    overlap += 1;
                },
                UniqueBlock::PartialBlock(_) => {
                    // Partial blocks don't contribute to cache overlap
                    break;
                },
            }
        }
        proof {
            lemma_leading(hits, overlap as int);
            assert forall|i: int| 0 <= i < overlap implies #[trigger] sequence@.unique_blocks[i]
                is FullBlock by {
                assert(hits[i]);
            }
            lemma_overlap_bound(sequence@.unique_blocks, overlap as int);
            assert(overlap * self.tokens_per_block() <= sequence_model::full_ids(
                sequence@.unique_blocks,
            ).len() * self.tokens_per_block()) by (nonlinear_arith)
                requires
                    overlap <= sequence_model::full_ids(sequence@.unique_blocks).len(),
            ;
        }
        let new_blocks = blocks.len() - overlap;
        let overlap_tokens = overlap * self.block_size();
        let num_input_tokens = sequence.num_input_tokens();
        let new_tokens = if overlap_tokens <= num_input_tokens {
            num_input_tokens - overlap_tokens
        } else {
            0
        };
        PrefillCost { new_blocks, new_tokens }
    }
}

/// Leading complete blocks are among the complete blocks.
proof fn lemma_overlap_bound(blocks: Seq<UniqueBlock>, n: int)
    requires
        0 <= n <= blocks.len(),
        forall|i: int| 0 <= i < n ==> #[trigger] blocks[i] is FullBlock,
    ensures
        n <= sequence_model::full_ids(blocks).len(),
    decreases blocks.len(),
{
    if blocks.len() > 0 {
        let rest = blocks.drop_last();
        if n < blocks.len() {
            lemma_overlap_bound(rest, n);
        } else {
            assert(blocks[n - 1] is FullBlock);
            lemma_overlap_bound(rest, n - 1);
        }
    }
}

} // verus!
