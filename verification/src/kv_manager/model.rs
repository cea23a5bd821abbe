//! The state of a reference-counting KV manager, and what each signal does to it.

use vstd::prelude::*;
use crate::cache::hash_cache::CacheState;
use crate::common::protocols::{
    Change, EventRecord, KvCacheStoredBlockData, PoolUsage, Signal, TierEvent, TraceRecord,
    UniqueBlock,
};

verus! {

broadcast use {vstd::set::group_set_axioms, vstd::map::group_map_axioms};

/// The state of a KV manager.
#[verifier::ext_equal]
pub struct KvState {
    /// The first tier.
    pub cache: CacheState,
    /// The second tier, whose blocks are all inactive, if there is one.
    pub g2: Option<CacheState>,
    /// Tokens per block.
    pub block_size: usize,
    /// The rank of the cache.
    pub dp_rank: u32,
    /// Whether changes are reported.
    pub publishes: bool,
    /// The number of the next event.
    pub next_event_id: nat,
    /// The events to report, the oldest first.
    pub events: Seq<EventRecord>,
    /// Whether trace records are kept.
    pub traces_enabled: bool,
    /// The trace records, the oldest first.
    pub traces: Seq<TraceRecord>,
    /// A step without a defined outcome was taken.
    pub broken: bool,
}

/// The hash of a complete block.
pub open spec fn full_hash(block: UniqueBlock) -> Option<u64> {
    match block {
        UniqueBlock::FullBlock(hash) => Some(hash),
        UniqueBlock::PartialBlock(_) => None,
    }
}

/// `hashes`, with the hash of `block` added if the block is complete.
pub open spec fn noted(hashes: Seq<u64>, block: UniqueBlock) -> Seq<u64> {
    match full_hash(block) {
        Some(hash) => hashes.push(hash),
        None => hashes,
    }
}

impl KvState {
    /// The tiers are in order, and the second one holds nothing active.
    pub open spec fn wf(self) -> bool {
        &&& self.cache.wf()
        &&& self.cache.max_capacity > 0
        &&& match self.g2 {
            Some(g2) => g2.wf() && g2.max_capacity > 0 && g2.active == Map::<UniqueBlock, nat>::empty(),
            None => true,
        }
        &&& self.next_event_id <= u64::MAX
        &&& !self.broken
    }

    /// The state that a manager starts in.
    pub open spec fn initial(
        max_capacity: nat,
        block_size: usize,
        sink: Option<Seq<EventRecord>>,
        dp_rank: u32,
        num_dram_blocks: nat,
    ) -> KvState {
        KvState {
            cache: CacheState::empty(max_capacity),
            g2: if num_dram_blocks > 0 {
                Some(CacheState::empty(num_dram_blocks))
            } else {
                None
            },
            block_size,
            dp_rank,
            publishes: sink is Some,
            next_event_id: 0,
            events: match sink {
                Some(events) => events,
                None => Seq::empty(),
            },
            traces_enabled: false,
            traces: Seq::empty(),
            broken: false,
        }
    }

    /// A step without a defined outcome is taken where `ok` does not hold.
    pub open spec fn checked(self, ok: bool) -> KvState {
        KvState { broken: self.broken || !ok, ..self }
    }

    /// How full the first tier is.
    pub open spec fn usage(self) -> PoolUsage {
        PoolUsage {
            free: if self.cache.len() <= self.cache.max_capacity {
                (self.cache.max_capacity - self.cache.len()) as usize
            } else {
                0
            },
            active: self.cache.active.dom().len() as usize,
            inactive: self.cache.inactive.len() as usize,
            total: self.cache.max_capacity as usize,
        }
    }

    /// A trace record is kept, if such records are.
    pub open spec fn traced(self, record: TraceRecord) -> KvState {
        if self.traces_enabled {
            KvState { traces: self.traces.push(record), ..self }
        } else {
            self
        }
    }

    /// A movement between the tiers is traced.
    pub open spec fn tier_traced(self, event: TierEvent, block_id: u64) -> KvState {
        match self.g2 {
            Some(g2) => self.traced(
                TraceRecord::Tier {
                    event,
                    block_id,
                    usage: self.usage(),
                    g2_free: if g2.inactive.len() <= g2.max_capacity {
                        (g2.max_capacity - g2.inactive.len()) as usize
                    } else {
                        0
                    },
                    g2_inactive: g2.inactive.len() as usize,
                    g2_total: g2.max_capacity as usize,
                },
            ),
            None => self,
        }
    }

    /// The storing or the removal of complete blocks is traced and reported. The content hashes
    /// of stored blocks are the last ones of `local_hashes`.
    pub open spec fn published(
        self,
        full_blocks: Seq<u64>,
        local_hashes: Seq<u64>,
        parent_hash: Option<u64>,
        is_store: bool,
        token_ids: Option<Seq<Seq<u32>>>,
    ) -> KvState {
        if full_blocks.len() == 0 {
            self
        } else {
            let s = self.traced(
                TraceRecord::Pool { is_store, block_ids: full_blocks, usage: self.usage() },
            );
            if !self.publishes {
                s
            } else {
                KvState {
                    events: s.events.push(
                        EventRecord {
                            event_id: s.next_event_id,
                            change: if is_store {
                                Change::Stored {
                                    parent_hash,
                                    blocks: stored_blocks(full_blocks, local_hashes),
                                }
                            } else {
                                Change::Removed { block_hashes: full_blocks }
                            },
                            dp_rank: s.dp_rank,
                            token_ids,
                        },
                    ),
                    next_event_id: s.next_event_id + 1,
                    ..s
                }.checked(
                    s.next_event_id < u64::MAX && (is_store ==> full_blocks.len()
                        <= local_hashes.len()),
                )
            }
        }
    }

    /// `block`, which has left the first tier, is kept in the second one; if that is full, its
    /// least recent block goes.
    pub open spec fn offloaded(self, block: UniqueBlock) -> KvState {
        match self.g2 {
            None => self,
            Some(g2) => {
                let makes_room = g2.is_full() && g2.inactive.len() > 0;
                let roomy = if makes_room {
                    g2.evict()
                } else {
                    g2
                };
                let s = KvState { g2: Some(roomy.rest(block)), ..self };
                let s = if makes_room && g2.inactive[0] is FullBlock {
                    s.tier_traced(TierEvent::G2Eviction, g2.inactive[0]->FullBlock_0)
                } else {
                    s
                };
                if block is FullBlock {
                    s.tier_traced(TierEvent::G1ToG2Offload, block->FullBlock_0)
                } else {
                    s
                }
            },
        }
    }

    /// The least recent inactive block leaves the first tier for the second one.
    pub open spec fn evicted(self) -> KvState {
        let block = self.cache.inactive[0];
        let s = KvState { cache: self.cache.evict(), ..self };
        let s = if block is FullBlock {
            s.published(seq![block->FullBlock_0], Seq::empty(), None, false, None)
        } else {
            s
        };
        s.offloaded(block)
    }

    /// `block` has come from the second tier.
    pub open spec fn boarded(self, block: UniqueBlock) -> KvState {
        let s = KvState { cache: self.cache.activate(block, 1), ..self };
        if block is FullBlock {
            s.tier_traced(TierEvent::G2ToG1Onboard, block->FullBlock_0)
        } else {
            s
        }
    }

    /// The second tier holds `block`.
    pub open spec fn in_g2(self, block: UniqueBlock) -> bool {
        match self.g2 {
            Some(g2) => g2.inactive.contains(block),
            None => false,
        }
    }

    /// `block` leaves the second tier, on its way to the first.
    pub open spec fn left_g2(self, block: UniqueBlock) -> KvState {
        match self.g2 {
            Some(g2) => KvState { g2: Some(g2.drop_inactive(block)), ..self },
            None => self,
        }
    }

    /// `block` is the most recent block of the second tier.
    pub open spec fn back_in_g2(self, block: UniqueBlock) -> KvState {
        match self.g2 {
            Some(g2) => KvState { g2: Some(g2.rest(block)), ..self },
            None => self,
        }
    }

    /// `block` is brought from the second tier, if it is there and a slot of the first tier is
    /// free or can be made free; the second component tells whether it was.
    pub open spec fn onboarded(self, block: UniqueBlock) -> (KvState, bool) {
        if !self.in_g2(block) {
            (self, false)
        } else {
            let s = self.left_g2(block);
            if !s.cache.is_full() {
                (s.boarded(block), true)
            } else if s.cache.inactive.len() > 0 {
                (s.evicted().boarded(block), true)
            } else {
                (s.back_in_g2(block), false)
            }
        }
    }
}

/// Stored blocks with their content hashes, which are the last ones of `local_hashes`.
pub open spec fn stored_blocks(full_blocks: Seq<u64>, local_hashes: Seq<u64>) -> Seq<
    KvCacheStoredBlockData,
> {
    Seq::new(
        full_blocks.len(),
        |i: int|
            KvCacheStoredBlockData {
                block_hash: full_blocks[i],
                tokens_hash: local_hashes[local_hashes.len() - full_blocks.len() + i],
            },
    )
}

/// How far the processing of a `Use` signal has come.
#[verifier::ext_equal]
pub struct UseProgress {
    /// The state so far.
    pub state: KvState,
    /// The complete blocks that were allocated.
    pub stored: Seq<u64>,
    /// The tokens of these blocks, if the signal brings them.
    pub stored_ids: Option<Seq<Seq<u32>>>,
    /// The complete blocks that were found active.
    pub active_hits: Seq<u64>,
    /// The complete blocks that were found inactive.
    pub inactive_hits: Seq<u64>,
    /// The complete blocks that were found in the second tier.
    pub g2_hits: Seq<u64>,
    /// What is to be reported of the blocks from the second tier: hash, content hash, parent.
    pub onboarded: Seq<(u64, u64, Option<u64>)>,
    /// The last block that was found in the cache.
    pub parent: Option<UniqueBlock>,
    /// No slot was left for a block.
    pub failed: bool,
}

/// The complete block's hash, where the last block found in the cache is complete.
pub open spec fn parent_hash(parent: Option<UniqueBlock>) -> Option<u64> {
    match parent {
        Some(block) => full_hash(block),
        None => None,
    }
}

impl UseProgress {
    /// Before the first block.
    pub open spec fn start(state: KvState, token_ids: Option<Seq<Seq<u32>>>) -> UseProgress {
        UseProgress {
            state,
            stored: Seq::empty(),
            stored_ids: match token_ids {
                Some(_) => Some(Seq::empty()),
                None => None,
            },
            active_hits: Seq::empty(),
            inactive_hits: Seq::empty(),
            g2_hits: Seq::empty(),
            onboarded: Seq::empty(),
            parent: None,
            failed: false,
        }
    }

    /// A block that is active gets one more reference.
    pub open spec fn found_active(self, block: UniqueBlock) -> UseProgress {
        UseProgress {
            state: KvState {
                cache: self.state.cache.activate(block, self.state.cache.active[block] + 1),
                ..self.state
            }.checked(self.state.cache.active[block] < usize::MAX),
            active_hits: noted(self.active_hits, block),
            parent: Some(block),
            ..self
        }
    }

    /// A block that is inactive becomes active.
    pub open spec fn found_inactive(self, block: UniqueBlock) -> UseProgress {
        UseProgress {
            state: KvState {
                cache: self.state.cache.drop_inactive(block).activate(block, 1),
                ..self.state
            },
            inactive_hits: noted(self.inactive_hits, block),
            parent: Some(block),
            ..self
        }
    }

    /// A block has come from the second tier.
    pub open spec fn found_in_g2(
        self,
        state: KvState,
        i: int,
        block: UniqueBlock,
        local_hashes: Seq<u64>,
    ) -> UseProgress {
        UseProgress {
            state,
            g2_hits: noted(self.g2_hits, block),
            onboarded: if block is FullBlock && i < local_hashes.len() {
                self.onboarded.push(
                    (block->FullBlock_0, local_hashes[i], parent_hash(self.parent)),
                )
            } else {
                self.onboarded
            },
            parent: Some(block),
            ..self
        }
    }

    /// A block that is new to the cache gets a slot.
    pub open spec fn allocated(
        self,
        state: KvState,
        i: int,
        block: UniqueBlock,
        token_ids: Option<Seq<Seq<u32>>>,
    ) -> UseProgress {
        let state = KvState { cache: state.cache.activate(block, 1), ..state };
        if block is FullBlock {
            UseProgress {
                state: state.checked(
                    match token_ids {
                        Some(ids) => i < ids.len(),
                        None => true,
                    },
                ),
                stored: self.stored.push(block->FullBlock_0),
                stored_ids: match (self.stored_ids, token_ids) {
                    (Some(stored_ids), Some(ids)) => Some(stored_ids.push(ids[i])),
                    _ => self.stored_ids,
                },
                ..self
            }
        } else {
            UseProgress { state, ..self }
        }
    }

    /// The processing of the block at position `i`.
    pub open spec fn step(
        self,
        i: int,
        block: UniqueBlock,
        local_hashes: Seq<u64>,
        token_ids: Option<Seq<Seq<u32>>>,
    ) -> UseProgress {
        if self.failed {
            self
        } else if self.state.cache.active.contains_key(block) {
            self.found_active(block)
        } else if self.state.cache.inactive.contains(block) {
            self.found_inactive(block)
        } else {
            let (state, found) = self.state.onboarded(block);
            if found {
                self.found_in_g2(state, i, block, local_hashes)
            } else if !state.cache.is_full() {
                self.allocated(state, i, block, token_ids)
            } else if state.cache.inactive.len() > 0 {
                self.allocated(state.evicted(), i, block, token_ids)
            } else {
                UseProgress { state, failed: true, ..self }
            }
        }
    }

    /// The blocks found in the cache are traced; the last of them has to be complete.
    pub open spec fn hits_traced(self) -> KvState {
        let s = self.state.checked(
            match self.parent {
                Some(block) => block is FullBlock,
                None => true,
            },
        );
        if self.active_hits.len() + self.inactive_hits.len() + self.g2_hits.len() > 0 {
            s.traced(
                TraceRecord::CacheHit {
                    g1_active_block_ids: self.active_hits,
                    g1_inactive_block_ids: self.inactive_hits,
                    g2_block_ids: self.g2_hits,
                    usage: s.usage(),
                },
            )
        } else {
            s
        }
    }

    /// The state once every block has been processed: hits are traced, then the blocks from the
    /// second tier and the allocated blocks are reported.
    pub open spec fn finish(self, local_hashes: Seq<u64>) -> KvState {
        report_onboarded(self.hits_traced(), self.onboarded).published(
            self.stored,
            local_hashes,
            parent_hash(self.parent),
            true,
            self.stored_ids,
        )
    }
}

/// Each block that came from the second tier is reported as stored.
pub open spec fn report_onboarded(s: KvState, onboarded: Seq<(u64, u64, Option<u64>)>) -> KvState
    decreases onboarded.len(),
{
    if onboarded.len() == 0 {
        s
    } else {
        let (hash, local_hash, parent) = onboarded.last();
        report_onboarded(s, onboarded.drop_last()).published(
            seq![hash],
            seq![local_hash],
            parent,
            true,
            None,
        )
    }
}

/// The progress of a `Use` signal after its first `n` blocks.
pub open spec fn use_progress(
    s: KvState,
    blocks: Seq<UniqueBlock>,
    local_hashes: Seq<u64>,
    token_ids: Option<Seq<Seq<u32>>>,
    n: nat,
) -> UseProgress
    decreases n,
{
    if n == 0 {
        UseProgress::start(s, token_ids)
    } else {
        use_progress(s, blocks, local_hashes, token_ids, (n - 1) as nat).step(
            n - 1,
            blocks[n - 1],
            local_hashes,
            token_ids,
        )
    }
}

/// The state after a `Use` signal, and whether every block has got a slot.
pub open spec fn use_blocks(
    s: KvState,
    blocks: Seq<UniqueBlock>,
    local_hashes: Seq<u64>,
    token_ids: Option<Seq<Seq<u32>>>,
) -> (KvState, bool) {
    let progress = use_progress(s, blocks, local_hashes, token_ids, blocks.len());
    if progress.failed {
        (progress.state, false)
    } else {
        (progress.finish(local_hashes), true)
    }
}

/// The state once the first `n` blocks have been dropped from the active pool.
pub open spec fn destroy_progress(s: KvState, blocks: Seq<UniqueBlock>, n: nat) -> KvState
    decreases n,
{
    if n == 0 {
        s
    } else {
        let before = destroy_progress(s, blocks, (n - 1) as nat);
        KvState { cache: before.cache.drop_active(blocks[n - 1]), ..before }.checked(
            before.cache.active.contains_key(blocks[n - 1]),
        )
    }
}

/// The hashes of the complete blocks among `blocks`, in order.
pub open spec fn full_hashes(blocks: Seq<UniqueBlock>) -> Seq<u64>
    decreases blocks.len(),
{
    if blocks.len() == 0 {
        Seq::empty()
    } else {
        noted(full_hashes(blocks.drop_last()), blocks.last())
    }
}

/// The state after a `Destroy` signal.
pub open spec fn destroy_blocks(s: KvState, blocks: Seq<UniqueBlock>) -> KvState {
    destroy_progress(s, blocks, blocks.len()).published(
        full_hashes(blocks),
        Seq::empty(),
        None,
        false,
        None,
    )
}

/// The cache once `block` has lost one reference: an active block without references is kept as
/// the most recent inactive one.
pub open spec fn deref_block(c: CacheState, block: UniqueBlock) -> CacheState {
    if !c.active.contains_key(block) {
        c
    } else if c.active[block] == 1 {
        c.drop_active(block).rest(block)
    } else {
        c.activate(block, (c.active[block] - 1) as nat)
    }
}

/// The cache once the first `n` blocks have lost one reference each.
pub open spec fn deref_progress(c: CacheState, blocks: Seq<UniqueBlock>, n: nat) -> CacheState
    decreases n,
{
    if n == 0 {
        c
    } else {
        deref_block(deref_progress(c, blocks, (n - 1) as nat), blocks[n - 1])
    }
}

/// The state after a `Deref` signal.
pub open spec fn deref_blocks(s: KvState, blocks: Seq<UniqueBlock>) -> KvState {
    KvState { cache: deref_progress(s.cache, blocks, blocks.len()), ..s }
}

/// The state after a `Promote` signal: the complete block takes the place of the partial one, and
/// is reported if it is new to the first tier.
pub open spec fn promote_block(
    s: KvState,
    uuid: u128,
    hash: u64,
    parent: Option<u64>,
    local_hash: u64,
    token_ids: Option<Seq<u32>>,
) -> KvState {
    let partial = UniqueBlock::PartialBlock(uuid);
    let full = UniqueBlock::FullBlock(hash);
    let cache = s.cache.drop_active(partial);
    let count = if cache.active.contains_key(full) {
        cache.active[full]
    } else {
        0
    };
    let promoted = KvState {
        cache: cache.drop_inactive(full).activate(full, count + 1),
        ..s
    }.checked(
        s.cache.active.contains_key(partial) && s.cache.active[partial] == 1 && count < usize::MAX,
    );
    if cache.holds(full) {
        promoted
    } else {
        promoted.published(
            seq![hash],
            seq![local_hash],
            parent,
            true,
            match token_ids {
                Some(ids) => Some(seq![ids]),
                None => None,
            },
        )
    }
}

/// The state after a signal, and whether its blocks could be provided.
pub open spec fn process_signal(s: KvState, signal: Signal) -> (KvState, bool) {
    match signal {
        Signal::Use { blocks, local_hashes, lineage_hashes: _, token_ids } => use_blocks(
            s,
            blocks,
            local_hashes,
            token_ids,
        ),
        Signal::Destroy { blocks } => (destroy_blocks(s, blocks), true),
        Signal::Deref { blocks } => (deref_blocks(s, blocks), true),
        Signal::Promote { uuid, hash, parent_hash, local_hash, lineage_hash: _, promoted_ids } => (
            promote_block(s, uuid, hash, parent_hash, local_hash, promoted_ids),
            true,
        ),
    }
}

/// Nothing mends a state in which a step without a defined outcome was taken.
pub proof fn lemma_step_stays_broken(
    p: UseProgress,
    i: int,
    block: UniqueBlock,
    local_hashes: Seq<u64>,
    token_ids: Option<Seq<Seq<u32>>>,
)
    requires
        p.state.broken,
    ensures
        p.step(i, block, local_hashes, token_ids).state.broken,
{
}

/// What is broken after some blocks of a `Use` signal stays so.
pub proof fn lemma_progress_stays_broken(
    s: KvState,
    blocks: Seq<UniqueBlock>,
    local_hashes: Seq<u64>,
    token_ids: Option<Seq<Seq<u32>>>,
    i: nat,
    n: nat,
)
    requires
        i <= n,
        use_progress(s, blocks, local_hashes, token_ids, i).state.broken,
    ensures
        use_progress(s, blocks, local_hashes, token_ids, n).state.broken,
    decreases n - i,
{
    if i < n {
        lemma_progress_stays_broken(s, blocks, local_hashes, token_ids, i, (n - 1) as nat);
        lemma_step_stays_broken(
            use_progress(s, blocks, local_hashes, token_ids, (n - 1) as nat),
            n - 1,
            blocks[n - 1],
            local_hashes,
            token_ids,
        );
    }
}

/// What has failed after some blocks of a `Use` signal stays as it is.
pub proof fn lemma_progress_stays_failed(
    s: KvState,
    blocks: Seq<UniqueBlock>,
    local_hashes: Seq<u64>,
    token_ids: Option<Seq<Seq<u32>>>,
    i: nat,
    n: nat,
)
    requires
        i <= n,
        use_progress(s, blocks, local_hashes, token_ids, i).failed,
    ensures
        use_progress(s, blocks, local_hashes, token_ids, n) == use_progress(
            s,
            blocks,
            local_hashes,
            token_ids,
            i,
        ),
    decreases n - i,
{
    if i < n {
        lemma_progress_stays_failed(s, blocks, local_hashes, token_ids, i, (n - 1) as nat);
    }
}

/// Reports keep a broken state broken.
pub proof fn lemma_report_stays_broken(s: KvState, onboarded: Seq<(u64, u64, Option<u64>)>)
    requires
        s.broken,
    ensures
        report_onboarded(s, onboarded).broken,
    decreases onboarded.len(),
{
    if onboarded.len() > 0 {
        lemma_report_stays_broken(s, onboarded.drop_last());
    }
}

/// Reporting further blocks keeps a broken state broken.
pub proof fn lemma_longer_report_stays_broken(
    s: KvState,
    onboarded: Seq<(u64, u64, Option<u64>)>,
    n: int,
)
    requires
        0 <= n <= onboarded.len(),
        report_onboarded(s, onboarded.take(n)).broken,
    ensures
        report_onboarded(s, onboarded).broken,
    decreases onboarded.len() - n,
{
    if n == onboarded.len() {
        assert(onboarded.take(n) =~= onboarded);
    } else {
        assert(onboarded.take(n + 1).drop_last() =~= onboarded.take(n));
        lemma_longer_report_stays_broken(s, onboarded, n + 1);
    }
}

/// A `Use` signal with a defined outcome has one at each of its blocks.
pub proof fn lemma_use_defined(
    s: KvState,
    blocks: Seq<UniqueBlock>,
    local_hashes: Seq<u64>,
    token_ids: Option<Seq<Seq<u32>>>,
    i: nat,
)
    requires
        i <= blocks.len(),
        !use_blocks(s, blocks, local_hashes, token_ids).0.broken,
    ensures
        !use_progress(s, blocks, local_hashes, token_ids, i).state.broken,
{
    let p = use_progress(s, blocks, local_hashes, token_ids, blocks.len());
    if use_progress(s, blocks, local_hashes, token_ids, i).state.broken {
        lemma_progress_stays_broken(s, blocks, local_hashes, token_ids, i, blocks.len());
        lemma_report_stays_broken(p.hits_traced(), p.onboarded);
    }
}

/// A `Destroy` signal with a defined outcome has one at each of its blocks.
pub proof fn lemma_destroy_defined(s: KvState, blocks: Seq<UniqueBlock>, i: nat, n: nat)
    requires
        i <= n,
        !destroy_progress(s, blocks, n).broken,
    ensures
        !destroy_progress(s, blocks, i).broken,
    decreases n - i,
{
    if i < n {
        lemma_destroy_defined(s, blocks, i, (n - 1) as nat);
    }
}

} // verus!
