//! Manual backend for the KV manager.
//!
//! Uses [`HashCache`] for block lookups with active/inactive pool management and manual
//! reference counting.

use vstd::prelude::*;
use crate::cache::block_table::BlockTable;
use crate::cache::HashCache;
use crate::common::protocols;
use crate::common::protocols::{
    KvCacheEvent, KvCacheEventData, KvCacheEventSink, KvCacheStoredBlockData, KvCacheTrace,
    MoveBlock, PoolUsage, PositionalLineageHash, Signal, TierEvent, UniqueBlock,
};
use crate::kv_manager::accounting;
use crate::kv_manager::backend::KvBackend;
use crate::kv_manager::effects;
use crate::kv_manager::model;
use crate::kv_manager::model::{KvState, UseProgress};

verus! {

broadcast use {vstd::set::group_set_axioms, vstd::map::group_map_axioms};

/// A KV manager that counts references by hand.
pub struct ManualKvManager {
    cache: HashCache,
    block_size: usize,
    kv_event_sink: Option<KvCacheEventSink>,
    dp_rank: u32,
    next_event_id: u64,
    /// Optional G2 (DRAM) tier for offloaded KV blocks.
    g2_cache: Option<HashCache>,
    traces_enabled: bool,
    traces: Vec<KvCacheTrace>,
}

impl View for ManualKvManager {
    type V = KvState;

    closed spec fn view(&self) -> KvState {
        KvState {
            cache: self.cache@,
            g2: match self.g2_cache {
                Some(g2) => Some(g2@),
                None => None,
            },
            block_size: self.block_size,
            dp_rank: self.dp_rank,
            publishes: self.kv_event_sink is Some,
            next_event_id: self.next_event_id as nat,
            events: match self.kv_event_sink {
                Some(sink) => sink@,
                None => Seq::empty(),
            },
            traces_enabled: self.traces_enabled,
            traces: protocols::trace_records(self.traces@),
            broken: false,
        }
    }
}

impl ManualKvManager {
    /// The tiers are in order.
    pub open spec fn wf(&self) -> bool {
        self@.wf()
    }

    /// A manager without a second tier that reports nothing.
    pub fn new(max_capacity: usize, block_size: usize) -> (r: Self)
        requires
            max_capacity > 0,
        ensures
            r.wf(),
            r@ == KvState::initial(max_capacity as nat, block_size, None, 0, 0),
    {
        Self::new_with_event_sink(max_capacity, block_size, None, 0, 0)
    }

    /// A manager that reports to `kv_event_sink`, if there is one, and has a second tier if
    /// `num_dram_blocks` is not zero.
    pub fn new_with_event_sink(
        max_capacity: usize,
        block_size: usize,
        kv_event_sink: Option<KvCacheEventSink>,
        dp_rank: u32,
        num_dram_blocks: usize,
    ) -> (r: Self)
        requires
            max_capacity > 0,
        ensures
            r.wf(),
            r@ == KvState::initial(
                max_capacity as nat,
                block_size,
                match kv_event_sink {
                    Some(sink) => Some(sink@),
                    None => None,
                },
                dp_rank,
                num_dram_blocks as nat,
            ),
    {
        let g2_cache = if num_dram_blocks > 0 {
            Some(HashCache::new(num_dram_blocks))
        } else {
            None
        };
        let r = ManualKvManager {
            cache: HashCache::new(max_capacity),
            block_size,
            kv_event_sink,
            dp_rank,
            next_event_id: 0,
            g2_cache,
            traces_enabled: false,
            traces: Vec::new(),
        };
        assert(r@.traces =~= Seq::empty());
        r
    }

    /// How full the first tier is.
    fn usage(&self) -> (r: PoolUsage)
        requires
            self.wf(),
        ensures
            r == self@.usage(),
    {
        let active = self.cache.num_active();
        let inactive = self.cache.num_inactive();
        let total = self.cache.max_capacity();
        PoolUsage {
            free: total - active - inactive,
            active,
            inactive,
            total,
        }
    }

    /// Keeps a trace record, if such records are kept.
    fn trace(&mut self, trace: KvCacheTrace)
        ensures
            final(self)@ == old(self)@.traced(trace@),
    {
        if self.traces_enabled {
            self.traces.push(trace);
            assert(self@.traces =~= old(self)@.traces.push(trace@));
        }
    }

    /// Traces and reports the storing or the removal of complete blocks.
    fn publish_kv_event(
        &mut self,
        full_blocks: Vec<u64>,
        local_hashes: &Vec<u64>,
        parent_hash: Option<u64>,
        is_store: bool,
        token_ids: Option<Vec<Vec<u32>>>,
    )
        requires
            old(self).wf(),
            !old(self)@.published(
                full_blocks@,
                local_hashes@,
                parent_hash,
                is_store,
                protocols::optional_token_lists(token_ids),
            ).broken,
        ensures
            final(self).wf(),
            final(self)@ == old(self)@.published(
                full_blocks@,
                local_hashes@,
                parent_hash,
                is_store,
                protocols::optional_token_lists(token_ids),
            ),
    {
        if full_blocks.len() == 0 {
            return;
        }
        if self.traces_enabled {
            let block_ids = copy_hashes(&full_blocks);
            let usage = self.usage();
            self.trace(KvCacheTrace::Pool { is_store, block_ids, usage });
        }
        let ghost traced = self@;
        if self.kv_event_sink.is_none() {
            return;
        }
        let data = if is_store {
            let blocks = pair_stored_blocks(&full_blocks, local_hashes);
            KvCacheEventData::Stored { parent_hash, blocks }
        } else {
            KvCacheEventData::Removed { block_hashes: full_blocks }
        };
        let event_id = self.next_event_id;
        self.next_event_id = self.next_event_id + 1;
        let event = KvCacheEvent { event_id, data, dp_rank: self.dp_rank, token_ids };
        if let Some(sink) = &mut self.kv_event_sink {
            sink.publish(event);
        }
        assert(self@.events == traced.events.push(event@));
    }

    /// Traces a movement between the tiers.
    fn trace_g2_event(&mut self, event: TierEvent, block_id: u64)
        requires
            old(self).wf(),
        ensures
            final(self).wf(),
            final(self)@ == old(self)@.tier_traced(event, block_id),
    {
        if !self.traces_enabled {
            return;
        }
        let usage = self.usage();
        let (g2_inactive, g2_total) = match &self.g2_cache {
            Some(g2) => (g2.num_inactive(), g2.max_capacity()),
            None => {
                return;
            },
        };
        let g2_free = g2_total - g2_inactive;
        self.trace(
            KvCacheTrace::Tier { event, block_id, usage, g2_free, g2_inactive, g2_total },
        );
    }

    /// Offloads a block that has left the first tier to the second one. If that is full, its
    /// least recent block is discarded first.
    fn offload_to_g2(&mut self, block: &UniqueBlock)
        requires
            old(self).wf(),
        ensures
            final(self).wf(),
            final(self)@ == old(self)@.offloaded(*block),
    {
        let mut g2_evicted: Option<UniqueBlock> = None;
        match &mut self.g2_cache {
            Some(g2) => {
                if g2.is_at_capacity() {
                    g2_evicted = g2.evict_inactive();
                }
                g2.insert_inactive(*block);
            },
            None => {
                return;
            },
        }
        if let Some(UniqueBlock::FullBlock(hash)) = g2_evicted {
            self.trace_g2_event(TierEvent::G2Eviction, hash);
        }
        if let UniqueBlock::FullBlock(hash) = *block {
            self.trace_g2_event(TierEvent::G1ToG2Offload, hash);
        }
    }

    /// Evicts the least recent inactive block of the first tier, reports it and offloads it;
    /// tells whether there was one.
    fn evict_to_g2(&mut self) -> (r: bool)
        requires
            old(self).wf(),
            old(self)@.cache.inactive.len() > 0 ==> !old(self)@.evicted().broken,
        ensures
            final(self).wf(),
            r == (old(self)@.cache.inactive.len() > 0),
            final(self)@ == if r {
                old(self)@.evicted()
            } else {
                old(self)@
            },
    {
        let evicted = match self.cache.evict_inactive() {
            Some(evicted) => evicted,
            None => {
                return false;
            },
        };
        if let UniqueBlock::FullBlock(hash) = evicted {
            let mut hashes: Vec<u64> = Vec::new();
            hashes.push(hash);
            assert(hashes@ =~= seq![hash]);
            let none: Vec<u64> = Vec::new();
            assert(none@ =~= Seq::empty());
            self.publish_kv_event(hashes, &none, None, false, None);
        }
        // Offload the evicted block instead of discarding it.
        self.offload_to_g2(&evicted);
        true
    }

    /// Tries to bring a block from the second tier to the active pool of the first; tells whether
    /// it was brought.
    fn try_onboard_from_g2(&mut self, block: &UniqueBlock) -> (r: bool)
        requires
            old(self).wf(),
            !old(self)@.cache.holds(*block),
            !old(self)@.onboarded(*block).0.broken,
        ensures
            final(self).wf(),
            (final(self)@, r) == old(self)@.onboarded(*block),
    {
        match &mut self.g2_cache {
            Some(g2) => {
                if !g2.remove_inactive(block) {
                    assert(self@ =~= old(self)@);
                    return false;
                }
            },
            None => {
                return false;
            },
        }
        assert(self@ == old(self)@.left_g2(*block));
        // Make room in the first tier if needed.
        if self.cache.is_at_capacity() {
            if !self.evict_to_g2() {
                // The first tier is full of active blocks: the block stays in the second one.
                if let Some(g2) = &mut self.g2_cache {
                    g2.insert_inactive(*block);
                }
                return false;
            }
        }
        self.cache.insert_active(*block, 1);
        if let UniqueBlock::FullBlock(hash) = *block {
            self.trace_g2_event(TierEvent::G2ToG1Onboard, hash);
        }
        true
    }

    /// Takes a reference on `block`, the one at position `i` of a `Use` signal; tells whether it
    /// has got a slot.
    fn use_block(
        &mut self,
        run: &mut UseRun,
        i: usize,
        block: UniqueBlock,
        local_hashes: &Vec<u64>,
        token_ids: &Option<Vec<Vec<u32>>>,
    ) -> (r: bool)
        requires
            old(self).wf(),
            !old(run).progress(old(self)@, false).step(
                i as int,
                block,
                local_hashes@,
                protocols::optional_token_lists(*token_ids),
            ).state.broken,
        ensures
            final(self).wf(),
            final(run).progress(final(self)@, !r) == old(run).progress(old(self)@, false).step(
                i as int,
                block,
                local_hashes@,
                protocols::optional_token_lists(*token_ids),
            ),
    {
        if self.cache.contains_active(&block) {
            self.cache.increment_ref(&block);
            note(&mut run.active_hits, block);
            run.parent = Some(block);
            return true;
        }
        if self.cache.reactivate(&block) {
            note(&mut run.inactive_hits, block);
            run.parent = Some(block);
            return true;
        }
        // Look into the second tier before allocating a fresh block.
        if self.try_onboard_from_g2(&block) {
            run.note_onboarded(i, block, local_hashes);
            return true;
        }
        if self.cache.is_at_capacity() {
            if !self.evict_to_g2() {
                return false;
            }
        }
        self.cache.insert_active(block, 1);
        run.note_stored(i, block, token_ids);
        true
    }

    /// Takes a reference on each of `blocks`; tells whether every block has got a slot.
    fn process_use(
        &mut self,
        blocks: &Vec<UniqueBlock>,
        local_hashes: &Vec<u64>,
        token_ids: &Option<Vec<Vec<u32>>>,
    ) -> (r: bool)
        requires
            old(self).wf(),
            !model::use_blocks(
                old(self)@,
                blocks@,
                local_hashes@,
                protocols::optional_token_lists(*token_ids),
            ).0.broken,
        ensures
            final(self).wf(),
            (final(self)@, r) == model::use_blocks(
                old(self)@,
                blocks@,
                local_hashes@,
                protocols::optional_token_lists(*token_ids),
            ),
    {
        let ghost s0 = self@;
        let ghost ids = protocols::optional_token_lists(*token_ids);
        let mut run = UseRun::new(token_ids.is_some());
        assert(run.progress(s0, false) =~= UseProgress::start(s0, ids));
        let mut i: usize = 0;
        while i < blocks.len()
            invariant
                i <= blocks@.len(),
                s0 == old(self)@,
                ids == protocols::optional_token_lists(*token_ids),
                !model::use_blocks(s0, blocks@, local_hashes@, ids).0.broken,
                self.wf(),
                run.progress(self@, false) == model::use_progress(
                    s0,
                    blocks@,
                    local_hashes@,
                    ids,
                    i as nat,
                ),
            decreases blocks@.len() - i,
        {
            proof {
                model::lemma_use_defined(s0, blocks@, local_hashes@, ids, (i + 1) as nat);
            }
            if !self.use_block(&mut run, i, blocks[i], local_hashes, token_ids) {
                proof {
                    model::lemma_progress_stays_failed(
                        s0,
                        blocks@,
                        local_hashes@,
                        ids,
                        (i + 1) as nat,
                        blocks@.len(),
                    );
                }
                return false;
            }
            i += 1;
        }
        proof {
            model::lemma_use_defined(s0, blocks@, local_hashes@, ids, i as nat);
        }
        self.finish_use(run, local_hashes);
        true
    }

    /// Traces the blocks found in the cache, then reports those from the second tier and those
    /// that were allocated.
    fn finish_use(&mut self, run: UseRun, local_hashes: &Vec<u64>)
        requires
            old(self).wf(),
            !run.progress(old(self)@, false).finish(local_hashes@).broken,
        ensures
            final(self).wf(),
            final(self)@ == run.progress(old(self)@, false).finish(local_hashes@),
    {
        let ghost progress = run.progress(self@, false);
        let ghost traced = progress.hits_traced();
        proof {
            if traced.broken {
                model::lemma_report_stays_broken(traced, progress.onboarded);
            }
        }
        let parent_hash = match run.parent {
            Some(UniqueBlock::FullBlock(hash)) => Some(hash),
            _ => None,
        };
        if self.traces_enabled && (run.active_hits.len() > 0 || run.inactive_hits.len() > 0
            || run.g2_hits.len() > 0) {
            let usage = self.usage();
            self.trace(
                KvCacheTrace::CacheHit {
                    g1_active_block_ids: run.active_hits,
                    g1_inactive_block_ids: run.inactive_hits,
                    g2_block_ids: run.g2_hits,
                    usage,
                },
            );
        }
        assert(self@ == traced);
        // Blocks from the second tier first: they may be parents of the allocated ones.
        let mut k: usize = 0;
        while k < run.onboarded.len()
            invariant
                k <= run.onboarded@.len(),
                progress.onboarded == run.onboarded@,
                progress.stored == run.stored@,
                progress.stored_ids == protocols::optional_token_lists(run.stored_ids),
                traced == progress.hits_traced(),
                !progress.finish(local_hashes@).broken,
                self.wf(),
                self@ == model::report_onboarded(traced, run.onboarded@.take(k as int)),
            decreases run.onboarded@.len() - k,
        {
            let (hash, local_hash, parent) = run.onboarded[k];
            let mut hashes: Vec<u64> = Vec::new();
            hashes.push(hash);
            let mut local: Vec<u64> = Vec::new();
            local.push(local_hash);
            proof {
                assert(hashes@ =~= seq![hash]);
                assert(local@ =~= seq![local_hash]);
                assert(run.onboarded@.take(k + 1).drop_last() =~= run.onboarded@.take(k as int));
                if model::report_onboarded(traced, run.onboarded@.take(k + 1)).broken {
                    model::lemma_longer_report_stays_broken(traced, run.onboarded@, k + 1);
                }
            }
            self.publish_kv_event(hashes, &local, parent, true, None);
            k += 1;
        }
        assert(run.onboarded@.take(k as int) =~= run.onboarded@);
        self.publish_kv_event(run.stored, local_hashes, parent_hash, true, run.stored_ids);
    }

    /// Drops `blocks` from the active pool.
    fn process_destroy(&mut self, blocks: &Vec<UniqueBlock>)
        requires
            old(self).wf(),
            !model::destroy_blocks(old(self)@, blocks@).broken,
        ensures
            final(self).wf(),
            final(self)@ == model::destroy_blocks(old(self)@, blocks@),
    {
        let ghost s0 = self@;
        let mut destroyed: Vec<u64> = Vec::new();
        let mut i: usize = 0;
        while i < blocks.len()
            invariant
                i <= blocks@.len(),
                !model::destroy_blocks(s0, blocks@).broken,
                self.wf(),
                self@ == model::destroy_progress(s0, blocks@, i as nat),
                destroyed@ == model::full_hashes(blocks@.take(i as int)),
            decreases blocks@.len() - i,
        {
            let block = blocks[i];
            proof {
                model::lemma_destroy_defined(s0, blocks@, (i + 1) as nat, blocks@.len());
                assert(blocks@.take(i + 1).drop_last() =~= blocks@.take(i as int));
            }
            self.cache.remove_active(&block);
            note(&mut destroyed, block);
            i += 1;
        }
        assert(blocks@.take(i as int) =~= blocks@);
        let none: Vec<u64> = Vec::new();
        assert(none@ =~= Seq::empty());
        self.publish_kv_event(destroyed, &none, None, false, None);
    }

    /// Gives back one reference on each of `blocks`.
    fn process_deref(&mut self, blocks: &Vec<UniqueBlock>)
        requires
            old(self).wf(),
        ensures
            final(self).wf(),
            final(self)@ == model::deref_blocks(old(self)@, blocks@),
    {
        let ghost s0 = self@;
        let mut i: usize = 0;
        while i < blocks.len()
            invariant
                i <= blocks@.len(),
                self.wf(),
                self@ == (KvState {
                    cache: model::deref_progress(s0.cache, blocks@, i as nat),
                    ..s0
                }),
            decreases blocks@.len() - i,
        {
            let block = blocks[i];
            if let Some(ref_count) = self.cache.get_active_ref_count(&block) {
                if ref_count == 1 {
                    self.cache.deactivate(&block);
                } else {
                    self.cache.decrement_ref(&block);
                }
            }
            i += 1;
        }
    }

    /// Turns a partial block into a complete one.
    fn process_promote(
        &mut self,
        uuid: u128,
        hash: u64,
        parent_hash: Option<u64>,
        local_hash: u64,
        token_ids: &Option<Vec<u32>>,
    )
        requires
            old(self).wf(),
            !model::promote_block(
                old(self)@,
                uuid,
                hash,
                parent_hash,
                local_hash,
                protocols::optional_tokens(*token_ids),
            ).broken,
        ensures
            final(self).wf(),
            final(self)@ == model::promote_block(
                old(self)@,
                uuid,
                hash,
                parent_hash,
                local_hash,
                protocols::optional_tokens(*token_ids),
            ),
    {
        let uuid_block = UniqueBlock::PartialBlock(uuid);
        let hash_block = UniqueBlock::FullBlock(hash);
        self.cache.remove_active(&uuid_block);
        let ref_count = self.cache.get_active_ref_count(&hash_block);
        let is_new = match ref_count {
            Some(_) => false,
            None => !self.cache.remove_inactive(&hash_block),
        };
        self.cache.insert_active(
            hash_block,
            match ref_count {
                Some(ref_count) => ref_count + 1,
                None => 1,
            },
        );
        if is_new {
            let mut hashes: Vec<u64> = Vec::new();
            hashes.push(hash);
            let mut local: Vec<u64> = Vec::new();
            local.push(local_hash);
            let ids: Option<Vec<Vec<u32>>> = match token_ids {
                Some(tokens) => {
                    let mut ids: Vec<Vec<u32>> = Vec::new();
                    ids.push(protocols::copy_tokens(tokens));
                    assert(protocols::token_lists(ids@) =~= seq![tokens@]);
                    Some(ids)
                },
                None => None,
            };
            assert(hashes@ =~= seq![hash]);
            assert(local@ =~= seq![local_hash]);
            self.publish_kv_event(hashes, &local, parent_hash, true, ids);
        }
    }

    /// Get the keys of inactive blocks, the next one to evict first.
    pub fn get_inactive_blocks(&self) -> (r: Vec<UniqueBlock>)
        ensures
            r@ == self@.cache.inactive,
    {
        self.cache.inactive_keys()
    }

    /// Get the keys of active blocks, in no particular order.
    pub fn get_active_blocks(&self) -> (r: Vec<UniqueBlock>)
        ensures
            r@.no_duplicates(),
            r@.to_set() == self@.cache.active.dom(),
    {
        self.cache.active_keys()
    }

    /// Direct access to the reference counts of active blocks.
    pub fn active_blocks(&self) -> (r: &BlockTable)
        ensures
            r@ == self@.cache.active,
    {
        self.cache.active_blocks()
    }

    /// Keeps trace records from now on, or no longer.
    pub fn set_traces_enabled(&mut self, enabled: bool)
        ensures
            final(self)@ == (KvState { traces_enabled: enabled, ..old(self)@ }),
    {
        self.traces_enabled = enabled;
    }

    /// Takes the trace records that were kept, the oldest first.
    pub fn take_traces(&mut self) -> (r: Vec<KvCacheTrace>)
        ensures
            protocols::trace_records(r@) == old(self)@.traces,
            final(self)@ == (KvState { traces: Seq::empty(), ..old(self)@ }),
    {
        let mut traces: Vec<KvCacheTrace> = Vec::new();
        std::mem::swap(&mut traces, &mut self.traces);
        assert(self@.traces =~= Seq::empty());
        traces
    }

    /// Takes the events that were reported, the oldest first.
    pub fn take_events(&mut self) -> (r: Vec<KvCacheEvent>)
        ensures
            protocols::event_records(r@) == old(self)@.events,
            final(self)@ == (KvState { events: Seq::empty(), ..old(self)@ }),
    {
        let events = match &mut self.kv_event_sink {
            Some(sink) => sink.take(),
            None => Vec::new(),
        };
        assert(protocols::event_records(events@) =~= old(self)@.events);
        assert(self@.events =~= Seq::empty());
        events
    }
}

impl KvBackend for ManualKvManager {
    open spec fn valid(&self) -> bool {
        self.wf()
    }

    open spec fn accepts(&self, signal: Signal) -> bool {
        !model::process_signal(self@, signal).0.broken
    }

    open spec fn leads_to(&self, signal: Signal, after: &Self, ok: bool) -> bool {
        (after@, ok) == model::process_signal(self@, signal)
    }

    open spec fn active(&self) -> Map<UniqueBlock, nat> {
        self@.cache.active
    }

    open spec fn num_inactive(&self) -> nat {
        self@.cache.inactive.len()
    }

    open spec fn present(&self) -> Set<UniqueBlock> {
        effects::known(self@)
    }

    open spec fn reusable(&self) -> Set<UniqueBlock> {
        effects::reusable(self@)
    }

    open spec fn cached(&self) -> spec_fn(u64, Option<PositionalLineageHash>) -> bool {
        |seq_hash: u64, plh: Option<PositionalLineageHash>|
            effects::present(self@, UniqueBlock::FullBlock(seq_hash))
    }

    open spec fn capacity(&self) -> nat {
        self@.cache.max_capacity
    }

    open spec fn tokens_per_block(&self) -> nat {
        self@.block_size as nat
    }

    open spec fn headroom(&self, n: nat) -> bool {
        effects::headroom(self@, n)
    }

    proof fn lemma_valid(&self) {
        assert(self.present() =~= self.active().dom().union(self.reusable()));
    }

    proof fn lemma_headroom(&self, n: nat, m: nat) {
        assert forall|b: UniqueBlock| #[trigger] accounting::refs(self@.cache.active, b) + m
            <= usize::MAX by {
            assert(accounting::refs(self@.cache.active, b) + n <= usize::MAX);
        }
    }

    proof fn lemma_accepts(&self, signal: Signal) {
        effects::lemma_accepted(self@, signal);
    }

    proof fn lemma_leads_to(&self, signal: Signal, after: &Self, ok: bool) {
        effects::lemma_processed(self@, signal);
    }

    fn process(&mut self, event: &MoveBlock) -> (r: bool) {
        proof {
            effects::lemma_processed(self@, event@);
        }
        match event {
            MoveBlock::Use(blocks, local_hashes, _lineage_hashes, token_ids) => self.process_use(
                blocks,
                local_hashes,
                token_ids,
            ),
            MoveBlock::Destroy(blocks) => {
                self.process_destroy(blocks);
                true
            },
            MoveBlock::Deref(blocks) => {
                self.process_deref(blocks);
                true
            },
            MoveBlock::Promote(uuid, hash, parent_hash, local_hash, _lineage_hash, token_ids) => {
                self.process_promote(*uuid, *hash, *parent_hash, *local_hash, token_ids);
                true
            },
        }
    }

    fn max_capacity(&self) -> (n: usize) {
        self.cache.max_capacity()
    }

    fn block_size(&self) -> (n: usize) {
        self.block_size
    }

    fn num_active_blocks(&self) -> (n: usize) {
        self.cache.num_active()
    }

    fn num_inactive_blocks(&self) -> (n: usize) {
        self.cache.num_inactive()
    }

    fn current_capacity(&self) -> (n: usize) {
        self.cache.current_capacity()
    }

    fn probe_new_blocks(&self, blocks: &[UniqueBlock]) -> (n: usize) {
        let ghost is_new = |b: UniqueBlock| !self.present().contains(b);
        let mut count: usize = 0;
        let mut i: usize = 0;
        while i < blocks.len()
            invariant
                i <= blocks@.len(),
                is_new == (|b: UniqueBlock| !self.present().contains(b)),
                count <= i,
                count == blocks@.take(i as int).filter(is_new).len(),
            decreases blocks@.len() - i,
        {
            proof {
                assert(blocks@.take(i + 1).drop_last() =~= blocks@.take(i as int));
                reveal(Seq::filter);
            }
            if !self.holds(&blocks[i]) {
                count += 1;
            }
            i += 1;
        }
        assert(blocks@.take(i as int) =~= blocks@);
        assert(is_new =~= |b: UniqueBlock| !self.present().contains(b));
        count
    }

    fn is_block_cached(&self, seq_hash: u64, _plh: Option<PositionalLineageHash>) -> (r: bool) {
        self.holds(&UniqueBlock::FullBlock(seq_hash))
    }

    fn num_g2_inactive_blocks(&self) -> (n: usize)
        ensures
            n == match self@.g2 {
                Some(g2) => g2.inactive.len(),
                None => 0,
            },
    {
        match &self.g2_cache {
            Some(g2) => g2.num_inactive(),
            None => 0,
        }
    }

    fn g2_max_capacity(&self) -> (n: usize)
        ensures
            n == match self@.g2 {
                Some(g2) => g2.max_capacity,
                None => 0,
            },
    {
        match &self.g2_cache {
            Some(g2) => g2.max_capacity(),
            None => 0,
        }
    }

    fn is_block_in_g2(&self, seq_hash: u64) -> (r: bool)
        ensures
            r == self@.in_g2(UniqueBlock::FullBlock(seq_hash)),
    {
        self.in_second_tier(&UniqueBlock::FullBlock(seq_hash))
    }
}

impl ManualKvManager {
    /// Whether the second tier holds `block`.
    fn in_second_tier(&self, block: &UniqueBlock) -> (r: bool)
        ensures
            r == self@.in_g2(*block),
    {
        match &self.g2_cache {
            Some(g2) => g2.contains_inactive(block),
            None => false,
        }
    }

    /// Whether one of the tiers holds `block`.
    fn holds(&self, block: &UniqueBlock) -> (r: bool)
        ensures
            r == effects::present(self@, *block),
    {
        self.cache.contains(block) || self.in_second_tier(block)
    }
}

/// What is known of a `Use` signal while its blocks are processed.
struct UseRun {
    stored: Vec<u64>,
    stored_ids: Option<Vec<Vec<u32>>>,
    active_hits: Vec<u64>,
    inactive_hits: Vec<u64>,
    g2_hits: Vec<u64>,
    /// Hash, content hash and parent of each block that has come from the second tier. A report
    /// that it is stored must follow, or a later eviction would report the removal of a block
    /// that nobody tracks.
    onboarded: Vec<(u64, u64, Option<u64>)>,
    parent: Option<UniqueBlock>,
}

impl UseRun {
    /// The progress that this and the state of the manager make up.
    spec fn progress(&self, state: KvState, failed: bool) -> UseProgress {
        UseProgress {
            state,
            stored: self.stored@,
            stored_ids: protocols::optional_token_lists(self.stored_ids),
            active_hits: self.active_hits@,
            inactive_hits: self.inactive_hits@,
            g2_hits: self.g2_hits@,
            onboarded: self.onboarded@,
            parent: self.parent,
            failed,
        }
    }

    /// Nothing is known yet.
    fn new(with_ids: bool) -> (r: Self)
        ensures
            r.stored@ == Seq::<u64>::empty(),
            r.stored_ids is Some == with_ids,
            r.stored_ids is Some ==> r.stored_ids->0@ == Seq::<Vec<u32>>::empty(),
            r.active_hits@ == Seq::<u64>::empty(),
            r.inactive_hits@ == Seq::<u64>::empty(),
            r.g2_hits@ == Seq::<u64>::empty(),
            r.onboarded@ == Seq::<(u64, u64, Option<u64>)>::empty(),
            r.parent is None,
    {
        UseRun {
            stored: Vec::new(),
            stored_ids: if with_ids {
                Some(Vec::new())
            } else {
                None
            },
            active_hits: Vec::new(),
            inactive_hits: Vec::new(),
            g2_hits: Vec::new(),
            onboarded: Vec::new(),
            parent: None,
        }
    }

    /// Notes a block that has come from the second tier.
    fn note_onboarded(&mut self, i: usize, block: UniqueBlock, local_hashes: &Vec<u64>)
        ensures
            forall|before: KvState, after: KvState|
                #![trigger old(self).progress(before, false).found_in_g2(after, i as int, block, local_hashes@)]
                final(self).progress(after, false) == old(self).progress(before, false).found_in_g2(
                    after,
                    i as int,
                    block,
                    local_hashes@,
                ),
    {
        if let UniqueBlock::FullBlock(hash) = block {
            self.g2_hits.push(hash);
            if i < local_hashes.len() {
                let parent_hash = match self.parent {
                    Some(UniqueBlock::FullBlock(parent)) => Some(parent),
                    _ => None,
                };
                self.onboarded.push((hash, local_hashes[i], parent_hash));
            }
        }
        self.parent = Some(block);
    }

    /// Notes a block that has been allocated.
    fn note_stored(&mut self, i: usize, block: UniqueBlock, token_ids: &Option<Vec<Vec<u32>>>)
        requires
            block is FullBlock && *token_ids is Some ==> i < token_ids->0@.len(),
        ensures
            forall|before: KvState, after: KvState|
                #![trigger old(self).progress(before, false).allocated(after, i as int, block, protocols::optional_token_lists(*token_ids))]
                final(self).progress(KvState { cache: after.cache.activate(block, 1), ..after }, false)
                    == old(self).progress(before, false).allocated(
                    after,
                    i as int,
                    block,
                    protocols::optional_token_lists(*token_ids),
                ),
    {
        if let UniqueBlock::FullBlock(hash) = block {
            self.stored.push(hash);
            if let Some(stored_ids) = &mut self.stored_ids {
                if let Some(token_ids) = token_ids {
                    let ghost before = stored_ids@;
                    let tokens = protocols::copy_tokens(&token_ids[i]);
                    stored_ids.push(tokens);
                    assert(protocols::token_lists(stored_ids@) =~= protocols::token_lists(before).push(
                        tokens@,
                    ));
                }
            }
        }
    }
}

/// Adds the hash of `block` to `hashes` if the block is complete.
fn note(hashes: &mut Vec<u64>, block: UniqueBlock)
    ensures
        final(hashes)@ == model::noted(old(hashes)@, block),
{
    if let UniqueBlock::FullBlock(hash) = block {
        hashes.push(hash);
    }
}

/// A copy of a list of hashes.
fn copy_hashes(hashes: &Vec<u64>) -> (r: Vec<u64>)
    ensures
        r@ == hashes@,
{
    let mut copy: Vec<u64> = Vec::new();
    let mut i: usize = 0;
    while i < hashes.len()
        invariant
            i <= hashes.len(),
            copy@ == hashes@.take(i as int),
        decreases hashes.len() - i,
    {
        copy.push(hashes[i]);
        i += 1;
    }
    assert(hashes@.take(i as int) =~= hashes@);
    copy
}

/// Pairs stored blocks with the last content hashes.
fn pair_stored_blocks(full_blocks: &Vec<u64>, local_hashes: &Vec<u64>) -> (r: Vec<
    KvCacheStoredBlockData,
>)
    requires
        full_blocks@.len() <= local_hashes@.len(),
    ensures
        r@ == model::stored_blocks(full_blocks@, local_hashes@),
{
    let first: usize = local_hashes.len() - full_blocks.len();
    let mut blocks: Vec<KvCacheStoredBlockData> = Vec::new();
    let mut i: usize = 0;
    while i < full_blocks.len()
        invariant
            i <= full_blocks.len(),
            first + full_blocks.len() == local_hashes.len(),
            blocks@ == model::stored_blocks(full_blocks@, local_hashes@).take(i as int),
        decreases full_blocks.len() - i,
    {
        blocks.push(
            KvCacheStoredBlockData {
                block_hash: full_blocks[i],
                tokens_hash: local_hashes[first + i],
            },
        );
        i += 1;
    }
    assert(model::stored_blocks(full_blocks@, local_hashes@).take(i as int)
        =~= model::stored_blocks(full_blocks@, local_hashes@));
    blocks
}

} // verus!
