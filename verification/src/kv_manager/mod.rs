//! # KV Manager
//! A synchronous implementation of a block manager that handles MoveBlock signals for caching KV
//! blocks.
//!
//! ## Backends
//! Two backends are available:
//! - **Manual**: [`ManualKvManager`], a HashCache-based reference-counting implementation
//! - **KvbmLogical**: a logical block manager with its own block lifecycle, which the user of
//!   [`KvManager`] supplies
//!
//! ## Block Operations
//! The KV manager processes four types of MoveBlock signals:
//!
//! ### Use
//! - Checks if block exists in active pool → increment reference count
//! - If in inactive pool → move to active pool
//! - If neither → try evicting from inactive pool to make room
//! - If inactive pool is empty → pre-empt the oldest running request
//!
//! ### Destroy
//! - Removes the block from the active pool
//!
//! ### Deref
//! - Decrements reference count of a block in active pool
//! - If count reaches zero → move block to inactive pool
//!
//! ### Promote
//! - Converts a partial block (uuid) into a full block (global block hash)
//!
//! ## Preemption
//! If a Use operation fails (typically due to insufficient space), a false boolean signal is
//! returned to the scheduler for preemption. Initial KV block allocations for new requests should
//! not fail due to the watermark checking.

use vstd::prelude::*;
use crate::common::protocols::{
    KvCacheEventSink, KvManagerBackend, MockerEvictionBackend, MoveBlock, PositionalLineageHash,
    Signal, UniqueBlock,
};
use crate::kv_manager::model::KvState;
use crate::kv_manager::vllm_backend::ManualKvManager;

pub mod accounting;
pub mod backend;
pub mod costs;
pub mod effects;
pub mod hits;
pub mod lineage;
pub mod model;
pub mod moves;
pub mod numbering;
pub mod pools;
pub mod prefix;
pub mod tiers;
pub mod tracking;
pub mod vllm_backend;

pub use backend::KvBackend;

verus! {

/// A KV manager with one of the available backends.
pub enum KvManager<L> {
    /// Reference counting by hand.
    Manual(ManualKvManager),
    /// A logical block manager.
    KvbmLogical(L),
}

impl<L> KvManager<L> {
    /// A manual manager without a second tier that reports nothing.
    pub fn new(max_capacity: usize, block_size: usize) -> (r: Self)
        requires
            max_capacity > 0,
        ensures
            r is Manual,
            r->Manual_0.wf(),
            r->Manual_0@ == KvState::initial(max_capacity as nat, block_size, None, 0, 0),
    {
        KvManager::Manual(ManualKvManager::new(max_capacity, block_size))
    }
}

impl<L> KvManager<L> {
    /// A manager with the given backend; a logical one is made by `create_logical`. A manual one
    /// has no use for `eviction_backend`, a logical one none for `num_dram_blocks`.
    pub fn new_with_event_sink<F>(
        max_capacity: usize,
        block_size: usize,
        kv_event_sink: Option<KvCacheEventSink>,
        dp_rank: u32,
        backend: KvManagerBackend,
        eviction_backend: MockerEvictionBackend,
        num_dram_blocks: usize,
        create_logical: F,
    ) -> (r: Self) where
        F: FnOnce(usize, usize, u32, Option<KvCacheEventSink>, MockerEvictionBackend) -> L,

        requires
            max_capacity > 0,
            backend == KvManagerBackend::KvbmLogical ==> call_requires(
                create_logical,
                (max_capacity, block_size, dp_rank, kv_event_sink, eviction_backend),
            ),
        ensures
            match backend {
                KvManagerBackend::Manual => {
                    &&& r is Manual
                    &&& r->Manual_0.wf()
                    &&& r->Manual_0@ == KvState::initial(
                        max_capacity as nat,
                        block_size,
                        match kv_event_sink {
                            Some(sink) => Some(sink@),
                            None => None,
                        },
                        dp_rank,
                        num_dram_blocks as nat,
                    )
                },
                KvManagerBackend::KvbmLogical => {
                    &&& r is KvbmLogical
                    &&& call_ensures(
                        create_logical,
                        (max_capacity, block_size, dp_rank, kv_event_sink, eviction_backend),
                        r->KvbmLogical_0,
                    )
                },
            },
    {
        match backend {
            KvManagerBackend::Manual => KvManager::Manual(
                ManualKvManager::new_with_event_sink(
                    max_capacity,
                    block_size,
                    kv_event_sink,
                    dp_rank,
                    num_dram_blocks,
                ),
            ),
            KvManagerBackend::KvbmLogical => KvManager::KvbmLogical(
                create_logical(max_capacity, block_size, dp_rank, kv_event_sink, eviction_backend),
            ),
        }
    }
}

impl<L: KvBackend> KvBackend for KvManager<L> {
    open spec fn valid(&self) -> bool {
        match self {
            KvManager::Manual(m) => m.valid(),
            KvManager::KvbmLogical(m) => m.valid(),
        }
    }

    open spec fn accepts(&self, signal: Signal) -> bool {
        match self {
            KvManager::Manual(m) => m.accepts(signal),
            KvManager::KvbmLogical(m) => m.accepts(signal),
        }
    }

    open spec fn leads_to(&self, signal: Signal, after: &Self, ok: bool) -> bool {
        match (self, after) {
            (KvManager::Manual(m), KvManager::Manual(n)) => m.leads_to(signal, n, ok),
            (KvManager::KvbmLogical(m), KvManager::KvbmLogical(n)) => m.leads_to(signal, n, ok),
            _ => false,
        }
    }

    open spec fn active(&self) -> Map<UniqueBlock, nat> {
        match self {
            KvManager::Manual(m) => m.active(),
            KvManager::KvbmLogical(m) => m.active(),
        }
    }

    open spec fn num_inactive(&self) -> nat {
        match self {
            KvManager::Manual(m) => m.num_inactive(),
            KvManager::KvbmLogical(m) => m.num_inactive(),
        }
    }

    open spec fn present(&self) -> Set<UniqueBlock> {
        match self {
            KvManager::Manual(m) => m.present(),
            KvManager::KvbmLogical(m) => m.present(),
        }
    }

    open spec fn reusable(&self) -> Set<UniqueBlock> {
        match self {
            KvManager::Manual(m) => m.reusable(),
            KvManager::KvbmLogical(m) => m.reusable(),
        }
    }

    open spec fn cached(&self) -> spec_fn(u64, Option<PositionalLineageHash>) -> bool {
        match self {
            KvManager::Manual(m) => m.cached(),
            KvManager::KvbmLogical(m) => m.cached(),
        }
    }

    open spec fn capacity(&self) -> nat {
        match self {
            KvManager::Manual(m) => m.capacity(),
            KvManager::KvbmLogical(m) => m.capacity(),
        }
    }

    open spec fn tokens_per_block(&self) -> nat {
        match self {
            KvManager::Manual(m) => m.tokens_per_block(),
            KvManager::KvbmLogical(m) => m.tokens_per_block(),
        }
    }

    open spec fn headroom(&self, n: nat) -> bool {
        match self {
            KvManager::Manual(m) => m.headroom(n),
            KvManager::KvbmLogical(m) => m.headroom(n),
        }
    }

    proof fn lemma_valid(&self) {
        match self {
            KvManager::Manual(m) => m.lemma_valid(),
            KvManager::KvbmLogical(m) => m.lemma_valid(),
        }
    }

    proof fn lemma_headroom(&self, n: nat, m: nat) {
        match self {
            KvManager::Manual(manager) => manager.lemma_headroom(n, m),
            KvManager::KvbmLogical(manager) => manager.lemma_headroom(n, m),
        }
    }

    proof fn lemma_accepts(&self, signal: Signal) {
        match self {
            KvManager::Manual(m) => m.lemma_accepts(signal),
            KvManager::KvbmLogical(m) => m.lemma_accepts(signal),
        }
    }

    proof fn lemma_leads_to(&self, signal: Signal, after: &Self, ok: bool) {
        match (self, after) {
            (KvManager::Manual(m), KvManager::Manual(n)) => m.lemma_leads_to(signal, n, ok),
            (KvManager::KvbmLogical(m), KvManager::KvbmLogical(n)) => m.lemma_leads_to(
                signal,
                n,
                ok,
            ),
            _ => {},
        }
    }

    fn process(&mut self, event: &MoveBlock) -> (r: bool) {
        match self {
            KvManager::Manual(m) => m.process(event),
            KvManager::KvbmLogical(m) => m.process(event),
        }
    }

    fn max_capacity(&self) -> (n: usize) {
        match self {
            KvManager::Manual(m) => m.max_capacity(),
            KvManager::KvbmLogical(m) => m.max_capacity(),
        }
    }

    fn block_size(&self) -> (n: usize) {
        match self {
            KvManager::Manual(m) => m.block_size(),
            KvManager::KvbmLogical(m) => m.block_size(),
        }
    }

    fn num_active_blocks(&self) -> (n: usize) {
        match self {
            KvManager::Manual(m) => m.num_active_blocks(),
            KvManager::KvbmLogical(m) => m.num_active_blocks(),
        }
    }

    fn num_inactive_blocks(&self) -> (n: usize) {
        match self {
            KvManager::Manual(m) => m.num_inactive_blocks(),
            KvManager::KvbmLogical(m) => m.num_inactive_blocks(),
        }
    }

    fn current_capacity(&self) -> (n: usize) {
        match self {
            KvManager::Manual(m) => m.current_capacity(),
            KvManager::KvbmLogical(m) => m.current_capacity(),
        }
    }

    fn probe_new_blocks(&self, blocks: &[UniqueBlock]) -> (n: usize) {
        match self {
            KvManager::Manual(m) => m.probe_new_blocks(blocks),
            KvManager::KvbmLogical(m) => m.probe_new_blocks(blocks),
        }
    }

    fn is_block_cached(&self, seq_hash: u64, plh: Option<PositionalLineageHash>) -> (r: bool) {
        match self {
            KvManager::Manual(m) => m.is_block_cached(seq_hash, plh),
            KvManager::KvbmLogical(m) => m.is_block_cached(seq_hash, plh),
        }
    }

    fn num_g2_inactive_blocks(&self) -> (n: usize)
        ensures
            n == match self {
                KvManager::Manual(m) => match m@.g2 {
                    Some(g2) => g2.inactive.len(),
                    None => 0,
                },
                KvManager::KvbmLogical(_) => 0,
            },
    {
        match self {
            KvManager::Manual(m) => m.num_g2_inactive_blocks(),
            KvManager::KvbmLogical(_) => 0,
        }
    }

    fn g2_max_capacity(&self) -> (n: usize)
        ensures
            n == match self {
                KvManager::Manual(m) => match m@.g2 {
                    Some(g2) => g2.max_capacity,
                    None => 0,
                },
                KvManager::KvbmLogical(_) => 0,
            },
    {
        match self {
            KvManager::Manual(m) => m.g2_max_capacity(),
            KvManager::KvbmLogical(_) => 0,
        }
    }

    fn is_block_in_g2(&self, seq_hash: u64) -> (r: bool)
        ensures
            r == match self {
                KvManager::Manual(m) => m@.in_g2(UniqueBlock::FullBlock(seq_hash)),
                KvManager::KvbmLogical(_) => false,
            },
    {
        match self {
            KvManager::Manual(m) => m.is_block_in_g2(seq_hash),
            KvManager::KvbmLogical(_) => false,
        }
    }
}

} // verus!
