//! Signals, events and plain records exchanged between the parts of the engine.

use vstd::prelude::*;

verus! {

/// A hash that encodes a block's place in its chain of predecessors.
pub type PositionalLineageHash = u128;

/// Identity of a KV block.
#[derive(Clone, Copy, Debug, PartialEq, Eq, Structural)]
pub enum UniqueBlock {
    /// A block still being filled, identified by a random id.
    PartialBlock(u128),
    /// A complete block, identified by its hash.
    FullBlock(u64),
}

/// An instruction for a KV manager.
#[derive(Debug)]
pub enum MoveBlock {
    /// Take a reference on each block: the blocks, the content hashes and the lineage hashes of
    /// the complete ones, and optionally their token ids.
    Use(Vec<UniqueBlock>, Vec<u64>, Vec<PositionalLineageHash>, Option<Vec<Vec<u32>>>),
    /// Drop active blocks, whatever their reference count.
    Destroy(Vec<UniqueBlock>),
    /// Give back one reference on each block.
    Deref(Vec<UniqueBlock>),
    /// Turn a partial block into a complete one: the id of the partial block, the hash of the
    /// complete one, the hash of its predecessor, its content hash, its lineage hash and
    /// optionally its token ids.
    Promote(u128, u64, Option<u64>, u64, PositionalLineageHash, Option<Vec<u32>>),
}

/// What a [`MoveBlock`] says.
#[verifier::ext_equal]
pub enum Signal {
    /// Take a reference on each block.
    Use {
        blocks: Seq<UniqueBlock>,
        local_hashes: Seq<u64>,
        lineage_hashes: Seq<PositionalLineageHash>,
        token_ids: Option<Seq<Seq<u32>>>,
    },
    /// Drop active blocks.
    Destroy { blocks: Seq<UniqueBlock> },
    /// Give back one reference on each block.
    Deref { blocks: Seq<UniqueBlock> },
    /// Turn a partial block into a complete one.
    Promote {
        uuid: u128,
        hash: u64,
        parent_hash: Option<u64>,
        local_hash: u64,
        lineage_hash: PositionalLineageHash,
        promoted_ids: Option<Seq<u32>>,
    },
}

/// The contents of a list of token lists.
pub open spec fn token_lists(lists: Seq<Vec<u32>>) -> Seq<Seq<u32>> {
    lists.map_values(|list: Vec<u32>| list@)
}

/// The contents of an optional list of token lists.
pub open spec fn optional_token_lists(lists: Option<Vec<Vec<u32>>>) -> Option<Seq<Seq<u32>>> {
    match lists {
        Some(lists) => Some(token_lists(lists@)),
        None => None,
    }
}

/// The contents of an optional token list.
pub open spec fn optional_tokens(list: Option<Vec<u32>>) -> Option<Seq<u32>> {
    match list {
        Some(list) => Some(list@),
        None => None,
    }
}

impl View for MoveBlock {
    type V = Signal;

    open spec fn view(&self) -> Signal {
        match *self {
            MoveBlock::Use(blocks, local_hashes, lineage_hashes, token_ids) => Signal::Use {
                blocks: blocks@,
                local_hashes: local_hashes@,
                lineage_hashes: lineage_hashes@,
                token_ids: optional_token_lists(token_ids),
            },
            MoveBlock::Destroy(blocks) => Signal::Destroy { blocks: blocks@ },
            MoveBlock::Deref(blocks) => Signal::Deref { blocks: blocks@ },
            MoveBlock::Promote(uuid, hash, parent_hash, local_hash, lineage_hash, token_ids) =>
                Signal::Promote {
                uuid,
                hash,
                parent_hash,
                local_hash,
                lineage_hash,
                promoted_ids: optional_tokens(token_ids),
            },
        }
    }
}

/// A copy of a list of numbers.
pub fn copy_tokens(tokens: &Vec<u32>) -> (r: Vec<u32>)
    ensures
        r@ == tokens@,
{
    let mut copy: Vec<u32> = Vec::new();
    let mut i: usize = 0;
    while i < tokens.len()
        invariant
            i <= tokens.len(),
            copy@ == tokens@.take(i as int),
        decreases tokens.len() - i,
    {
        copy.push(tokens[i]);
        i += 1;
    }
    assert(tokens@.take(i as int) =~= tokens@);
    copy
}

/// A copy of a list of blocks.
pub fn copy_blocks(blocks: &Vec<UniqueBlock>) -> (r: Vec<UniqueBlock>)
    ensures
        r@ == blocks@,
{
    let mut copy: Vec<UniqueBlock> = Vec::new();
    let mut i: usize = 0;
    while i < blocks.len()
        invariant
            i <= blocks.len(),
            copy@ == blocks@.take(i as int),
        decreases blocks.len() - i,
    {
        copy.push(blocks[i]);
        i += 1;
    }
    assert(blocks@.take(i as int) =~= blocks@);
    copy
}

/// The blocks and tokens that a prefill has to compute.
#[derive(Clone, Copy, Debug, PartialEq, Eq, Structural)]
pub struct PrefillCost {
    /// Blocks that are not in the cached prefix.
    pub new_blocks: usize,
    /// Input tokens that are not in the cached prefix.
    pub new_tokens: usize,
}

/// A request as it comes in.
#[derive(Debug)]
pub struct DirectRequest {
    /// The input tokens.
    pub tokens: Vec<u32>,
    /// The number of tokens to generate.
    pub max_output_tokens: usize,
    /// The id of the request, if the sender has chosen one.
    pub uuid: Option<u128>,
    /// The rank that the request is meant for.
    pub dp_rank: u32,
}

/// Notice of one generated token.
#[derive(Clone, Copy, Debug, PartialEq, Eq, Structural)]
pub struct OutputSignal {
    /// The request that the token belongs to.
    pub uuid: u128,
    /// Whether it was the last token of the request.
    pub completed: bool,
}

/// The available kinds of KV manager.
#[derive(Clone, Copy, Debug, PartialEq, Eq, Structural)]
pub enum KvManagerBackend {
    /// Reference counting on a hash cache.
    Manual,
    /// A logical block manager.
    KvbmLogical,
}

/// The order in which a logical block manager evicts.
#[derive(Clone, Copy, Debug, PartialEq, Eq, Structural)]
pub enum MockerEvictionBackend {
    /// Leaves of the lineage tree first.
    Lineage,
    /// Least recently used first.
    Lru,
    /// Several queues by frequency of use.
    MultiLru,
}

/// A block that was stored.
#[derive(Clone, Copy, Debug, PartialEq, Eq, Structural)]
pub struct KvCacheStoredBlockData {
    /// The hash of the block in its sequence.
    pub block_hash: u64,
    /// The hash of the block's tokens alone.
    pub tokens_hash: u64,
}

/// What a cache event reports.
#[derive(Debug)]
pub enum KvCacheEventData {
    /// Blocks were stored, one after the other, behind a parent block.
    Stored { parent_hash: Option<u64>, blocks: Vec<KvCacheStoredBlockData> },
    /// Blocks were removed.
    Removed { block_hashes: Vec<u64> },
}

/// A change of the cache, for whoever tracks its contents.
#[derive(Debug)]
pub struct KvCacheEvent {
    /// The number of the event.
    pub event_id: u64,
    /// What has changed.
    pub data: KvCacheEventData,
    /// The rank of the cache.
    pub dp_rank: u32,
    /// The tokens of the stored blocks, if they are to be reported.
    pub token_ids: Option<Vec<Vec<u32>>>,
}

/// What a [`KvCacheEventData`] says.
#[verifier::ext_equal]
pub enum Change {
    /// Blocks were stored: pairs of block hash and tokens hash.
    Stored { parent_hash: Option<u64>, blocks: Seq<KvCacheStoredBlockData> },
    /// Blocks were removed.
    Removed { block_hashes: Seq<u64> },
}

/// What a [`KvCacheEvent`] says.
#[verifier::ext_equal]
pub struct EventRecord {
    /// The number of the event.
    pub event_id: nat,
    /// What has changed.
    pub change: Change,
    /// The rank of the cache.
    pub dp_rank: u32,
    /// The tokens of the stored blocks.
    pub token_ids: Option<Seq<Seq<u32>>>,
}

impl View for KvCacheEventData {
    type V = Change;

    open spec fn view(&self) -> Change {
        match *self {
            KvCacheEventData::Stored { parent_hash, blocks } => Change::Stored {
                parent_hash,
                blocks: blocks@,
            },
            KvCacheEventData::Removed { block_hashes } => Change::Removed {
                block_hashes: block_hashes@,
            },
        }
    }
}

impl View for KvCacheEvent {
    type V = EventRecord;

    open spec fn view(&self) -> EventRecord {
        EventRecord {
            event_id: self.event_id as nat,
            change: self.data@,
            dp_rank: self.dp_rank,
            token_ids: optional_token_lists(self.token_ids),
        }
    }
}

/// The events of a list.
pub open spec fn event_records(events: Seq<KvCacheEvent>) -> Seq<EventRecord> {
    events.map_values(|event: KvCacheEvent| event@)
}

/// Where a cache reports its changes: a queue that is emptied by whoever sends them on.
#[derive(Debug)]
pub struct KvCacheEventSink {
    events: Vec<KvCacheEvent>,
}

impl View for KvCacheEventSink {
    type V = Seq<EventRecord>;

    closed spec fn view(&self) -> Seq<EventRecord> {
        event_records(self.events@)
    }
}

impl KvCacheEventSink {
    /// A sink without events.
    pub fn new() -> (r: Self)
        ensures
            r@ == Seq::<EventRecord>::empty(),
    {
        let r = KvCacheEventSink { events: Vec::new() };
        assert(r@ =~= Seq::<EventRecord>::empty());
        r
    }

    /// Adds an event.
    pub fn publish(&mut self, event: KvCacheEvent)
        ensures
            final(self)@ == old(self)@.push(event@),
    {
        self.events.push(event);
        assert(self@ =~= old(self)@.push(event@));
    }

    /// Empties the queue; returns the events, the oldest first.
    pub fn take(&mut self) -> (r: Vec<KvCacheEvent>)
        ensures
            event_records(r@) == old(self)@,
            final(self)@ == Seq::<EventRecord>::empty(),
    {
        let mut events: Vec<KvCacheEvent> = Vec::new();
        std::mem::swap(&mut events, &mut self.events);
        assert(self@ =~= Seq::<EventRecord>::empty());
        events
    }
}

/// How full the first tier of a cache is.
#[derive(Clone, Copy, Debug, PartialEq, Eq, Structural)]
pub struct PoolUsage {
    /// Free slots.
    pub free: usize,
    /// Active blocks.
    pub active: usize,
    /// Inactive blocks.
    pub inactive: usize,
    /// All slots.
    pub total: usize,
}

/// A movement between the two tiers of a cache.
#[derive(Clone, Copy, Debug, PartialEq, Eq, Structural)]
pub enum TierEvent {
    /// A block was discarded from the second tier.
    G2Eviction,
    /// A block moved from the first tier to the second.
    G1ToG2Offload,
    /// A block moved from the second tier to the first.
    G2ToG1Onboard,
}

/// A trace record.
#[derive(Debug)]
pub enum KvCacheTrace {
    /// Blocks were allocated in the first tier, or evicted from it.
    Pool { is_store: bool, block_ids: Vec<u64>, usage: PoolUsage },
    /// A block moved between the tiers.
    Tier {
        event: TierEvent,
        block_id: u64,
        usage: PoolUsage,
        g2_free: usize,
        g2_inactive: usize,
        g2_total: usize,
    },
    /// Requested blocks were found in the cache.
    CacheHit {
        g1_active_block_ids: Vec<u64>,
        g1_inactive_block_ids: Vec<u64>,
        g2_block_ids: Vec<u64>,
        usage: PoolUsage,
    },
}

/// What a [`KvCacheTrace`] says.
#[verifier::ext_equal]
pub enum TraceRecord {
    /// Blocks were allocated in the first tier, or evicted from it.
    Pool { is_store: bool, block_ids: Seq<u64>, usage: PoolUsage },
    /// A block moved between the tiers.
    Tier {
        event: TierEvent,
        block_id: u64,
        usage: PoolUsage,
        g2_free: usize,
        g2_inactive: usize,
        g2_total: usize,
    },
    /// Requested blocks were found in the cache.
    CacheHit {
        g1_active_block_ids: Seq<u64>,
        g1_inactive_block_ids: Seq<u64>,
        g2_block_ids: Seq<u64>,
        usage: PoolUsage,
    },
}

/// The records of a list.
pub open spec fn trace_records(traces: Seq<KvCacheTrace>) -> Seq<TraceRecord> {
    traces.map_values(|trace: KvCacheTrace| trace@)
}

impl View for KvCacheTrace {
    type V = TraceRecord;

    open spec fn view(&self) -> TraceRecord {
        match *self {
            KvCacheTrace::Pool { is_store, block_ids, usage } => TraceRecord::Pool {
                is_store,
                block_ids: block_ids@,
                usage,
            },
            KvCacheTrace::Tier { event, block_id, usage, g2_free, g2_inactive, g2_total } =>
                TraceRecord::Tier { event, block_id, usage, g2_free, g2_inactive, g2_total },
            KvCacheTrace::CacheHit {
                g1_active_block_ids,
                g1_inactive_block_ids,
                g2_block_ids,
                usage,
            } => TraceRecord::CacheHit {
                g1_active_block_ids: g1_active_block_ids@,
                g1_inactive_block_ids: g1_inactive_block_ids@,
                g2_block_ids: g2_block_ids@,
                usage,
            },
        }
    }
}

} // verus!
