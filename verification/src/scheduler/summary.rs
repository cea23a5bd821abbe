//! How often the blocks of a request were read.

use std::collections::HashMap;
use vstd::prelude::*;
use crate::common::sequence;
use crate::common::sequence_model;

verus! {

broadcast use {
    vstd::std_specs::hash::group_hash_axioms,
    vstd::set::group_set_axioms,
    vstd::map::group_map_axioms,
};

/// Where a block of a request comes from.
#[derive(Clone, Copy, Debug, PartialEq, Eq, Structural)]
pub enum BlockOrigin {
    /// A prompt block that was found in the cache.
    CachedPrompt,
    /// A block of generated tokens.
    Decode,
    /// A prompt block that had to be computed.
    NewPrompt,
    /// A prompt block.
    Prompt,
}

impl BlockOrigin {
    /// The label of the origin.
    pub open spec fn label(self) -> Seq<char> {
        match self {
            BlockOrigin::CachedPrompt => "cached_prompt"@,
            BlockOrigin::Decode => "decode"@,
            BlockOrigin::NewPrompt => "new_prompt"@,
            BlockOrigin::Prompt => "prompt"@,
        }
    }

    /// The place of the label in alphabetical order.
    pub open spec fn rank(self) -> int {
        match self {
            BlockOrigin::CachedPrompt => 0,
            BlockOrigin::Decode => 1,
            BlockOrigin::NewPrompt => 2,
            BlockOrigin::Prompt => 3,
        }
    }

    /// The label of the origin.
    pub fn as_str(&self) -> (r: &'static str)
        ensures
            r@ == self.label(),
    {
        match self {
            BlockOrigin::CachedPrompt => "cached_prompt",
            BlockOrigin::Decode => "decode",
            BlockOrigin::NewPrompt => "new_prompt",
            BlockOrigin::Prompt => "prompt",
        }
    }

    /// The place of the label in alphabetical order.
    fn place(&self) -> (r: u8)
        ensures
            r == self.rank(),
    {
        match self {
            BlockOrigin::CachedPrompt => 0,
            BlockOrigin::Decode => 1,
            BlockOrigin::NewPrompt => 2,
            BlockOrigin::Prompt => 3,
        }
    }
}

/// How often one block was read.
#[derive(Clone, Copy, Debug, PartialEq, Eq, Structural)]
pub struct DecodeBlockReadSummary {
    /// The id of the block.
    pub block_id: u64,
    /// The number of reads.
    pub read_count: usize,
    /// Where the block comes from.
    pub block_origin: BlockOrigin,
}

/// The blocks that were read most come first; of those read equally often, the order is that of
/// the labels of their origins, then that of their ids.
pub open spec fn in_order(a: DecodeBlockReadSummary, b: DecodeBlockReadSummary) -> bool {
    ||| a.read_count > b.read_count
    ||| a.read_count == b.read_count && a.block_origin.rank() < b.block_origin.rank()
    ||| a.read_count == b.read_count && a.block_origin.rank() == b.block_origin.rank()
        && a.block_id <= b.block_id
}

/// The summaries are in order.
pub open spec fn sorted(s: Seq<DecodeBlockReadSummary>) -> bool {
    forall|i: int, j: int| 0 <= i <= j < s.len() ==> in_order(#[trigger] s[i], #[trigger] s[j])
}

/// All reads together.
pub open spec fn total_reads(s: Seq<DecodeBlockReadSummary>) -> nat
    decreases s.len(),
{
    if s.len() == 0 {
        0
    } else {
        total_reads(s.drop_last()) + s.last().read_count as nat
    }
}

/// Whether `a` may stand before `b`.
fn may_precede(a: &DecodeBlockReadSummary, b: &DecodeBlockReadSummary) -> (r: bool)
    ensures
        r == in_order(*a, *b),
{
    if a.read_count != b.read_count {
        return a.read_count > b.read_count;
    }
    let a_place = a.block_origin.place();
    let b_place = b.block_origin.place();
    if a_place != b_place {
        return a_place < b_place;
    }
    a.block_id <= b.block_id
}

/// Puts summaries in order.
pub fn sort_block_read_summaries(blocks: &mut Vec<DecodeBlockReadSummary>)
    ensures
        sorted(final(blocks)@),
        final(blocks)@.to_multiset() == old(blocks)@.to_multiset(),
{
    let n = blocks.len();
    let mut i: usize = 0;
    while i < n
        invariant
            i <= n,
            n == blocks@.len(),
            sorted(blocks@.take(i as int)),
            blocks@.to_multiset() == old(blocks)@.to_multiset(),
        decreases n - i,
    {
        assert forall|a: int, b: int| 0 <= a <= b < i implies in_order(
            #[trigger] blocks@[a],
            #[trigger] blocks@[b],
        ) by {
            assert(in_order(blocks@.take(i as int)[a], blocks@.take(i as int)[b]));
        }
        let mut j: usize = i;
        // The summary at `j` moves to the left until it is in order.
        while j > 0 && !may_precede(&blocks[j - 1], &blocks[j])
            invariant
                j <= i < n,
                n == blocks@.len(),
                blocks@.to_multiset() == old(blocks)@.to_multiset(),
                forall|a: int, b: int|
                    0 <= a <= b <= i && a != j && b != j ==> in_order(
                        #[trigger] blocks@[a],
                        #[trigger] blocks@[b],
                    ),
                forall|b: int| j <= b <= i ==> in_order(blocks@[j as int], #[trigger] blocks@[b]),
            decreases j,
        {
            let ghost s = blocks@;
            let left = blocks[j - 1];
            let right = blocks[j];
            blocks.set(j - 1, right);
            blocks.set(j, left);
            proof {
                lemma_swap(s, j - 1);
                assert(blocks@ =~= s.update(j - 1, s[j as int]).update(j as int, s[j - 1]));
            }
            j -= 1;
        }
        assert forall|a: int, b: int| 0 <= a <= b < i + 1 implies in_order(
            #[trigger] blocks@.take(i + 1)[a],
            #[trigger] blocks@.take(i + 1)[b],
        ) by {
            if b == j && a < j {
                assert(in_order(blocks@[a], blocks@[j - 1]));
            }
        }
        i += 1;
    }
    assert(blocks@.take(i as int) =~= blocks@);
}

/// Two neighbours change places.
proof fn lemma_swap(s: Seq<DecodeBlockReadSummary>, i: int)
    requires
        0 <= i < s.len() - 1,
    ensures
        s.update(i, s[i + 1]).update(i + 1, s[i]).to_multiset() == s.to_multiset(),
{
    broadcast use vstd::seq_lib::group_to_multiset_ensures;

    let t = s.update(i, s[i + 1]);
    vstd::seq_lib::to_multiset_update(s, i, s[i + 1]);
    vstd::seq_lib::to_multiset_update(t, i + 1, s[i]);
    assert(t.update(i + 1, s[i]).to_multiset() =~= s.to_multiset());
}

/// The summaries of a prefill: the cached blocks come first, and were read once.
pub open spec fn prefill_summaries(ids: Seq<u64>, cached_blocks: nat) -> Seq<
    DecodeBlockReadSummary,
> {
    Seq::new(
        ids.len(),
        |i: int|
            DecodeBlockReadSummary {
                block_id: ids[i],
                read_count: if i < cached_blocks {
                    1
                } else {
                    0
                },
                block_origin: if i < cached_blocks {
                    BlockOrigin::CachedPrompt
                } else {
                    BlockOrigin::NewPrompt
                },
            },
    )
}

/// The summaries of the decode phase: the blocks of the prompt come first.
pub open spec fn decode_summaries(
    ids: Seq<u64>,
    reads: Map<u64, nat>,
    prompt_full_blocks: nat,
) -> Seq<DecodeBlockReadSummary> {
    Seq::new(
        ids.len(),
        |i: int|
            DecodeBlockReadSummary {
                block_id: ids[i],
                read_count: sequence_model::read_count(reads, ids[i]) as usize,
                block_origin: if i < prompt_full_blocks {
                    BlockOrigin::Prompt
                } else {
                    BlockOrigin::Decode
                },
            },
    )
}

/// What was read of a request's blocks in its prefill.
#[derive(Debug)]
pub struct PrefillReadReport {
    /// The request.
    pub uuid: u128,
    /// Tokens per block.
    pub block_size: usize,
    /// The number of complete blocks.
    pub total_full_blocks: usize,
    /// The number of blocks found in the cache.
    pub cached_blocks: usize,
    /// The number of other blocks.
    pub new_blocks: usize,
    /// All reads together.
    pub total_prefill_reads: usize,
    /// The reads of each block.
    pub per_block_reads: Vec<DecodeBlockReadSummary>,
}

impl PrefillReadReport {
    /// The report on a request whose complete blocks are `ids`, `new_blocks` blocks of which were
    /// not found in the cache.
    pub open spec fn tells(
        &self,
        uuid: u128,
        block_size: nat,
        ids: Seq<u64>,
        new_blocks: nat,
    ) -> bool {
        let cached = if ids.len() >= new_blocks {
            (ids.len() - new_blocks) as nat
        } else {
            0
        };
        &&& self.uuid == uuid
        &&& self.block_size == block_size
        &&& self.total_full_blocks == ids.len()
        &&& self.cached_blocks == cached
        &&& self.new_blocks == new_blocks
        &&& self.total_prefill_reads == total_reads(self.per_block_reads@)
        &&& sorted(self.per_block_reads@)
        &&& self.per_block_reads@.to_multiset() == prefill_summaries(ids, cached).to_multiset()
    }

    /// Makes the report on a prefill.
    pub fn new(uuid: u128, block_size: usize, ids: Vec<u64>, new_blocks: usize) -> (r: Self)
        ensures
            r.tells(uuid, block_size as nat, ids@, new_blocks as nat),
    {
        let total_full_blocks = ids.len();
        let cached_blocks: usize = if total_full_blocks >= new_blocks {
            total_full_blocks - new_blocks
        } else {
            0
        };
        let ghost all = prefill_summaries(ids@, cached_blocks as nat);
        let mut per_block_reads: Vec<DecodeBlockReadSummary> = Vec::new();
        let mut i: usize = 0;
        while i < total_full_blocks
            invariant
                i <= total_full_blocks,
                total_full_blocks == ids@.len(),
                all == prefill_summaries(ids@, cached_blocks as nat),
                per_block_reads@ == all.take(i as int),
            decreases total_full_blocks - i,
        {
            per_block_reads.push(
                DecodeBlockReadSummary {
                    block_id: ids[i],
                    read_count: if i < cached_blocks {
                        1
                    } else {
                        0
                    },
                    block_origin: if i < cached_blocks {
                        BlockOrigin::CachedPrompt
                    } else {
                        BlockOrigin::NewPrompt
                    },
                },
            );
            i += 1;
        }
        assert(all.take(i as int) =~= all);
        sort_block_read_summaries(&mut per_block_reads);
        proof {
            lemma_at_most_one(per_block_reads@, all);
        }
        let mut total_prefill_reads: usize = 0;
        let mut k: usize = 0;
        while k < per_block_reads.len()
            invariant
                k <= per_block_reads@.len(),
                forall|j: int|
                    0 <= j < per_block_reads@.len() ==> (#[trigger] per_block_reads@[j]).read_count
                        <= 1,
                total_prefill_reads <= k,
                total_prefill_reads == total_reads(per_block_reads@.take(k as int)),
            decreases per_block_reads@.len() - k,
        {
            assert(per_block_reads@.take(k + 1).drop_last() =~= per_block_reads@.take(k as int));
            total_prefill_reads = total_prefill_reads + per_block_reads[k].read_count;
            k += 1;
        }
        assert(per_block_reads@.take(k as int) =~= per_block_reads@);
        PrefillReadReport {
            uuid,
            block_size,
            total_full_blocks,
            cached_blocks,
            new_blocks,
            total_prefill_reads,
            per_block_reads,
        }
    }
}

/// A block is read at most once in a prefill.
proof fn lemma_at_most_one(s: Seq<DecodeBlockReadSummary>, all: Seq<DecodeBlockReadSummary>)
    requires
        s.to_multiset() == all.to_multiset(),
        forall|i: int| 0 <= i < all.len() ==> (#[trigger] all[i]).read_count <= 1,
    ensures
        forall|i: int| 0 <= i < s.len() ==> (#[trigger] s[i]).read_count <= 1,
{
    broadcast use vstd::seq_lib::group_to_multiset_ensures;

    assert forall|i: int| 0 <= i < s.len() implies (#[trigger] s[i]).read_count <= 1 by {
        assert(s.contains(s[i]));
        assert(s.to_multiset().contains(s[i]));
        assert(all.contains(s[i]));
    }
}

/// The sum of the counts of `ids`.
pub open spec fn sum_reads(reads: Map<u64, nat>, ids: Seq<u64>) -> nat
    decreases ids.len(),
{
    if ids.len() == 0 {
        0
    } else {
        sum_reads(reads, ids.drop_last()) + reads[ids.last()]
    }
}

/// `total` is the sum of all counts.
pub open spec fn is_total(reads: Map<u64, nat>, total: nat) -> bool {
    exists|ids: Seq<u64>|
        ids.no_duplicates() && ids.to_set() == reads.dom() && total == #[trigger] sum_reads(
            reads,
            ids,
        )
}

/// The sum of all counts.
fn total_of(reads: &HashMap<u64, usize>) -> (total: u128)
    ensures
        is_total(sequence::read_counts(reads@), total as nat),
{
    let ghost counts = sequence::read_counts(reads@);
    let ghost ids: Seq<u64> = Seq::empty();
    let n = reads.len();
    let mut total: u128 = 0;
    for id in it: reads.keys()
        invariant
            counts == sequence::read_counts(reads@),
            n == reads@.dom().len(),
            n == it.seq().len(),
            it.seq().unref().to_set() == reads@.dom(),
            total <= it.index() * usize::MAX,
            total == sum_reads(counts, it.seq().unref().take(it.index() as int)),
    {
        let ghost k = it.index() as int;
        let ghost all = it.seq().unref();
        proof {
            assert(all[k] == *id);
            assert(all.contains(*id));
            assert(all.to_set().contains(*id));
            assert(all.take(k + 1).drop_last() =~= all.take(k));
            assert(k * usize::MAX + usize::MAX == (k + 1) * usize::MAX) by (nonlinear_arith);
            assert((k + 1) * usize::MAX <= usize::MAX * usize::MAX) by (nonlinear_arith)
                requires
                    k + 1 <= usize::MAX,
            ;
        }
        let count = match reads.get(id) {
            Some(count) => *count,
            None => 0,
        };
        assert(usize::MAX * usize::MAX <= u128::MAX) by (nonlinear_arith)
            requires
                usize::MAX <= u64::MAX,
        ;
        total = total + count as u128;
    }
    proof {
        let all = vstd::std_specs::iter::IteratorSpec::remaining(
            &vstd::std_specs::hash::spec_keys_iter(reads),
        ).unref();
        assert(all.take(all.len() as int) =~= all);
        assert(counts.dom() =~= reads@.dom());
        assert(total == sum_reads(counts, all));
    }
    total
}

/// What was read of a request's blocks while its tokens were generated.
#[derive(Debug)]
pub struct DecodeReadReport {
    /// The request.
    pub uuid: u128,
    /// Tokens per block.
    pub block_size: usize,
    /// The number of complete blocks of the prompt.
    pub prompt_full_blocks: usize,
    /// The number of other complete blocks.
    pub decode_full_blocks: usize,
    /// All reads together.
    pub total_decode_reads: u128,
    /// The reads of each block.
    pub per_block_reads: Vec<DecodeBlockReadSummary>,
}

impl DecodeReadReport {
    /// The report on a request with `num_input_tokens` tokens in its prompt, whose complete blocks
    /// are `ids` and were read as `reads` tells.
    pub open spec fn tells(
        &self,
        uuid: u128,
        block_size: nat,
        num_input_tokens: nat,
        ids: Seq<u64>,
        reads: Map<u64, nat>,
    ) -> bool {
        let prompt = num_input_tokens / block_size;
        &&& self.uuid == uuid
        &&& self.block_size == block_size
        &&& self.prompt_full_blocks == prompt
        &&& self.decode_full_blocks == if ids.len() >= prompt {
            ids.len() - prompt
        } else {
            0
        }
        &&& is_total(reads, self.total_decode_reads as nat)
        &&& sorted(self.per_block_reads@)
        &&& self.per_block_reads@.to_multiset() == decode_summaries(ids, reads, prompt).to_multiset()
    }

    /// Makes the report on a decode phase.
    pub fn new(
        uuid: u128,
        block_size: usize,
        num_input_tokens: usize,
        ids: Vec<u64>,
        reads: HashMap<u64, usize>,
    ) -> (r: Self)
        requires
            block_size > 0,
        ensures
            r.tells(
                uuid,
                block_size as nat,
                num_input_tokens as nat,
                ids@,
                sequence::read_counts(reads@),
            ),
    {
        let prompt_full_blocks = num_input_tokens / block_size;
        let ghost counts = sequence::read_counts(reads@);
        let ghost all = decode_summaries(ids@, counts, prompt_full_blocks as nat);
        let mut per_block_reads: Vec<DecodeBlockReadSummary> = Vec::new();
        let mut i: usize = 0;
        while i < ids.len()
            invariant
                i <= ids@.len(),
                counts == sequence::read_counts(reads@),
                all == decode_summaries(ids@, counts, prompt_full_blocks as nat),
                per_block_reads@ == all.take(i as int),
            decreases ids@.len() - i,
        {
            let block_id = ids[i];
            let read_count = match reads.get(&block_id) {
                Some(count) => *count,
                None => 0,
            };
            per_block_reads.push(
                DecodeBlockReadSummary {
                    block_id,
                    read_count,
                    block_origin: if i < prompt_full_blocks {
                        BlockOrigin::Prompt
                    } else {
                        BlockOrigin::Decode
                    },
                },
            );
            i += 1;
        }
        assert(all.take(i as int) =~= all);
        let decode_full_blocks: usize = if ids.len() >= prompt_full_blocks {
            ids.len() - prompt_full_blocks
        } else {
            0
        };
        sort_block_read_summaries(&mut per_block_reads);
        let total_decode_reads = total_of(&reads);
        DecodeReadReport {
            uuid,
            block_size,
            prompt_full_blocks,
            decode_full_blocks,
            total_decode_reads,
            per_block_reads,
        }
    }
}

} // verus!
