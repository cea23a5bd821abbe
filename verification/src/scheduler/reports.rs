//! What the reports on the reads of blocks tell, in numbers.

use vstd::prelude::*;
use crate::scheduler::summary;
use crate::scheduler::summary::{
    BlockOrigin, DecodeBlockReadSummary, DecodeReadReport, PrefillReadReport,
};

verus! {

broadcast use {vstd::set::group_set_axioms, vstd::map::group_map_axioms};

/// The origins by the alphabetical order of their labels: "cached_prompt", "decode", "new_prompt",
/// "prompt".
pub open spec fn alphabetical(origin: BlockOrigin) -> int {
    match origin {
        BlockOrigin::CachedPrompt => 1,
        BlockOrigin::Decode => 2,
        BlockOrigin::NewPrompt => 3,
        BlockOrigin::Prompt => 4,
    }
}

/// The blocks that were read most come first. Of those read equally often, the ones whose origin
/// comes first by its label; of these, the ones with the lower id.
pub proof fn lemma_most_read_first(s: Seq<DecodeBlockReadSummary>, i: int, j: int)
    requires
        summary::sorted(s),
        0 <= i < j < s.len(),
    ensures
        s[i].read_count >= s[j].read_count,
        s[i].read_count == s[j].read_count ==> alphabetical(s[i].block_origin) <= alphabetical(
            s[j].block_origin,
        ),
        s[i].read_count == s[j].read_count && s[i].block_origin == s[j].block_origin
            ==> s[i].block_id <= s[j].block_id,
{
    assert(summary::in_order(s[i], s[j]));
}

/// The labels of the origins.
pub proof fn lemma_labels()
    ensures
        BlockOrigin::CachedPrompt.label() == "cached_prompt"@,
        BlockOrigin::Decode.label() == "decode"@,
        BlockOrigin::NewPrompt.label() == "new_prompt"@,
        BlockOrigin::Prompt.label() == "prompt"@,
{
}

/// The sum of reads does not depend on their order.
proof fn lemma_total_by_multiset(a: Seq<DecodeBlockReadSummary>, b: Seq<DecodeBlockReadSummary>)
    requires
        a.to_multiset() == b.to_multiset(),
    ensures
        summary::total_reads(a) == summary::total_reads(b),
{
    let step = |sum: nat, x: DecodeBlockReadSummary| sum + x.read_count as nat;
    lemma_total_is_fold(a, step);
    lemma_total_is_fold(b, step);
    vstd::seq_lib::lemma_fold_left_permutation(a, b, step, 0nat);
}

/// The sum of reads, made step by step.
proof fn lemma_total_is_fold(
    s: Seq<DecodeBlockReadSummary>,
    step: spec_fn(nat, DecodeBlockReadSummary) -> nat,
)
    requires
        forall|sum: nat, x: DecodeBlockReadSummary| #[trigger]
            step(sum, x) == sum + x.read_count as nat,
    ensures
        s.fold_left(0nat, step) == summary::total_reads(s),
    decreases s.len(),
{
    if s.len() > 0 {
        lemma_total_is_fold(s.drop_last(), step);
    }
}

/// The reads of blocks of which the first `cached` were read once.
proof fn lemma_total_of_cached(s: Seq<DecodeBlockReadSummary>, cached: nat)
    requires
        forall|i: int|
            0 <= i < s.len() ==> (#[trigger] s[i]).read_count == if i < cached {
                1int
            } else {
                0
            },
    ensures
        summary::total_reads(s) == if s.len() < cached {
            s.len()
        } else {
            cached
        },
    decreases s.len(),
{
    if s.len() > 0 {
        let rest = s.drop_last();
        assert forall|i: int| 0 <= i < rest.len() implies (#[trigger] rest[i]).read_count == if i
            < cached {
            1int
        } else {
            0
        } by {
            assert(rest[i] == s[i]);
        }
        lemma_total_of_cached(rest, cached);
        assert(s[s.len() - 1].read_count == if s.len() - 1 < cached {
            1int
        } else {
            0
        });
    }
}

/// The report on a prefill: of the complete blocks, those that are not new were cached, and these
/// are the first ones; each was read once, the others not at all. Every block is told of once.
pub proof fn lemma_prefill_report(
    report: PrefillReadReport,
    uuid: u128,
    block_size: nat,
    ids: Seq<u64>,
    new_blocks: nat,
)
    requires
        report.tells(uuid, block_size, ids, new_blocks),
    ensures
        ({
            let cached: int = if new_blocks <= ids.len() {
                ids.len() - new_blocks
            } else {
                0
            };
            &&& report.uuid == uuid
            &&& report.block_size == block_size
            &&& report.total_full_blocks == ids.len()
            &&& report.cached_blocks == cached
            &&& report.new_blocks == new_blocks
            &&& report.total_prefill_reads == cached
            &&& summary::sorted(report.per_block_reads@)
            &&& report.per_block_reads@.to_multiset() == Seq::new(
                ids.len(),
                |i: int|
                    DecodeBlockReadSummary {
                        block_id: ids[i],
                        read_count: if i < cached {
                            1
                        } else {
                            0
                        },
                        block_origin: if i < cached {
                            BlockOrigin::CachedPrompt
                        } else {
                            BlockOrigin::NewPrompt
                        },
                    },
            ).to_multiset()
        }),
{
    let cached: int = if new_blocks <= ids.len() {
        ids.len() - new_blocks
    } else {
        0
    };
    let all = Seq::new(
        ids.len(),
        |i: int|
            DecodeBlockReadSummary {
                block_id: ids[i],
                read_count: if i < cached {
                    1
                } else {
                    0
                },
                block_origin: if i < cached {
                    BlockOrigin::CachedPrompt
                } else {
                    BlockOrigin::NewPrompt
                },
            },
    );
    assert(summary::prefill_summaries(ids, cached as nat) =~= all);
    lemma_total_by_multiset(report.per_block_reads@, all);
    lemma_total_of_cached(all, cached as nat);
}

/// The report on a decode phase: the complete blocks of the prompt come from the prompt, the others
/// from the decode phase, and each was read as often as was counted. Every block is told of once.
pub proof fn lemma_decode_report(
    report: DecodeReadReport,
    uuid: u128,
    block_size: nat,
    num_input_tokens: nat,
    ids: Seq<u64>,
    reads: Map<u64, nat>,
)
    requires
        block_size > 0,
        report.tells(uuid, block_size, num_input_tokens, ids, reads),
    ensures
        ({
            let prompt = num_input_tokens / block_size;
            &&& report.uuid == uuid
            &&& report.block_size == block_size
            &&& report.prompt_full_blocks == prompt
            &&& prompt <= ids.len() ==> report.decode_full_blocks == ids.len() - prompt
            &&& prompt > ids.len() ==> report.decode_full_blocks == 0
            &&& summary::sorted(report.per_block_reads@)
            &&& report.per_block_reads@.to_multiset() == Seq::new(
                ids.len(),
                |i: int|
                    DecodeBlockReadSummary {
                        block_id: ids[i],
                        read_count: if reads.contains_key(ids[i]) {
                            reads[ids[i]] as usize
                        } else {
                            0
                        },
                        block_origin: if i < prompt {
                            BlockOrigin::Prompt
                        } else {
                            BlockOrigin::Decode
                        },
                    },
            ).to_multiset()
            &&& summary::is_total(reads, report.total_decode_reads as nat)
        }),
{
    let prompt = num_input_tokens / block_size;
    let all = Seq::new(
        ids.len(),
        |i: int|
            DecodeBlockReadSummary {
                block_id: ids[i],
                read_count: if reads.contains_key(ids[i]) {
                    reads[ids[i]] as usize
                } else {
                    0
                },
                block_origin: if i < prompt {
                    BlockOrigin::Prompt
                } else {
                    BlockOrigin::Decode
                },
            },
    );
    assert(summary::decode_summaries(ids, reads, prompt) =~= all);
}

/// The total of a table of reads: nothing for an empty table, one total for each table, and with one
/// more id, its count more.
pub proof fn lemma_total_adds_up(
    reads: Map<u64, nat>,
    total: nat,
    other: nat,
    id: u64,
    count: nat,
)
    requires
        summary::is_total(reads, total),
        !reads.contains_key(id),
    ensures
        summary::is_total(reads, other) ==> other == total,
        reads.dom().len() == 0 && reads.dom().finite() ==> total == 0,
        summary::is_total(reads.insert(id, count), total + count),
{
    let ids = choose|ids: Seq<u64>|
        ids.no_duplicates() && ids.to_set() == reads.dom() && total == #[trigger]
            summary::sum_reads(reads, ids);
    let more = ids.push(id);
    let grown = reads.insert(id, count);
    assert(!ids.contains(id)) by {
        if ids.contains(id) {
            assert(ids.to_set().contains(id));
        }
    }
    assert(more.no_duplicates());
    assert(more.to_set() =~= grown.dom()) by {
        assert forall|x: u64| more.to_set().contains(x) <==> grown.dom().contains(x) by {
            if ids.contains(x) {
                assert(more[ids.index_of(x)] == x);
                assert(ids.to_set().contains(x));
            }
            if x == id {
                assert(more[ids.len() as int] == x);
            }
            if grown.dom().contains(x) && x != id {
                assert(ids.to_set().contains(x));
            }
            if more.contains(x) && x != id {
                assert(ids[more.index_of(x)] == x);
            }
        }
    }
    lemma_sum_same(reads, grown, ids);
    assert(more.drop_last() =~= ids);
    assert(summary::sum_reads(grown, more) == total + count);
    if summary::is_total(reads, other) {
        let others = choose|others: Seq<u64>|
            others.no_duplicates() && others.to_set() == reads.dom() && other == #[trigger]
                summary::sum_reads(reads, others);
        lemma_sum_permuted(reads, ids, others);
    }
    if reads.dom().len() == 0 && reads.dom().finite() {
        if ids.len() > 0 {
            assert(ids.to_set().contains(ids[0]));
            assert(reads.dom() =~= Set::empty());
        }
    }
}

/// The sum of counts that two tables have in common.
proof fn lemma_sum_same(a: Map<u64, nat>, b: Map<u64, nat>, ids: Seq<u64>)
    requires
        forall|i: int| 0 <= i < ids.len() ==> a[#[trigger] ids[i]] == b[ids[i]],
    ensures
        summary::sum_reads(a, ids) == summary::sum_reads(b, ids),
    decreases ids.len(),
{
    if ids.len() > 0 {
        let rest = ids.drop_last();
        assert forall|i: int| 0 <= i < rest.len() implies a[#[trigger] rest[i]] == b[rest[i]] by {
            assert(rest[i] == ids[i]);
        }
        lemma_sum_same(a, b, rest);
        assert(a[ids[ids.len() - 1]] == b[ids[ids.len() - 1]]);
    }
}

/// The sum of counts does not depend on the order of the ids.
proof fn lemma_sum_permuted(reads: Map<u64, nat>, a: Seq<u64>, b: Seq<u64>)
    requires
        a.no_duplicates(),
        b.no_duplicates(),
        a.to_set() == b.to_set(),
    ensures
        summary::sum_reads(reads, a) == summary::sum_reads(reads, b),
{
    broadcast use vstd::seq_lib::group_to_multiset_ensures;

    let step = |sum: nat, id: u64| sum + reads[id];
    lemma_sum_is_fold(reads, a, step);
    lemma_sum_is_fold(reads, b, step);
    vstd::seq_lib::seq_to_set_is_finite(a);
    a.lemma_multiset_has_no_duplicates();
    b.lemma_multiset_has_no_duplicates();
    assert(a.to_multiset() =~= b.to_multiset()) by {
        assert forall|x: u64| a.to_multiset().count(x) == b.to_multiset().count(x) by {
            assert(a.contains(x) <==> a.to_set().contains(x));
            assert(b.contains(x) <==> b.to_set().contains(x));
            assert(a.contains(x) <==> a.to_multiset().contains(x));
            assert(b.contains(x) <==> b.to_multiset().contains(x));
        }
    }
    vstd::seq_lib::lemma_fold_left_permutation(a, b, step, 0nat);
}

/// The sum of counts, made step by step.
proof fn lemma_sum_is_fold(
    reads: Map<u64, nat>,
    ids: Seq<u64>,
    step: spec_fn(nat, u64) -> nat,
)
    requires
        forall|sum: nat, id: u64| #[trigger] step(sum, id) == sum + reads[id],
    ensures
        ids.fold_left(0nat, step) == summary::sum_reads(reads, ids),
    decreases ids.len(),
{
    if ids.len() > 0 {
        lemma_sum_is_fold(reads, ids.drop_last(), step);
    }
}

} // verus!
