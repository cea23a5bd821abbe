//! Every reference on a block is held by a request.

use vstd::prelude::*;
use crate::common::protocols::{Signal, UniqueBlock};
use crate::common::sequence_laws;
use crate::common::sequence_model;
use crate::common::sequence_model::SequenceState;
use crate::kv_manager::accounting;
use crate::kv_manager::model as kv_model;
use crate::scheduler::model::RequestState;

verus! {

broadcast use {
    vstd::set::group_set_axioms,
    vstd::map::group_map_axioms,
    vstd::seq_lib::group_to_multiset_ensures,
};

/// The number of references on `block` that `request` holds.
pub open spec fn holds(request: RequestState, block: UniqueBlock) -> nat {
    accounting::occurrences(request.footprint(), block)
}

/// The number of references on `block` that all requests hold.
pub open spec fn held(requests: Map<u128, RequestState>, block: UniqueBlock) -> nat
    decreases requests.dom().len(),
    when requests.dom().finite()
{
    if requests.dom().len() == 0 {
        0
    } else {
        let k = requests.dom().choose();
        holds(requests[k], block) + held(requests.remove(k), block)
    }
}

/// The references of one request, and those of the others.
pub proof fn lemma_held_split(requests: Map<u128, RequestState>, k: u128, block: UniqueBlock)
    requires
        requests.dom().finite(),
        requests.contains_key(k),
    ensures
        held(requests, block) == holds(requests[k], block) + held(requests.remove(k), block),
    decreases requests.dom().len(),
{
    let c = requests.dom().choose();
    assert(requests.dom().contains(c)) by {
        assert(requests.dom().contains(k));
    }
    assert(requests.remove(c).dom() =~= requests.dom().remove(c));
    assert(requests.remove(k).dom() =~= requests.dom().remove(k));
    if c != k {
        lemma_held_split(requests.remove(c), k, block);
        lemma_held_split(requests.remove(k), c, block);
        assert(requests.remove(c).remove(k) =~= requests.remove(k).remove(c));
    }
}

/// Without requests nothing is held.
pub proof fn lemma_held_none(requests: Map<u128, RequestState>, block: UniqueBlock)
    requires
        requests.dom() == Set::<u128>::empty(),
    ensures
        held(requests, block) == 0,
{
}

/// The references are those that requests hold; a partial block is held once.
pub open spec fn balanced(
    active: Map<UniqueBlock, nat>,
    requests: Map<u128, RequestState>,
) -> bool {
    forall|b: UniqueBlock|
        #![trigger accounting::refs(active, b)]
        accounting::refs(active, b) == held(requests, b) && (b is PartialBlock
            ==> accounting::refs(active, b) <= 1)
}

/// The references are those on `blocks` and those that requests hold; a partial block is held once.
pub open spec fn backed(
    active: Map<UniqueBlock, nat>,
    blocks: Seq<UniqueBlock>,
    requests: Map<u128, RequestState>,
) -> bool {
    forall|b: UniqueBlock|
        #![trigger accounting::refs(active, b)]
        accounting::refs(active, b) == accounting::occurrences(blocks, b) + held(requests, b) && (
        b is PartialBlock ==> accounting::refs(active, b) <= 1)
}

/// The blocks of one request apart.
pub proof fn lemma_balanced_split(
    active: Map<UniqueBlock, nat>,
    requests: Map<u128, RequestState>,
    k: u128,
)
    requires
        requests.dom().finite(),
        requests.contains_key(k),
    ensures
        balanced(active, requests) <==> backed(active, requests[k].footprint(), requests.remove(k)),
{
    assert forall|b: UniqueBlock| held(requests, b) == accounting::occurrences(
        requests[k].footprint(),
        b,
    ) + held(requests.remove(k), b) by {
        lemma_held_split(requests, k, b);
    }
    if balanced(active, requests) {
        assert forall|b: UniqueBlock|
            #![trigger accounting::refs(active, b)]
            accounting::refs(active, b) == accounting::occurrences(requests[k].footprint(), b)
                + held(requests.remove(k), b) && (b is PartialBlock ==> accounting::refs(active, b)
                <= 1) by {
            assert(held(requests, b) == accounting::occurrences(requests[k].footprint(), b) + held(
                requests.remove(k),
                b,
            ));
        }
    }
    if backed(active, requests[k].footprint(), requests.remove(k)) {
        assert forall|b: UniqueBlock|
            #![trigger accounting::refs(active, b)]
            accounting::refs(active, b) == held(requests, b) && (b is PartialBlock
                ==> accounting::refs(active, b) <= 1) by {
            assert(held(requests, b) == accounting::occurrences(requests[k].footprint(), b) + held(
                requests.remove(k),
                b,
            ));
        }
    }
}

/// A block does not occur among none.
pub proof fn lemma_occurrences_none(block: UniqueBlock)
    ensures
        accounting::occurrences(Seq::empty(), block) == 0,
{
    let none = Seq::<UniqueBlock>::empty();
    assert(!none.contains(block));
    assert(!none.to_multiset().contains(block));
}

/// The requests alone, without further blocks.
pub proof fn lemma_backed_none(
    active: Map<UniqueBlock, nat>,
    requests: Map<u128, RequestState>,
)
    ensures
        backed(active, Seq::empty(), requests) <==> balanced(active, requests),
{
    assert forall|b: UniqueBlock| accounting::occurrences(Seq::empty(), b) == 0 by {
        lemma_occurrences_none(b);
    }
    if balanced(active, requests) {
        assert forall|b: UniqueBlock|
            #![trigger accounting::refs(active, b)]
            accounting::refs(active, b) == accounting::occurrences(Seq::empty(), b) + held(
                requests,
                b,
            ) && (b is PartialBlock ==> accounting::refs(active, b) <= 1) by {}
    }
    if backed(active, Seq::empty(), requests) {
        assert forall|b: UniqueBlock|
            #![trigger accounting::refs(active, b)]
            accounting::refs(active, b) == held(requests, b) && (b is PartialBlock
                ==> accounting::refs(active, b) <= 1) by {}
    }
}

/// A change of requests that hold the same is not seen.
pub proof fn lemma_balanced_same(
    active: Map<UniqueBlock, nat>,
    before: Map<u128, RequestState>,
    k: u128,
    request: RequestState,
)
    requires
        before.dom().finite(),
        balanced(active, before),
        before.contains_key(k) ==> before[k].footprint() == request.footprint(),
        !before.contains_key(k) ==> request.footprint() == Seq::<UniqueBlock>::empty(),
    ensures
        balanced(active, before.insert(k, request)),
{
    let after = before.insert(k, request);
    assert(after.dom() =~= before.dom().insert(k));
    lemma_balanced_split(active, after, k);
    if before.contains_key(k) {
        lemma_balanced_split(active, before, k);
        assert(after.remove(k) =~= before.remove(k));
    } else {
        lemma_backed_none(active, before);
        assert(after.remove(k) =~= before);
    }
}

/// The occurrences with one more block.
pub proof fn lemma_occurrences_push(blocks: Seq<UniqueBlock>, x: UniqueBlock, b: UniqueBlock)
    ensures
        accounting::occurrences(blocks.push(x), b) == accounting::occurrences(blocks, b) + if b
            == x {
            1nat
        } else {
            0
        },
{
    assert(blocks.push(x).to_multiset() =~= blocks.to_multiset().insert(x));
}

/// The occurrences without the last block.
pub proof fn lemma_occurrences_last(blocks: Seq<UniqueBlock>, b: UniqueBlock)
    requires
        blocks.len() > 0,
    ensures
        accounting::occurrences(blocks, b) == accounting::occurrences(blocks.drop_last(), b) + if b
            == blocks.last() {
            1nat
        } else {
            0
        },
{
    lemma_occurrences_push(blocks.drop_last(), blocks.last(), b);
    assert(blocks.drop_last().push(blocks.last()) =~= blocks);
}

/// All blocks of a sequence are provided.
pub proof fn lemma_use_all(
    active: Map<UniqueBlock, nat>,
    blocks: Seq<UniqueBlock>,
    requests: Map<u128, RequestState>,
    signal: Signal,
)
    requires
        accounting::counted(active),
        balanced(active, requests),
        signal is Use,
        signal->Use_blocks == blocks,
        forall|i: int| 0 <= i < blocks.len() - 1 ==> #[trigger] blocks[i] is FullBlock,
        blocks.len() > 0 && blocks.last() is PartialBlock ==> !active.contains_key(blocks.last()),
    ensures
        backed(accounting::applied(active, signal), blocks, requests),
        accounting::counted(accounting::applied(active, signal)),
{
    let after = accounting::applied(active, signal);
    assert forall|b: UniqueBlock|
        #![trigger accounting::refs(after, b)]
        accounting::refs(after, b) == accounting::occurrences(blocks, b) + held(requests, b) && (
        b is PartialBlock ==> accounting::refs(after, b) <= 1) by {
        accounting::lemma_applied_refs(active, signal, b);
        assert(accounting::refs(active, b) == held(requests, b));
        if b is PartialBlock {
            lemma_partial_once(blocks, b);
            if blocks.contains(b) {
                assert(b == blocks.last());
            } else {
                assert(!blocks.to_multiset().contains(b));
            }
        }
    }
    accounting::lemma_applied_refs(active, signal, UniqueBlock::FullBlock(0));
}

/// Only the last block can be partial.
pub proof fn lemma_partial_once(blocks: Seq<UniqueBlock>, b: UniqueBlock)
    requires
        b is PartialBlock,
        forall|i: int| 0 <= i < blocks.len() - 1 ==> #[trigger] blocks[i] is FullBlock,
    ensures
        accounting::occurrences(blocks, b) <= 1,
        blocks.contains(b) ==> b == blocks.last(),
{
    if blocks.len() > 0 {
        lemma_occurrences_last(blocks, b);
        let rest = blocks.drop_last();
        assert(!rest.contains(b)) by {
            if rest.contains(b) {
                assert(blocks[rest.index_of(b)] is FullBlock);
            }
        }
        assert(!rest.to_multiset().contains(b));
    } else {
        assert(!blocks.contains(b));
        assert(!blocks.to_multiset().contains(b));
    }
}

/// One more block is provided.
pub proof fn lemma_use_one(
    active: Map<UniqueBlock, nat>,
    blocks: Seq<UniqueBlock>,
    requests: Map<u128, RequestState>,
    block: UniqueBlock,
)
    requires
        accounting::counted(active),
        backed(active, blocks, requests),
        !active.contains_key(block),
    ensures
        backed(
            accounting::applied(active, sequence_model::use_one(block)),
            blocks.push(block),
            requests,
        ),
        accounting::counted(accounting::applied(active, sequence_model::use_one(block))),
{
    let signal = sequence_model::use_one(block);
    let after = accounting::applied(active, signal);
    assert forall|b: UniqueBlock|
        #![trigger accounting::refs(after, b)]
        accounting::refs(after, b) == accounting::occurrences(blocks.push(block), b) + held(
            requests,
            b,
        ) && (b is PartialBlock ==> accounting::refs(after, b) <= 1) by {
        accounting::lemma_applied_refs(active, signal, b);
        assert(accounting::refs(active, b) == accounting::occurrences(blocks, b) + held(
            requests,
            b,
        ));
        lemma_occurrences_push(blocks, block, b);
        lemma_occurrences_push(Seq::empty(), block, b);
        lemma_occurrences_none(b);
        assert(Seq::<UniqueBlock>::empty().push(block) =~= seq![block]);
    }
    accounting::lemma_applied_refs(active, signal, block);
}

/// The partial last block becomes a complete one.
pub proof fn lemma_promote(
    active: Map<UniqueBlock, nat>,
    blocks: Seq<UniqueBlock>,
    requests: Map<u128, RequestState>,
    signal: Signal,
)
    requires
        accounting::counted(active),
        backed(active, blocks, requests),
        blocks.len() > 0,
        signal is Promote,
        blocks.last() == UniqueBlock::PartialBlock(signal->Promote_uuid),
    ensures
        accounting::refs(active, blocks.last()) == 1,
        backed(
            accounting::applied(active, signal),
            blocks.drop_last().push(UniqueBlock::FullBlock(signal->Promote_hash)),
            requests,
        ),
        accounting::counted(accounting::applied(active, signal)),
{
    let after = accounting::applied(active, signal);
    let full = UniqueBlock::FullBlock(signal->Promote_hash);
    let partial = blocks.last();
    lemma_occurrences_last(blocks, partial);
    assert(accounting::refs(active, partial) == accounting::occurrences(blocks, partial) + held(
        requests,
        partial,
    ));
    assert forall|b: UniqueBlock|
        #![trigger accounting::refs(after, b)]
        accounting::refs(after, b) == accounting::occurrences(blocks.drop_last().push(full), b)
            + held(requests, b) && (b is PartialBlock ==> accounting::refs(after, b) <= 1) by {
        accounting::lemma_applied_refs(active, signal, b);
        assert(accounting::refs(active, b) == accounting::occurrences(blocks, b) + held(
            requests,
            b,
        ));
        lemma_occurrences_push(blocks.drop_last(), full, b);
        lemma_occurrences_last(blocks, b);
    }
    accounting::lemma_applied_refs(active, signal, full);
}

/// The last block is given up.
pub proof fn lemma_free_last(
    active: Map<UniqueBlock, nat>,
    blocks: Seq<UniqueBlock>,
    requests: Map<u128, RequestState>,
)
    requires
        accounting::counted(active),
        backed(active, blocks, requests),
        blocks.len() > 0,
    ensures
        ({
            let signal = sequence_model::free_block(blocks.last());
            &&& accounting::sound(active, Set::full(), signal)
            &&& backed(accounting::applied(active, signal), blocks.drop_last(), requests)
            &&& accounting::counted(accounting::applied(active, signal))
        }),
{
    let last = blocks.last();
    let signal = sequence_model::free_block(last);
    let after = accounting::applied(active, signal);
    lemma_occurrences_last(blocks, last);
    assert(accounting::refs(active, last) == accounting::occurrences(blocks, last) + held(
        requests,
        last,
    ));
    assert(active.contains_key(last));
    assert forall|b: UniqueBlock|
        #![trigger accounting::refs(after, b)]
        accounting::refs(after, b) == accounting::occurrences(blocks.drop_last(), b) + held(
            requests,
            b,
        ) && (b is PartialBlock ==> accounting::refs(after, b) <= 1) by {
        accounting::lemma_applied_refs(active, signal, b);
        assert(accounting::refs(active, b) == accounting::occurrences(blocks, b) + held(
            requests,
            b,
        ));
        lemma_occurrences_last(blocks, b);
        lemma_occurrences_push(Seq::empty(), last, b);
        lemma_occurrences_none(b);
        assert(Seq::<UniqueBlock>::empty().push(last) =~= seq![last]);
        assert(seq![last].contains(b) <==> b == last) by {
            assert(seq![last][0] == last);
        }
    }
    accounting::lemma_applied_refs(active, signal, last);
}

/// The signals that give up blocks, the last one first.
pub open spec fn frees(blocks: Seq<UniqueBlock>) -> Seq<Signal> {
    blocks.reverse().map_values(|block: UniqueBlock| sequence_model::free_block(block))
}

/// Giving up all blocks leaves the references of the other requests.
pub proof fn lemma_free_all(
    active: Map<UniqueBlock, nat>,
    blocks: Seq<UniqueBlock>,
    requests: Map<u128, RequestState>,
)
    requires
        accounting::counted(active),
        backed(active, blocks, requests),
    ensures
        accounting::sound_all(active, Set::full(), frees(blocks)),
        balanced(accounting::applied_all(active, frees(blocks)), requests),
        accounting::cost_all(frees(blocks)) <= blocks.len(),
    decreases blocks.len(),
{
    let signals = frees(blocks);
    if blocks.len() == 0 {
        assert(blocks =~= Seq::empty());
        assert(signals =~= Seq::empty());
        lemma_backed_none(active, requests);
    } else {
        let rest = blocks.drop_last();
        assert(signals[0] == sequence_model::free_block(blocks.last()));
        assert(signals.drop_first() =~= frees(rest));
        lemma_free_last(active, blocks, requests);
        lemma_free_all(accounting::applied(active, signals[0]), rest, requests);
        assert(Set::<UniqueBlock>::full().union(accounting::named(signals[0])) =~= Set::full());
    }
}

/// The blocks that a new token changes are exchanged for those that the sequence then has.
pub proof fn lemma_push(
    active: Map<UniqueBlock, nat>,
    present: Set<UniqueBlock>,
    s: SequenceState,
    token: u32,
    drawn: u64,
    block: UniqueBlock,
    requests: Map<u128, RequestState>,
)
    requires
        accounting::counted(active),
        backed(active, s.unique_blocks, requests),
        s.wf(),
        active.dom().subset_of(present),
        block is PartialBlock,
        s.starts_block() ==> !present.contains(block),
    ensures
        ({
            let signals = s.push_signals(token, drawn, block);
            let after = accounting::applied_all(active, signals);
            &&& accounting::sound_all(active, present, signals)
            &&& backed(after, s.pushed(token, drawn, block).unique_blocks, requests)
            &&& accounting::counted(after)
            &&& accounting::cost_all(signals) <= 4
            &&& signals.len() <= 2
            &&& signals.len() > 0 ==> signals.last() == sequence_model::use_one(block)
            &&& signals.len() == 2 ==> signals[0] is Promote && backed(
                accounting::applied(active, signals[0]),
                s.pushed(token, drawn, block).popped().unique_blocks,
                requests,
            ) && accounting::counted(accounting::applied(active, signals[0]))
            &&& signals.len() == 1 ==> s.pushed(token, drawn, block).popped().unique_blocks
                == s.unique_blocks
        }),
{
    let signals = s.push_signals(token, drawn, block);
    sequence_laws::lemma_pop_undoes_push(s, token, drawn, block);
    if s.starts_block() {
        let one = sequence_model::use_one(block);
        lemma_full_hashes_partial(block);
        if s.ends_partial() {
            let promote = s.appended(token).promote_signal(drawn);
            assert(signals =~= seq![promote, one]);
            lemma_promote(active, s.unique_blocks, requests, promote);
            let mid = accounting::applied(active, promote);
            let known = present.union(accounting::named(promote));
            let blocks = s.unique_blocks.drop_last().push(
                UniqueBlock::FullBlock(promote->Promote_hash),
            );
            assert(!mid.contains_key(block)) by {
                accounting::lemma_applied_refs(active, promote, block);
                assert(accounting::refs(active, block) == 0);
            }
            lemma_use_one(mid, blocks, requests, block);
            assert(signals.drop_first() =~= seq![one]);
            assert(seq![one].drop_first() =~= Seq::empty());
            reveal_with_fuel(accounting::sound_all, 3);
            reveal_with_fuel(accounting::applied_all, 3);
            reveal_with_fuel(accounting::cost_all, 3);
            assert(seq![block].take(0) =~= Seq::empty());
            assert(accounting::sound(mid, known, one));
            assert(s.pushed(token, drawn, block).unique_blocks =~= blocks.push(block));
        } else {
            assert(signals =~= seq![one]);
            lemma_use_one(active, s.unique_blocks, requests, block);
            assert(signals.drop_first() =~= Seq::empty());
            reveal_with_fuel(accounting::sound_all, 2);
            reveal_with_fuel(accounting::applied_all, 2);
            reveal_with_fuel(accounting::cost_all, 2);
            assert(seq![block].take(0) =~= Seq::empty());
            assert(accounting::sound(active, present, one));
        }
    }
}

/// A partial block has no hash.
proof fn lemma_full_hashes_partial(block: UniqueBlock)
    requires
        block is PartialBlock,
    ensures
        kv_model::full_hashes(seq![block]).len() == 0,
{
    reveal_with_fuel(kv_model::full_hashes, 2);
    assert(seq![block].drop_last() =~= Seq::empty());
}

} // verus!
