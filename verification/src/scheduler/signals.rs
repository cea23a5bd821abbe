//! Signals from the scheduler to the KV manager.

use vstd::prelude::*;
use crate::common::protocols::{MoveBlock, Signal, UniqueBlock};
use crate::common::sequence_model;
use crate::kv_manager::accounting;
use crate::kv_manager::KvBackend;

verus! {

broadcast use {vstd::set::group_set_axioms, vstd::map::group_map_axioms};

/// `after` comes from `before` by processing all of `signals` with success.
pub open spec fn ran<B: KvBackend>(before: B, signals: Seq<Signal>, after: B) -> bool
    decreases signals.len(),
{
    if signals.len() == 0 {
        after == before
    } else {
        exists|mid: B|
            ran(before, signals.drop_last(), mid) && #[trigger] mid.leads_to(
                signals.last(),
                &after,
                true,
            )
    }
}

/// `after` comes from `before` by processing all of `signals` with success but the last one, for
/// which there is no slot.
pub open spec fn ran_short<B: KvBackend>(before: B, signals: Seq<Signal>, after: B) -> bool {
    &&& signals.len() > 0
    &&& exists|mid: B|
        ran(before, signals.drop_last(), mid) && #[trigger] mid.leads_to(
            signals.last(),
            &after,
            false,
        )
}

/// The signal asks for blocks that do not fit.
pub open spec fn refused(active: Map<UniqueBlock, nat>, signal: Signal, capacity: nat) -> bool {
    match signal {
        Signal::Use { blocks, .. } => !accounting::fits(active, blocks, capacity),
        _ => false,
    }
}

/// The signal asks for a single generation block.
pub open spec fn is_generation(signal: Signal) -> bool {
    match signal {
        Signal::Use { blocks, .. } => blocks.len() == 1 && blocks[0] is PartialBlock,
        _ => false,
    }
}

/// There is a slot for every block that the signals ask for.
pub open spec fn all_fit(
    active: Map<UniqueBlock, nat>,
    signals: Seq<Signal>,
    capacity: nat,
) -> bool {
    forall|i: int|
        0 <= i < signals.len() ==> !#[trigger] refused_at(active, signals, capacity, i)
}

/// When the signals before it have been processed, signal `i` asks for blocks that do not fit.
pub open spec fn refused_at(
    active: Map<UniqueBlock, nat>,
    signals: Seq<Signal>,
    capacity: nat,
    i: int,
) -> bool {
    refused(accounting::applied_all(active, signals.take(i)), signals[i], capacity)
}

/// Signal `i` is the first one that asks for blocks that do not fit.
pub open spec fn stops_at(
    active: Map<UniqueBlock, nat>,
    signals: Seq<Signal>,
    capacity: nat,
    i: int,
) -> bool {
    &&& 0 <= i < signals.len()
    &&& all_fit(active, signals.take(i), capacity)
    &&& refused_at(active, signals, capacity, i)
}

/// One more signal is processed.
proof fn lemma_applied_next(active: Map<UniqueBlock, nat>, signals: Seq<Signal>, i: int)
    requires
        0 <= i < signals.len(),
    ensures
        accounting::applied_all(active, signals.take(i + 1)) == accounting::applied(
            accounting::applied_all(active, signals.take(i)),
            signals[i],
        ),
{
    assert(signals.take(i + 1) =~= signals.take(i) + seq![signals[i]]);
    accounting::lemma_applied_all_add(active, signals.take(i), seq![signals[i]]);
    reveal_with_fuel(accounting::applied_all, 2);
    assert(seq![signals[i]].drop_first() =~= Seq::empty());
}

/// Each of the signals has a defined outcome once those before it have been processed.
pub open spec fn acceptable<B: KvBackend>(kv: B, signals: Seq<Signal>) -> bool {
    forall|i: int, mid: B|
        0 <= i < signals.len() && #[trigger] ran(kv, signals.take(i), mid) ==> mid.accepts(
            signals[i],
        )
}

/// Only a single generation block may be refused.
pub open spec fn refuses_generation_only(
    active: Map<UniqueBlock, nat>,
    signals: Seq<Signal>,
    capacity: nat,
) -> bool {
    forall|i: int| #[trigger] stops_at(active, signals, capacity, i) ==> is_generation(signals[i])
}

/// One of the signals may send `block` to the inactive pool.
pub open spec fn release(signals: Seq<Signal>, block: UniqueBlock) -> bool {
    exists|i: int| 0 <= i < signals.len() && accounting::releases(#[trigger] signals[i], block)
}

/// Some signals that are in order have been processed; the others still are in order.
proof fn lemma_ran_sound<B: KvBackend>(kv: B, signals: Seq<Signal>, i: int, mid: B)
    requires
        kv.valid(),
        accounting::sound_all(kv.active(), kv.present(), signals),
        kv.headroom(accounting::cost_all(signals)),
        0 <= i <= signals.len(),
        ran(kv, signals.take(i), mid),
    ensures
        mid.valid(),
        accounting::sound_all(mid.active(), mid.present(), signals.skip(i)),
        mid.headroom(accounting::cost_all(signals.skip(i))),
    decreases i,
{
    if i == 0 {
        assert(signals.take(0) =~= Seq::empty());
        assert(signals.skip(0) =~= signals);
    } else {
        let said = signals[i - 1];
        let rest = signals.skip(i - 1);
        assert(signals.take(i).drop_last() =~= signals.take(i - 1));
        assert(signals.take(i).last() == said);
        let last = choose|last: B|
            ran(kv, signals.take(i - 1), last) && #[trigger] last.leads_to(said, &mid, true);
        lemma_ran_sound(kv, signals, i - 1, last);
        assert(rest[0] == said);
        assert(rest.drop_first() =~= signals.skip(i));
        last.lemma_headroom(accounting::cost_all(rest), accounting::cost(said));
        last.lemma_accepts(said);
        last.lemma_leads_to(said, &mid, true);
        accounting::lemma_sound_all_fewer(
            mid.active(),
            last.present().union(accounting::named(said)),
            mid.present(),
            signals.skip(i),
        );
        assert(last.headroom(accounting::cost_all(signals.skip(i)) + accounting::cost(said)));
    }
}

/// Signals that are in order have a defined outcome each.
pub proof fn lemma_acceptable<B: KvBackend>(kv: B, signals: Seq<Signal>)
    requires
        kv.valid(),
        accounting::sound_all(kv.active(), kv.present(), signals),
        kv.headroom(accounting::cost_all(signals)),
    ensures
        acceptable(kv, signals),
{
    assert forall|i: int, mid: B|
        0 <= i < signals.len() && #[trigger] ran(kv, signals.take(i), mid) implies mid.accepts(
        signals[i],
    ) by {
        let rest = signals.skip(i);
        lemma_ran_sound(kv, signals, i, mid);
        assert(rest[0] == signals[i]);
        mid.lemma_headroom(accounting::cost_all(rest), accounting::cost(signals[i]));
        mid.lemma_accepts(signals[i]);
    }
}

/// Processes MoveBlock signals with the KV manager, in order, up to the first one for which there is
/// no slot. Tells whether all of them were processed.
///
/// A failure has to be for the expected case: a signal attempting to create a single partial
/// (generation) block. In normal operation, the only legitimate failure case is when trying to
/// acquire a new generation block; any other failure would indicate an unexpected state in the
/// system.
pub fn process_signals<B: KvBackend>(kv_manager: &mut B, signals: &Vec<MoveBlock>) -> (r: bool)
    requires
        old(kv_manager).valid(),
        acceptable(*old(kv_manager), sequence_model::signals_of(signals@)),
        refuses_generation_only(
            old(kv_manager).active(),
            sequence_model::signals_of(signals@),
            old(kv_manager).capacity(),
        ),
    ensures
        final(kv_manager).valid(),
        final(kv_manager).capacity() == old(kv_manager).capacity(),
        final(kv_manager).tokens_per_block() == old(kv_manager).tokens_per_block(),
        forall|n: nat| #[trigger]
            old(kv_manager).headroom(
                n + accounting::cost_all(sequence_model::signals_of(signals@)),
            ) ==> final(kv_manager).headroom(n),
        forall|b: UniqueBlock| #[trigger]
            final(kv_manager).reusable().contains(b) ==> old(kv_manager).reusable().contains(b)
                || release(sequence_model::signals_of(signals@), b),
        ({
            let all = sequence_model::signals_of(signals@);
            let before = old(kv_manager).active();
            let capacity = old(kv_manager).capacity();
            &&& r == all_fit(before, all, capacity)
            &&& r ==> {
                &&& final(kv_manager).active() == accounting::applied_all(before, all)
                &&& ran(*old(kv_manager), all, *final(kv_manager))
            }
            &&& !r ==> exists|i: int| #[trigger]
                stops_at(before, all, capacity, i) && is_generation(all[i])
                    && final(kv_manager).active() == accounting::applied_all(before, all.take(i))
                    && ran_short(*old(kv_manager), all.take(i + 1), *final(kv_manager))
        }),
{
    let ghost all = sequence_model::signals_of(signals@);
    let ghost before = kv_manager.active();
    let ghost capacity = kv_manager.capacity();
    let ghost first = *kv_manager;
    let mut i: usize = 0;
    proof {
        assert(all.take(0) =~= Seq::empty());
        assert(all.skip(0) =~= all);
    }
    while i < signals.len()
        invariant
            i <= signals@.len(),
            all == sequence_model::signals_of(signals@),
            first == *old(kv_manager),
            before == first.active(),
            capacity == first.capacity(),
            acceptable(first, all),
            refuses_generation_only(before, all, capacity),
            kv_manager.valid(),
            kv_manager.capacity() == capacity,
            kv_manager.tokens_per_block() == first.tokens_per_block(),
            kv_manager.active() == accounting::applied_all(before, all.take(i as int)),
            ran(first, all.take(i as int), *kv_manager),
            all_fit(before, all.take(i as int), capacity),
            forall|n: nat| #[trigger]
                first.headroom(n + accounting::cost_all(all)) ==> kv_manager.headroom(
                    n + accounting::cost_all(all.skip(i as int)),
                ),
            forall|b: UniqueBlock| #[trigger]
                kv_manager.reusable().contains(b) ==> first.reusable().contains(b) || release(
                    all,
                    b,
                ),
        decreases signals@.len() - i,
    {
        let signal = &signals[i];
        let ghost mid = *kv_manager;
        let ghost said = all[i as int];
        let ghost rest = all.skip(i as int);
        proof {
            assert(said == signal@);
            assert(rest[0] == said);
            assert(rest.drop_first() =~= all.skip(i + 1));
            lemma_applied_next(before, all, i as int);
            assert(all.take(i + 1).drop_last() =~= all.take(i as int));
        }
        let ok = kv_manager.process(signal);
        proof {
            assert forall|n: nat| #[trigger] first.headroom(n + accounting::cost_all(all)) implies
                kv_manager.headroom(n + accounting::cost_all(all.skip(i + 1))) by {
                assert(mid.headroom(n + accounting::cost_all(rest)));
                assert(n + accounting::cost_all(rest) == (n + accounting::cost_all(
                    all.skip(i + 1),
                )) + accounting::cost(said));
            }
            assert forall|b: UniqueBlock| #[trigger] kv_manager.reusable().contains(b) implies
                first.reusable().contains(b) || release(all, b) by {
                if accounting::releases(said, b) {
                    assert(accounting::releases(all[i as int], b));
                }
            }
        }
        if !ok {
            assert(refused_at(before, all, capacity, i as int));
            assert(stops_at(before, all, capacity, i as int));
            proof {
                assert(ran(first, all.take(i + 1).drop_last(), mid));
                assert(all.take(i + 1).last() == said);
                assert(mid.leads_to(said, &*kv_manager, false));
                assert(ran_short(first, all.take(i + 1), *kv_manager));
                assert forall|n: nat| #[trigger] first.headroom(n + accounting::cost_all(all))
                    implies kv_manager.headroom(n) by {
                    assert(kv_manager.headroom(n + accounting::cost_all(all.skip(i + 1))));
                    kv_manager.lemma_headroom(n + accounting::cost_all(all.skip(i + 1)), n);
                }
                lemma_refused_one(mid.active(), said, capacity, kv_manager.active());
            }
            return false;
        }
        proof {
            assert(ran(first, all.take(i + 1).drop_last(), mid));
            assert(all.take(i + 1).last() == said);
            assert(mid.leads_to(said, &*kv_manager, true));
            assert(ran(first, all.take(i + 1), *kv_manager));
            assert forall|j: int| 0 <= j < i + 1 implies !#[trigger] refused_at(
                before,
                all.take(i + 1),
                capacity,
                j,
            ) by {
                assert(all.take(i + 1).take(j) =~= all.take(j));
                if j < i {
                    assert(all.take(i as int).take(j) =~= all.take(j));
                    assert(!refused_at(before, all.take(i as int), capacity, j));
                }
            }
        }
        i += 1;
    }
    proof {
        assert(all.take(i as int) =~= all);
        assert(accounting::cost_all(all.skip(i as int)) == 0);
        assert forall|n: nat| #[trigger] first.headroom(n + accounting::cost_all(all)) implies
            kv_manager.headroom(n) by {
            assert(kv_manager.headroom(n + accounting::cost_all(all.skip(i as int))));
        }
    }
    true
}

/// Where a single block is refused, nothing has changed.
proof fn lemma_refused_one(
    before: Map<UniqueBlock, nat>,
    signal: Signal,
    capacity: nat,
    after: Map<UniqueBlock, nat>,
)
    requires
        is_generation(signal),
        accounting::settled(before, signal, capacity, after, false),
    ensures
        after == before,
{
    let blocks = signal->Use_blocks;
    let k = choose|k: int| #[trigger] accounting::stopped_at(before, blocks, capacity, after, k);
    accounting::lemma_taken_none(before, blocks.take(k));
}

} // verus!
