//! What the load of a decode pass is measured by.

use vstd::prelude::*;
use crate::scheduler::decode;
use crate::scheduler::model;
use crate::scheduler::model::SchedState;

verus! {

/// Adding up numbers one by one gives their sum.
proof fn lemma_fold(
    ids: Seq<u128>,
    f: spec_fn(u128) -> nat,
    sum: spec_fn(nat, u128) -> nat,
)
    requires
        forall|total: nat, k: u128| ids.contains(k) ==> #[trigger] sum(total, k) == total + f(k),
    ensures
        ids.fold_left(0nat, sum) == model::sum_over(ids, f),
    decreases ids.len(),
{
    if ids.len() > 0 {
        let rest = ids.drop_last();
        assert forall|total: nat, k: u128| rest.contains(k) implies #[trigger] sum(total, k)
            == total + f(k) by {
            assert(ids[rest.index_of(k)] == k);
            assert(ids.contains(k));
        }
        lemma_fold(rest, f, sum);
        assert(ids.contains(ids.last()));
        assert(sum(rest.fold_left(0nat, sum), ids.last()) == rest.fold_left(0nat, sum) + f(
            ids.last(),
        ));
    }
}

/// The context length is the average, rounded down, of the numbers of all tokens of the requests
/// that are decoded, those of their prompts and the generated ones; without such a request it is
/// zero.
pub proof fn lemma_context_length(s: SchedState)
    requires
        s.wf(),
    ensures
        s.decode.len() == 0 ==> decode::context_length(s) == 0,
        s.decode.len() > 0 ==> {
            let n = s.decode.len();
            let total = s.decode.fold_left(
                0nat,
                |total: nat, k: u128| total + s.requests[k]->sequence.tokens.len(),
            );
            decode::context_length(s) * n <= total < (decode::context_length(s) + 1) * n
        },
{
    let n = s.decode.len();
    if n > 0 {
        let sum = |total: nat, k: u128| total + s.requests[k]->sequence.tokens.len();
        let f = decode::lengths(s);
        assert forall|total: nat, k: u128| s.decode.contains(k) implies #[trigger] sum(total, k)
            == total + f(k) by {
            assert(s.requests[k] is Active);
        }
        lemma_fold(s.decode, f, sum);
        let total = model::sum_over(s.decode, f);
        let c = decode::context_length(s);
        vstd::arithmetic::div_mod::lemma_fundamental_div_mod(total as int, n as int);
        vstd::arithmetic::div_mod::lemma_mod_bound(total as int, n as int);
        let rem = total as int % n as int;
        assert(c * n <= total < (c + 1) * n) by (nonlinear_arith)
            requires
                total == n * c + rem,
                0 <= rem < n,
        ;
    }
}

/// The sum of numbers each of which is one more.
proof fn lemma_sum_one_more(ids: Seq<u128>, f: spec_fn(u128) -> nat, g: spec_fn(u128) -> nat)
    requires
        forall|k: u128| ids.contains(k) ==> #[trigger] g(k) == f(k) + 1,
    ensures
        model::sum_over(ids, g) == model::sum_over(ids, f) + ids.len(),
    decreases ids.len(),
{
    if ids.len() > 0 {
        let rest = ids.drop_last();
        assert forall|k: u128| rest.contains(k) implies #[trigger] g(k) == f(k) + 1 by {
            assert(ids[rest.index_of(k)] == k);
            assert(ids.contains(k));
        }
        lemma_sum_one_more(rest, f, g);
        assert(ids.contains(ids.last()));
        assert(g(ids.last()) == f(ids.last()) + 1);
    }
}

/// The context length grows with the tokens: where each request that is decoded has got one more
/// token, it is one more.
pub proof fn lemma_context_grows(s: SchedState, t: SchedState)
    requires
        s.wf(),
        t.wf(),
        s.decode.len() > 0,
        t.decode == s.decode,
        forall|k: u128| #[trigger]
            s.decode.contains(k) ==> t.requests[k]->sequence.tokens.len()
                == s.requests[k]->sequence.tokens.len() + 1,
    ensures
        decode::context_length(t) == decode::context_length(s) + 1,
{
    let n = s.decode.len();
    let f = decode::lengths(s);
    let g = decode::lengths(t);
    assert forall|k: u128| s.decode.contains(k) implies #[trigger] g(k) == f(k) + 1 by {
        assert(t.decode.contains(k));
        assert(s.requests[k] is Active);
        assert(t.requests[k] is Active);
    }
    lemma_sum_one_more(s.decode, f, g);
    let total = model::sum_over(s.decode, f);
    vstd::arithmetic::div_mod::lemma_hoist_over_denominator(total as int, 1, n);
}

} // verus!
