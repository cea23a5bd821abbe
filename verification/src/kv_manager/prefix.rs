//! What sequences gain from blocks that are in the cache.

use vstd::prelude::*;
use crate::common::sequence_laws;
use crate::common::sequence_model::SequenceState;
use crate::kv_manager::backend;
use crate::kv_manager::effects;
use crate::kv_manager::vllm_backend::ManualKvManager;
use crate::kv_manager::KvBackend;

verus! {

/// With prefix caching, blocks are computed once: where the first `n` blocks of a sequence are in
/// the cache, another sequence that starts with the same tokens does not pay for these blocks.
pub proof fn lemma_shared_prefix_is_cached(
    manager: ManualKvManager,
    a: SequenceState,
    b: SequenceState,
    n: int,
)
    requires
        a.wf(),
        b.wf(),
        a.faithful(),
        b.faithful(),
        a.enable_prefix_caching,
        b.enable_prefix_caching,
        a.block_size == b.block_size,
        0 <= n <= a.unique_blocks.len(),
        n <= b.unique_blocks.len(),
        forall|i: int|
            0 <= i < n ==> (#[trigger] a.unique_blocks[i]) is FullBlock
                && b.unique_blocks[i] is FullBlock && effects::present(
                manager@,
                a.unique_blocks[i],
            ),
        a.tokens.take(n * a.block_size) == b.tokens.take(n * a.block_size),
        b.unique_blocks.len() <= usize::MAX,
        b.num_input_tokens <= usize::MAX,
    ensures
        ({
            let cost = backend::prefill_cost(manager.cached(), manager.tokens_per_block(), b);
            let cached = backend::tokens_in(b, n as nat, manager.tokens_per_block());
            &&& cost.new_blocks <= b.unique_blocks.len() - n
            &&& cost.new_tokens <= b.num_input_tokens - cached
        }),
{
    let hits = backend::cached_blocks(manager.cached(), b);
    let bs = a.block_size as int;
    assert forall|i: int| 0 <= i < n implies hits[i] by {
        assert(a.unique_blocks[i] is FullBlock);
        assert(b.unique_blocks[i] is FullBlock);
        let end = (i + 1) * bs;
        assert(0 <= end <= n * bs) by (nonlinear_arith)
            requires
                0 <= i < n,
                end == (i + 1) * bs,
                bs >= 0,
        ;
        assert(a.tokens.take(end) =~= b.tokens.take(end)) by {
            assert(a.unique_blocks[n - 1] is FullBlock);
            assert(b.unique_blocks[n - 1] is FullBlock);
            sequence_laws::lemma_block_end(a.tokens.len(), a.block_size, n - 1);
            sequence_laws::lemma_block_end(b.tokens.len(), a.block_size, n - 1);
            assert(a.tokens.take(n * bs).take(end) =~= a.tokens.take(end));
            assert(b.tokens.take(n * bs).take(end) =~= b.tokens.take(end));
        }
        sequence_laws::lemma_shared_prefix(a, b, i);
    }
    backend::lemma_leading_at_least(hits, n);
    let overlap = backend::leading(hits);
    let per_block = manager.tokens_per_block();
    assert(n * per_block <= overlap * per_block) by (nonlinear_arith)
        requires
            n <= overlap,
    ;
}

} // verus!
