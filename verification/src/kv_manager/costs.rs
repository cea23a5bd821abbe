//! What a prompt costs, in numbers.

use vstd::prelude::*;
use crate::common::protocols::{PositionalLineageHash, UniqueBlock};
use crate::common::sequence_model;
use crate::common::sequence_model::SequenceState;
use crate::common::tokens;
use crate::kv_manager::backend;

verus! {

/// Block `i` of a sequence is complete and cached; it is looked up by its hash, and by its lineage
/// hash where its tokens are complete.
pub open spec fn is_hit(
    cached: spec_fn(u64, Option<PositionalLineageHash>) -> bool,
    s: SequenceState,
    i: int,
) -> bool {
    s.unique_blocks[i] matches UniqueBlock::FullBlock(hash) && cached(
        hash,
        if i < s.tokens.len() / s.block_size {
            Some(
                tokens::lineage_hash(s.tokens.take((i + 1) * s.block_size), s.block_size, 1337),
            )
        } else {
            None
        },
    )
}

/// A prompt does not pay for the longest prefix of its blocks that is cached, and for nothing more:
/// if the first `n` blocks are hits and the next one, if there is one, is not, then the others are
/// new, and the input tokens behind those of `n` blocks have to be computed.
pub proof fn lemma_prefill_cost(
    cached: spec_fn(u64, Option<PositionalLineageHash>) -> bool,
    tokens_per_block: nat,
    s: SequenceState,
    n: nat,
)
    requires
        s.block_size > 0,
        n <= s.unique_blocks.len() <= usize::MAX,
        s.num_input_tokens <= usize::MAX,
        forall|i: int| 0 <= i < n ==> #[trigger] is_hit(cached, s, i),
        n < s.unique_blocks.len() ==> !is_hit(cached, s, n as int),
    ensures
        ({
            let cost = backend::prefill_cost(cached, tokens_per_block, s);
            &&& cost.new_blocks == s.unique_blocks.len() - n
            &&& n * tokens_per_block <= s.num_input_tokens ==> cost.new_tokens
                == s.num_input_tokens - n * tokens_per_block
            &&& n * tokens_per_block > s.num_input_tokens ==> cost.new_tokens == 0
        }),
{
    let hits = backend::cached_blocks(cached, s);
    let lineage = sequence_model::lineage_hashes_of(s.tokens, s.block_size);
    assert forall|i: int| 0 <= i < hits.len() implies hits[i] == is_hit(cached, s, i) by {
        if i < lineage.len() {
            assert(lineage[i] == sequence_model::lineage_hash_of(s.tokens, s.block_size, i));
            assert(sequence_model::SALT == 1337);
            assert(lineage[i] == tokens::lineage_hash(
                s.tokens.take((i + 1) * s.block_size),
                s.block_size,
                1337,
            ));
            assert(backend::lineage_hash_at(s, i) == Some(lineage[i]));
        }
    }
    assert forall|i: int| 0 <= i < n implies hits[i] by {
        assert(is_hit(cached, s, i));
    }
    backend::lemma_leading(hits, n as int);
}

/// The new blocks of a list are counted one by one: each block that is in no pool counts once for
/// each of its places.
pub proof fn lemma_new_blocks_counted(
    blocks: Seq<UniqueBlock>,
    block: UniqueBlock,
    present: Set<UniqueBlock>,
)
    ensures
        backend::count_new(Seq::empty(), present) == 0,
        backend::count_new(blocks.push(block), present) == backend::count_new(blocks, present)
            + if present.contains(block) {
            0int
        } else {
            1
        },
{
    reveal(Seq::filter);
    assert(blocks.push(block).drop_last() =~= blocks);
}

} // verus!
