//! What a sequence asks of the KV manager, in full.

use vstd::prelude::*;
use crate::common::protocols::{Signal, UniqueBlock};
use crate::common::sequence_laws;
use crate::common::sequence_model;
use crate::common::sequence_model::SequenceState;
use crate::common::tokens;

verus! {

broadcast use {vstd::set::group_set_axioms, vstd::map::group_map_axioms};

/// The signal asks for `blocks`, and brings of each complete block of `tokens` the content hash, the
/// lineage hash and, if asked to, the tokens.
pub open spec fn asks_for(
    signal: Signal,
    blocks: Seq<UniqueBlock>,
    all: Seq<u32>,
    block_size: nat,
    with_tokens: bool,
) -> bool {
    let n = all.len() / block_size;
    signal matches Signal::Use { blocks: asked, local_hashes, lineage_hashes, token_ids } && {
        &&& asked == blocks
        &&& local_hashes.len() == n
        &&& lineage_hashes.len() == n
        &&& token_ids is Some == with_tokens
        &&& with_tokens ==> token_ids->0.len() == n
        &&& forall|i: int|
            #![trigger local_hashes[i]]
            0 <= i < n ==> {
                let own = all.subrange(i * block_size, (i + 1) * block_size);
                &&& local_hashes[i] == tokens::block_hash(own, 1337)
                &&& lineage_hashes[i] == tokens::lineage_hash(
                    all.take((i + 1) * block_size),
                    block_size,
                    1337,
                )
                &&& with_tokens ==> token_ids->0[i] == own
            }
    }
}

/// The signal for the blocks of a sequence asks for all of them.
proof fn lemma_use_signal(s: SequenceState)
    requires
        s.block_size > 0,
    ensures
        asks_for(s.use_signal(), s.unique_blocks, s.tokens, s.block_size, s.emit_token_ids),
{
    let all = s.tokens;
    let bs = s.block_size;
    let hashes = sequence_model::block_hashes_of(all, bs);
    let lineage = sequence_model::lineage_hashes_of(all, bs);
    let lists = sequence_model::block_tokens_of(all, bs);
    assert(sequence_model::SALT == 1337);
    assert forall|i: int|
        #![trigger hashes[i]]
        0 <= i < all.len() / bs implies hashes[i] == tokens::block_hash(
        all.subrange(i * bs, (i + 1) * bs),
        1337,
    ) && lineage[i] == tokens::lineage_hash(all.take((i + 1) * bs), bs, 1337) && lists[i]
        == all.subrange(i * bs, (i + 1) * bs) by {
        assert(hashes[i] == sequence_model::block_hash_of(all, bs, i));
        assert(lineage[i] == sequence_model::lineage_hash_of(all, bs, i));
        assert(lists[i] == tokens::tokens_of_block(all, bs, i));
    }
}

/// A new sequence has one block for each `block_size` tokens, and one more for tokens that are left:
/// the former complete, the latter partial. With prefix caching, the id of a complete block is
/// decided by the tokens up to its end. Its blocks are asked for with one signal. It has generated
/// and read nothing.
pub proof fn lemma_new_sequence(
    s: SequenceState,
    input: Seq<u32>,
    max_output_tokens: nat,
    block_size: nat,
    enable_prefix_caching: bool,
    emit_token_ids: bool,
)
    requires
        s.is_new(input, max_output_tokens, block_size, enable_prefix_caching, emit_token_ids),
        block_size > 0,
    ensures
        s.tokens == input,
        s.block_size == block_size,
        s.max_output_tokens == max_output_tokens,
        s.num_input_tokens == input.len(),
        s.generated_tokens == 0,
        s.enable_prefix_caching == enable_prefix_caching,
        s.emit_token_ids == emit_token_ids,
        forall|id: u64| !(#[trigger] s.decode_block_reads.contains_key(id)),
        s.unique_blocks.len() == input.len() / block_size + if input.len() % block_size == 0 {
            0int
        } else {
            1
        },
        forall|i: int|
            #![trigger s.unique_blocks[i]]
            0 <= i < s.unique_blocks.len() ==> {
                &&& s.unique_blocks[i] is FullBlock <==> i < input.len() / block_size
                &&& enable_prefix_caching && i < input.len() / block_size ==> s.unique_blocks[i]
                    == UniqueBlock::FullBlock(
                    tokens::sequence_hash(input.take((i + 1) * block_size), block_size, 1337),
                )
            },
        s.creation_signal is Some,
        asks_for(s.creation_signal->0, s.unique_blocks, input, block_size, emit_token_ids),
{
    sequence_model::lemma_blocks_for(input.len(), block_size);
    lemma_use_signal(s);
    assert(sequence_model::SALT == 1337);
}

/// Resetting a sequence keeps all that it has, and asks for all its blocks again with one signal.
pub proof fn lemma_reset_asks_again(s: SequenceState)
    requires
        s.block_size > 0,
    ensures
        ({
            let t = s.reset();
            &&& t.creation_signal is Some
            &&& asks_for(
                t.creation_signal->0,
                s.unique_blocks,
                s.tokens,
                s.block_size,
                s.emit_token_ids,
            )
            &&& t.tokens == s.tokens
            &&& t.unique_blocks == s.unique_blocks
            &&& t.generated_tokens == s.generated_tokens
            &&& t.max_output_tokens == s.max_output_tokens
            &&& t.num_input_tokens == s.num_input_tokens
            &&& t.block_size == s.block_size
            &&& t.decode_block_reads == s.decode_block_reads
        }),
{
    lemma_use_signal(s);
}

/// Adding a token to a block that has room for it: no block changes, and nothing is asked for.
pub proof fn lemma_push_within_block(s: SequenceState, token: u32, drawn: u64, block: UniqueBlock)
    requires
        s.wf(),
        s.tokens.len() % s.block_size != 0,
    ensures
        ({
            let t = s.pushed(token, drawn, block);
            &&& s.push_signals(token, drawn, block).len() == 0
            &&& t.tokens == s.tokens.push(token)
            &&& t.generated_tokens == s.generated_tokens + 1
            &&& t.unique_blocks == s.unique_blocks
            &&& t.num_input_tokens == s.num_input_tokens
            &&& t.max_output_tokens == s.max_output_tokens
            &&& t.decode_block_reads == s.decode_block_reads
            &&& t.creation_signal == s.creation_signal
        }),
{
    sequence_model::lemma_next_starts_block(s.tokens.len(), s.block_size);
}

/// Adding a token when all blocks are full: the token starts the given block, which is asked for on
/// its own. Where the last block was still partial, it is now complete: its place is taken by the
/// complete block, under the id that its tokens decide, or under the drawn one without prefix
/// caching, and the signal for this comes first. That signal names the block before as the parent,
/// and brings the content hash, the lineage hash and, if asked to, the tokens of the completed
/// block.
pub proof fn lemma_push_starts_block(s: SequenceState, token: u32, drawn: u64, block: UniqueBlock)
    requires
        s.wf(),
        s.tokens.len() % s.block_size == 0,
    ensures
        ({
            let t = s.pushed(token, drawn, block);
            let signals = s.push_signals(token, drawn, block);
            let n = s.unique_blocks.len() as int;
            let completes = n > 0 && s.unique_blocks[n - 1] is PartialBlock;
            &&& t.tokens == s.tokens.push(token)
            &&& t.generated_tokens == s.generated_tokens + 1
            &&& t.unique_blocks.len() == n + 1
            &&& t.unique_blocks[n] == block
            &&& forall|i: int| 0 <= i < n - 1 ==> #[trigger] t.unique_blocks[i] == s.unique_blocks[i]
            &&& n > 0 && !completes ==> t.unique_blocks[n - 1] == s.unique_blocks[n - 1]
            &&& signals.len() == if completes {
                2int
            } else {
                1
            }
            &&& signals.last() matches Signal::Use {
                blocks,
                local_hashes,
                lineage_hashes,
                token_ids,
            } && blocks == seq![block] && local_hashes.len() == 0 && lineage_hashes.len() == 0
                && token_ids is None
            &&& completes ==> {
                let own = s.tokens.subrange((n - 1) * s.block_size, n * s.block_size);
                let through = s.tokens.take(n * s.block_size);
                signals[0] matches Signal::Promote {
                    uuid,
                    hash,
                    parent_hash,
                    local_hash,
                    lineage_hash,
                    promoted_ids,
                } && {
                    &&& s.unique_blocks[n - 1] == UniqueBlock::PartialBlock(uuid)
                    &&& t.unique_blocks[n - 1] == UniqueBlock::FullBlock(hash)
                    &&& s.enable_prefix_caching ==> hash == tokens::sequence_hash(
                        through,
                        s.block_size,
                        1337,
                    )
                    &&& !s.enable_prefix_caching ==> hash == drawn
                    &&& n == 1 ==> parent_hash is None
                    &&& n > 1 ==> parent_hash is Some && s.unique_blocks[n - 2]
                        == UniqueBlock::FullBlock(parent_hash->0)
                    &&& local_hash == tokens::block_hash(own, 1337)
                    &&& lineage_hash == tokens::lineage_hash(through, s.block_size, 1337)
                    &&& promoted_ids is Some == s.emit_token_ids
                    &&& s.emit_token_ids ==> promoted_ids->0 == own
                }
            }
        }),
{
    let n = s.unique_blocks.len() as int;
    let bs = s.block_size;
    let more = s.tokens.push(token);
    sequence_model::lemma_next_starts_block(s.tokens.len(), bs);
    sequence_laws::lemma_starts_block(s);
    assert(sequence_model::SALT == 1337);
    if n > 0 {
        sequence_laws::lemma_block_end(s.tokens.len(), bs, n - 1);
        assert(n - 1 + 1 == n);
        assert(more.take(n * bs) =~= s.tokens.take(n * bs));
        assert(more.subrange((n - 1) * bs, n * bs) =~= s.tokens.subrange((n - 1) * bs, n * bs));
        if n > 1 {
            assert(s.unique_blocks[n - 2] is FullBlock);
        }
    }
}

/// Removing the last token takes one generated token back, and the block that held only this token.
pub proof fn lemma_pop_takes_last_token(s: SequenceState)
    requires
        s.wf(),
        s.tokens.len() > 0,
        s.generated_tokens > 0,
    ensures
        ({
            let t = s.popped();
            let n = s.unique_blocks.len() as int;
            &&& t.tokens.push(s.tokens.last()) == s.tokens
            &&& t.generated_tokens + 1 == s.generated_tokens
            &&& t.num_input_tokens == s.num_input_tokens
            &&& s.tokens.len() % s.block_size != 1 ==> t.unique_blocks == s.unique_blocks
            &&& s.tokens.len() % s.block_size == 1 ==> t.unique_blocks == s.unique_blocks.subrange(
                0,
                n - 1,
            )
        }),
{
    let len = (s.tokens.len() - 1) as nat;
    assert(s.tokens.drop_last().push(s.tokens.last()) =~= s.tokens);
    sequence_model::lemma_next_starts_block(len, s.block_size);
    sequence_model::lemma_blocks_for_next(len, s.block_size);
    sequence_model::lemma_blocks_for(s.tokens.len(), s.block_size);
    if s.tokens.len() % s.block_size == 1 {
        assert(s.unique_blocks.drop_last() =~= s.unique_blocks.subrange(
            0,
            s.unique_blocks.len() - 1,
        ));
    }
}

/// The blocks of a sequence are given up one by one, the last one first: a complete block may be
/// reused, a partial one is destroyed.
pub proof fn lemma_frees_all_blocks(s: SequenceState)
    ensures
        s.free_signals().len() == s.unique_blocks.len(),
        forall|i: int|
            #![trigger s.free_signals()[i]]
            0 <= i < s.unique_blocks.len() ==> {
                let b = s.unique_blocks[s.unique_blocks.len() - 1 - i];
                &&& b is FullBlock ==> s.free_signals()[i] == Signal::Deref { blocks: seq![b] }
                &&& b is PartialBlock ==> s.free_signals()[i] == Signal::Destroy {
                    blocks: seq![b],
                }
            },
{
}

/// Generating a token asks for what adding it asks for; with the last token that is to be generated,
/// and only then, all blocks are given up after that.
pub proof fn lemma_generate_frees_at_end(
    s: SequenceState,
    token: u32,
    drawn: u64,
    block: UniqueBlock,
)
    ensures
        ({
            let signals = s.generate_signals(token, drawn, block);
            let pushes = s.push_signals(token, drawn, block);
            let frees = s.pushed(token, drawn, block).free_signals();
            &&& s.generated_tokens + 1 == s.max_output_tokens ==> signals == pushes + frees
            &&& s.generated_tokens + 1 != s.max_output_tokens ==> signals == pushes
        }),
{
}

/// Recording reads adds one read for each place of an id in the list, and changes no other count.
pub proof fn lemma_reads_add_up(m: Map<u64, nat>, ids: Seq<u64>, id: u64, other: u64)
    requires
        other != id,
    ensures
        ({
            let before = sequence_model::add_reads(m, ids);
            let after = sequence_model::add_reads(m, ids.push(id));
            &&& after.contains_key(id)
            &&& after[id] == 1 + if before.contains_key(id) {
                before[id]
            } else {
                0
            }
            &&& after.contains_key(other) == before.contains_key(other)
            &&& before.contains_key(other) ==> after[other] == before[other]
            &&& sequence_model::add_reads(m, Seq::empty()) == m
        }),
{
    broadcast use vstd::seq_lib::group_to_multiset_ensures;

    let more = ids.push(id);
    assert(more.to_multiset() =~= ids.to_multiset().insert(id));
    assert(more[ids.len() as int] == id);
    assert(more.contains(id));
    if !ids.contains(id) {
        assert(!ids.to_multiset().contains(id));
    }
    assert forall|x: u64| x != id implies more.contains(x) == ids.contains(x) by {
        if ids.contains(x) {
            assert(more[ids.index_of(x)] == x);
        }
        if more.contains(x) {
            assert(ids[more.index_of(x)] == x);
        }
    }
    let none = Seq::<u64>::empty();
    assert forall|x: u64| !none.contains(x) && none.to_multiset().count(x) == 0 by {
        assert(!none.to_multiset().contains(x));
    }
    assert(sequence_model::add_reads(m, none) =~= m);
}

/// The ids of the complete blocks of a sequence, in order: those of all blocks, without a partial
/// block at the end.
pub proof fn lemma_full_ids_in_order(s: SequenceState)
    requires
        s.wf(),
    ensures
        ({
            let ids = sequence_model::full_ids(s.unique_blocks);
            let n = s.unique_blocks.len() as int;
            &&& ids.len() == if n > 0 && s.unique_blocks[n - 1] is PartialBlock {
                n - 1
            } else {
                n
            }
            &&& forall|i: int|
                0 <= i < ids.len() ==> s.unique_blocks[i] == UniqueBlock::FullBlock(
                    #[trigger] ids[i],
                )
        }),
{
    let n = s.unique_blocks.len() as int;
    if n > 0 {
        let rest = s.unique_blocks.drop_last();
        lemma_ids_of_complete(rest);
        assert(forall|i: int| 0 <= i < rest.len() ==> rest[i] == s.unique_blocks[i]);
    }
}

/// The ids of complete blocks.
proof fn lemma_ids_of_complete(blocks: Seq<UniqueBlock>)
    requires
        forall|i: int| 0 <= i < blocks.len() ==> #[trigger] blocks[i] is FullBlock,
    ensures
        sequence_model::full_ids(blocks).len() == blocks.len(),
        forall|i: int|
            0 <= i < blocks.len() ==> blocks[i] == UniqueBlock::FullBlock(
                #[trigger] sequence_model::full_ids(blocks)[i],
            ),
    decreases blocks.len(),
{
    if blocks.len() > 0 {
        let rest = blocks.drop_last();
        lemma_ids_of_complete(rest);
        let ids = sequence_model::full_ids(blocks);
        assert(blocks.last() is FullBlock) by {
            assert(blocks[blocks.len() - 1] is FullBlock);
        }
        assert forall|i: int| 0 <= i < blocks.len() implies blocks[i] == UniqueBlock::FullBlock(
            #[trigger] ids[i],
        ) by {
            if i < rest.len() {
                assert(rest[i] == blocks[i]);
                assert(ids[i] == sequence_model::full_ids(rest)[i]);
            }
        }
    }
}

} // verus!
