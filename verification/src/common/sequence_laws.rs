//! What holds of sequences in progress, whatever happens to them.

use vstd::prelude::*;
use crate::common::protocols::UniqueBlock;
use crate::common::sequence_model;
use crate::common::sequence_model::SequenceState;
use crate::common::tokens;

verus! {

/// A complete block ends within the tokens.
pub proof fn lemma_block_end(len: nat, block_size: nat, i: int)
    requires
        block_size > 0,
        0 <= i < len / block_size,
    ensures
        0 <= i * block_size <= (i + 1) * block_size <= len,
{
    vstd::arithmetic::div_mod::lemma_fundamental_div_mod(len as int, block_size as int);
    vstd::arithmetic::div_mod::lemma_mod_bound(len as int, block_size as int);
    let q = len as int / block_size as int;
    assert(0 <= i * block_size <= (i + 1) * block_size <= len) by (nonlinear_arith)
        requires
            len == block_size * q + len as int % block_size as int,
            0 <= len as int % block_size as int,
            0 <= i,
            i + 1 <= q,
            block_size > 0,
    ;
}

/// The id of a complete block does not depend on tokens behind it: sequences that start with the
/// same tokens have the same ids for the blocks of these tokens.
pub proof fn lemma_prefix_decides_hash(a: Seq<u32>, b: Seq<u32>, block_size: nat, i: int)
    requires
        block_size > 0,
        0 <= i < a.len() / block_size,
        0 <= i < b.len() / block_size,
        a.take((i + 1) * block_size) == b.take((i + 1) * block_size),
    ensures
        sequence_model::sequence_hash_of(a, block_size, i) == sequence_model::sequence_hash_of(
            b,
            block_size,
            i,
        ),
        sequence_model::lineage_hash_of(a, block_size, i) == sequence_model::lineage_hash_of(
            b,
            block_size,
            i,
        ),
        sequence_model::block_hash_of(a, block_size, i) == sequence_model::block_hash_of(
            b,
            block_size,
            i,
        ),
{
    lemma_block_end(a.len(), block_size, i);
    lemma_block_end(b.len(), block_size, i);
    let start = i * block_size;
    let end = (i + 1) * block_size;
    assert(a.subrange(start, end) =~= a.take(end).subrange(start, end));
    assert(b.subrange(start, end) =~= b.take(end).subrange(start, end));
}

/// With prefix caching, two sequences that start with the same tokens share the blocks of these
/// tokens.
pub proof fn lemma_shared_prefix(a: SequenceState, b: SequenceState, i: int)
    requires
        a.wf(),
        b.wf(),
        a.faithful(),
        b.faithful(),
        a.enable_prefix_caching,
        b.enable_prefix_caching,
        a.block_size == b.block_size,
        0 <= i < a.unique_blocks.len(),
        i < b.unique_blocks.len(),
        a.unique_blocks[i] is FullBlock,
        b.unique_blocks[i] is FullBlock,
        a.tokens.take((i + 1) * a.block_size) == b.tokens.take((i + 1) * a.block_size),
    ensures
        a.unique_blocks[i] == b.unique_blocks[i],
{
    lemma_prefix_decides_hash(a.tokens, b.tokens, a.block_size, i);
}

/// A new sequence has ids that its tokens decide.
pub proof fn lemma_new_faithful(
    s: SequenceState,
    tokens: Seq<u32>,
    max_output_tokens: nat,
    block_size: nat,
    enable_prefix_caching: bool,
    emit_token_ids: bool,
)
    requires
        s.is_new(tokens, max_output_tokens, block_size, enable_prefix_caching, emit_token_ids),
    ensures
        s.faithful(),
{
}

/// A token behind the complete blocks changes none of their ids.
proof fn lemma_hash_kept(s: SequenceState, token: u32, i: int)
    requires
        s.wf(),
        0 <= i < s.tokens.len() / s.block_size,
    ensures
        i < s.tokens.push(token).len() / s.block_size,
        sequence_model::sequence_hash_of(s.tokens.push(token), s.block_size, i)
            == sequence_model::sequence_hash_of(s.tokens, s.block_size, i),
{
    let more = s.tokens.push(token);
    lemma_block_end(s.tokens.len(), s.block_size, i);
    vstd::arithmetic::div_mod::lemma_div_is_ordered(
        s.tokens.len() as int,
        more.len() as int,
        s.block_size as int,
    );
    assert(more.take((i + 1) * s.block_size) =~= s.tokens.take((i + 1) * s.block_size));
}

/// The places of blocks when a block starts: all tokens before are in complete blocks.
pub proof fn lemma_starts_block(s: SequenceState)
    requires
        s.wf(),
        s.starts_block(),
    ensures
        s.tokens.len() % s.block_size == 0,
        s.unique_blocks.len() == s.tokens.len() / s.block_size,
        (s.tokens.len() + 1) / s.block_size == s.tokens.len() / s.block_size,
{
    let len = s.tokens.len();
    sequence_model::lemma_next_starts_block(len, s.block_size);
    sequence_model::lemma_blocks_for(len, s.block_size);
    sequence_model::lemma_blocks_for(len + 1, s.block_size);
    sequence_model::lemma_blocks_for_next(len, s.block_size);
}

/// Adding a token leaves ids that the tokens decide.
pub proof fn lemma_pushed_faithful(s: SequenceState, token: u32, drawn: u64, block: UniqueBlock)
    requires
        s.wf(),
        s.faithful(),
        block is PartialBlock,
    ensures
        s.pushed(token, drawn, block).faithful(),
{
    let t = s.pushed(token, drawn, block);
    if s.starts_block() {
        lemma_starts_block(s);
    }
    assert forall|i: int|
        #![trigger t.unique_blocks[i]]
        0 <= i < t.unique_blocks.len() && t.unique_blocks[i] is FullBlock implies i < t.tokens.len()
        / t.block_size && (t.enable_prefix_caching ==> t.unique_blocks[i] == UniqueBlock::FullBlock(
        sequence_model::sequence_hash_of(t.tokens, t.block_size, i),
    )) by {
        if i < s.unique_blocks.len() && t.unique_blocks[i] == s.unique_blocks[i]
            && s.unique_blocks[i] is FullBlock {
            lemma_hash_kept(s, token, i);
        }
    }
}

/// Removing the token that was added last takes back what adding it did; only a partial block that
/// has been completed stays complete.
pub proof fn lemma_pop_undoes_push(s: SequenceState, token: u32, drawn: u64, block: UniqueBlock)
    requires
        s.wf(),
    ensures
        ({
            let t = s.pushed(token, drawn, block).popped();
            t == SequenceState {
                unique_blocks: if s.starts_block() && s.ends_partial() {
                    s.unique_blocks.drop_last().push(
                        UniqueBlock::FullBlock(s.appended(token).promoted_hash(drawn)),
                    )
                } else {
                    s.unique_blocks
                },
                ..s
            }
        }),
{
    let t = s.pushed(token, drawn, block).popped();
    assert(s.tokens.push(token).drop_last() =~= s.tokens);
    sequence_model::lemma_next_starts_block(s.tokens.len(), s.block_size);
    if s.starts_block() {
        assert(s.pushed(token, drawn, block).unique_blocks.drop_last() =~= t.unique_blocks);
        if s.ends_partial() {
            assert(t.unique_blocks =~= s.unique_blocks.drop_last().push(
                UniqueBlock::FullBlock(s.appended(token).promoted_hash(drawn)),
            ));
        } else {
            assert(t.unique_blocks =~= s.unique_blocks);
        }
    } else {
        assert(s.tokens.len() % s.block_size != 0);
    }
}

/// Removing the token that was added last leaves ids that the tokens decide.
pub proof fn lemma_popped_faithful(s: SequenceState, token: u32, drawn: u64, block: UniqueBlock)
    requires
        s.wf(),
        s.faithful(),
    ensures
        s.pushed(token, drawn, block).popped().faithful(),
{
    let t = s.pushed(token, drawn, block).popped();
    lemma_pop_undoes_push(s, token, drawn, block);
    if s.starts_block() && s.ends_partial() {
        lemma_starts_block(s);
        let last = s.unique_blocks.len() - 1;
        assert forall|i: int|
            #![trigger t.unique_blocks[i]]
            0 <= i < t.unique_blocks.len() && t.unique_blocks[i] is FullBlock implies i
            < t.tokens.len() / t.block_size && (t.enable_prefix_caching ==> t.unique_blocks[i]
            == UniqueBlock::FullBlock(
            sequence_model::sequence_hash_of(t.tokens, t.block_size, i),
        )) by {
            if i < last {
                assert(t.unique_blocks[i] == s.unique_blocks[i]);
            } else {
                lemma_hash_kept(s, token, i);
            }
        }
    }
}

} // verus!
