//! Token sequences that are cut into hashed blocks, as `dynamo_tokens` keeps them.

use dynamo_tokens::{TokenBlockError, TokenBlockSequence, Tokens};
use vstd::prelude::*;

verus! {

/// The number of complete blocks that a sequence can have: the position of a block is encoded in
/// its lineage hash, and positions from here on cannot be.
pub const MAX_BLOCKS: usize = 0x100_0000;

/// A sequence of tokens in blocks of `dynamo_tokens`.
#[verifier::external_type_specification]
#[verifier::external_body]
pub struct ExTokenBlockSequence(TokenBlockSequence);

/// The error of the operations on a sequence.
#[verifier::external_type_specification]
#[verifier::external_body]
pub struct ExTokenBlockError(TokenBlockError);

/// The tokens of a sequence.
pub uninterp spec fn sequence_tokens(chain: TokenBlockSequence) -> Seq<u32>;

/// The block size that a sequence was made with.
pub uninterp spec fn sequence_block_size(chain: TokenBlockSequence) -> nat;

/// The salt that a sequence was made with.
pub uninterp spec fn sequence_salt(chain: TokenBlockSequence) -> u64;

/// The hash of the tokens of one block. It depends on the tokens and the salt alone; as the tokens
/// are hashed in the byte order of the machine, it is another one on a machine of the other order.
pub uninterp spec fn block_hash(tokens: Seq<u32>, salt: u64) -> u64;

/// The hash of the last block of `tokens` in its sequence, where `tokens` are the tokens up to the
/// end of that block.
pub uninterp spec fn sequence_hash(tokens: Seq<u32>, block_size: nat, salt: u64) -> u64;

/// The lineage hash of the last block of `tokens`, where `tokens` are the tokens up to the end of
/// that block.
pub uninterp spec fn lineage_hash(tokens: Seq<u32>, block_size: nat, salt: u64) -> u128;

/// The tokens up to the end of block `i`.
pub open spec fn tokens_through(tokens: Seq<u32>, block_size: nat, i: int) -> Seq<u32> {
    tokens.take((i + 1) * block_size)
}

/// The tokens of block `i`.
pub open spec fn tokens_of_block(tokens: Seq<u32>, block_size: nat, i: int) -> Seq<u32> {
    tokens.subrange(i * block_size, (i + 1) * block_size)
}

/// Cuts `tokens` into blocks (`dynamo_tokens::Tokens::into_sequence`). The result holds the
/// tokens, and the block size and salt that it was made with.
#[verifier::external_body]
pub(crate) fn into_sequence(tokens: Vec<u32>, block_size: u32, salt: u64) -> (r: TokenBlockSequence)
    requires
        block_size > 0,
        tokens@.len() / (block_size as nat) <= MAX_BLOCKS,
    ensures
        sequence_tokens(r) == tokens@,
        sequence_block_size(r) == block_size,
        sequence_salt(r) == salt,
{
    Tokens::from(tokens).into_sequence(block_size, Some(salt))
}

/// `TokenBlockSequence::total_tokens`: the number of tokens.
pub assume_specification[ TokenBlockSequence::total_tokens ](chain: &TokenBlockSequence) -> (n:
    usize)
    ensures
        n == sequence_tokens(*chain).len(),
;

/// `TokenBlockSequence::append`: the token is added at the end, and the index of a block that it
/// completes is returned. It does not fail, as a block that is full has always been committed.
pub assume_specification[ TokenBlockSequence::append ](
    chain: &mut TokenBlockSequence,
    token: u32,
) -> (r: Result<Option<usize>, TokenBlockError>)
    requires
        sequence_block_size(*old(chain)) > 0,
        (sequence_tokens(*old(chain)).len() + 1) / sequence_block_size(*old(chain))
            <= MAX_BLOCKS,
    ensures
        sequence_tokens(*final(chain)) == sequence_tokens(*old(chain)).push(token),
        sequence_block_size(*final(chain)) == sequence_block_size(*old(chain)),
        sequence_salt(*final(chain)) == sequence_salt(*old(chain)),
        match r {
            Ok(Some(i)) => sequence_tokens(*final(chain)).len() % sequence_block_size(
                *old(chain),
            ) == 0 && i + 1 == sequence_tokens(*final(chain)).len() / sequence_block_size(
                *old(chain),
            ),
            Ok(None) => sequence_tokens(*final(chain)).len() % sequence_block_size(
                *old(chain),
            ) != 0,
            Err(_) => false,
        },
;

/// `TokenBlockSequence::pop`: the last token is removed and returned.
pub assume_specification[ TokenBlockSequence::pop ](chain: &mut TokenBlockSequence) -> (r:
    Option<u32>)
    ensures
        match r {
            Some(token) => sequence_tokens(*old(chain)).len() > 0 && token == sequence_tokens(
                *old(chain),
            ).last() && sequence_tokens(*final(chain)) == sequence_tokens(
                *old(chain),
            ).drop_last(),
            None => sequence_tokens(*old(chain)).len() == 0 && sequence_tokens(*final(chain))
                == sequence_tokens(*old(chain)),
        },
        sequence_block_size(*final(chain)) == sequence_block_size(*old(chain)),
        sequence_salt(*final(chain)) == sequence_salt(*old(chain)),
;

/// The number of complete blocks (`TokenBlockSequence::blocks`).
#[verifier::external_body]
pub(crate) fn num_complete_blocks(chain: &TokenBlockSequence) -> (n: usize)
    requires
        sequence_block_size(*chain) > 0,
    ensures
        n == sequence_tokens(*chain).len() / sequence_block_size(*chain),
{
    chain.blocks().len()
}

/// The hash of the tokens of a complete block (`dynamo_tokens::TokenBlock::block_hash`).
#[verifier::external_body]
pub(crate) fn block_hash_at(chain: &TokenBlockSequence, i: usize) -> (hash: u64)
    requires
        sequence_block_size(*chain) > 0,
        i < sequence_tokens(*chain).len() / sequence_block_size(*chain),
    ensures
        hash == block_hash(
            tokens_of_block(sequence_tokens(*chain), sequence_block_size(*chain), i as int),
            sequence_salt(*chain),
        ),
{
    chain.blocks()[i].block_hash()
}

/// The hash of a complete block in its sequence (`dynamo_tokens::TokenBlock::sequence_hash`).
#[verifier::external_body]
pub(crate) fn sequence_hash_at(chain: &TokenBlockSequence, i: usize) -> (hash: u64)
    requires
        sequence_block_size(*chain) > 0,
        i < sequence_tokens(*chain).len() / sequence_block_size(*chain),
    ensures
        hash == sequence_hash(
            tokens_through(sequence_tokens(*chain), sequence_block_size(*chain), i as int),
            sequence_block_size(*chain),
            sequence_salt(*chain),
        ),
{
    chain.blocks()[i].sequence_hash()
}

/// The lineage hash of a complete block
/// (`dynamo_tokens::TokenBlock::positional_lineage_hash`), as a number.
#[verifier::external_body]
pub(crate) fn lineage_hash_at(chain: &TokenBlockSequence, i: usize) -> (hash: u128)
    requires
        sequence_block_size(*chain) > 0,
        i < sequence_tokens(*chain).len() / sequence_block_size(*chain),
    ensures
        hash == lineage_hash(
            tokens_through(sequence_tokens(*chain), sequence_block_size(*chain), i as int),
            sequence_block_size(*chain),
            sequence_salt(*chain),
        ),
{
    chain.blocks()[i].positional_lineage_hash().as_u128()
}

/// The tokens of a complete block (`dynamo_tokens::TokenBlock::tokens`).
#[verifier::external_body]
pub(crate) fn block_tokens_at(chain: &TokenBlockSequence, i: usize) -> (tokens: Vec<u32>)
    requires
        sequence_block_size(*chain) > 0,
        i < sequence_tokens(*chain).len() / sequence_block_size(*chain),
    ensures
        tokens@ == tokens_of_block(
            sequence_tokens(*chain),
            sequence_block_size(*chain),
            i as int,
        ),
{
    chain.blocks()[i].tokens().to_vec()
}

} // verus!
