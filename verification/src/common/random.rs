//! Random ids and tokens.

use vstd::prelude::*;
use crate::common::protocols::UniqueBlock;

verus! {

/// A random token, from `rand::random`. Nothing is claimed of its value.
#[verifier::external_body]
pub(crate) fn random_token() -> (token: u32) {
    rand::random::<u32>()
}

/// A random hash, from `rand::random`. Nothing is claimed of its value.
#[verifier::external_body]
pub(crate) fn random_hash() -> (hash: u64) {
    rand::random::<u64>()
}

/// A partial block with a random id, from the `Default` of `dynamo_tokens::blocks::UniqueBlock`.
/// That the block is partial is claimed; of its id, nothing.
#[verifier::external_body]
pub(crate) fn random_partial_block() -> (block: UniqueBlock)
    ensures
        block is PartialBlock,
{
    match dynamo_tokens::blocks::UniqueBlock::default() {
        dynamo_tokens::blocks::UniqueBlock::PartialBlock(uuid) => UniqueBlock::PartialBlock(uuid.as_u128()),
        dynamo_tokens::blocks::UniqueBlock::FullBlock(hash) => UniqueBlock::FullBlock(hash),
    }
}

/// A random request id, from `uuid::Uuid::new_v4`. Nothing is claimed of its value.
#[verifier::external_body]
pub(crate) fn random_uuid() -> (uuid: u128) {
    uuid::Uuid::new_v4().as_u128()
}

} // verus!
