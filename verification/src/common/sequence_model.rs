//! The state of a sequence in progress, and what each operation does to it.

use vstd::prelude::*;
use crate::common::protocols::{MoveBlock, PositionalLineageHash, Signal, UniqueBlock};
use crate::common::tokens;
use crate::common::tokens::MAX_BLOCKS;

verus! {

/// The salt of all block hashes.
pub const SALT: u64 = 1337;

/// The number of blocks of size `block_size` that hold `len` tokens.
pub open spec fn blocks_for(len: nat, block_size: nat) -> nat {
    (len + block_size - 1) as nat / block_size
}

/// The id of complete block `i`, by its place in the sequence.
pub open spec fn sequence_hash_of(tokens: Seq<u32>, block_size: nat, i: int) -> u64 {
    tokens::sequence_hash(tokens::tokens_through(tokens, block_size, i), block_size, SALT)
}

/// The content hash of complete block `i`.
pub open spec fn block_hash_of(tokens: Seq<u32>, block_size: nat, i: int) -> u64 {
    tokens::block_hash(tokens::tokens_of_block(tokens, block_size, i), SALT)
}

/// The lineage hash of complete block `i`.
pub open spec fn lineage_hash_of(
    tokens: Seq<u32>,
    block_size: nat,
    i: int,
) -> PositionalLineageHash {
    tokens::lineage_hash(tokens::tokens_through(tokens, block_size, i), block_size, SALT)
}

/// The content hashes of the complete blocks.
pub open spec fn block_hashes_of(tokens: Seq<u32>, block_size: nat) -> Seq<u64> {
    Seq::new(tokens.len() / block_size, |i: int| block_hash_of(tokens, block_size, i))
}

/// The lineage hashes of the complete blocks.
pub open spec fn lineage_hashes_of(tokens: Seq<u32>, block_size: nat) -> Seq<
    PositionalLineageHash,
> {
    Seq::new(tokens.len() / block_size, |i: int| lineage_hash_of(tokens, block_size, i))
}

/// The tokens of the complete blocks, block by block.
pub open spec fn block_tokens_of(tokens: Seq<u32>, block_size: nat) -> Seq<Seq<u32>> {
    Seq::new(
        tokens.len() / block_size,
        |i: int| tokens::tokens_of_block(tokens, block_size, i),
    )
}

/// The number of times `m` counts `id`.
pub open spec fn read_count(m: Map<u64, nat>, id: u64) -> nat {
    if m.contains_key(id) {
        m[id]
    } else {
        0
    }
}

/// The counts of `m`, with one more for each occurrence of an id in `ids`.
pub open spec fn add_reads(m: Map<u64, nat>, ids: Seq<u64>) -> Map<u64, nat> {
    Map::new(
        |id: u64| m.contains_key(id) || ids.contains(id),
        |id: u64| read_count(m, id) + ids.to_multiset().count(id),
    )
}

/// What the signals of a list say.
pub open spec fn signals_of(signals: Seq<MoveBlock>) -> Seq<Signal> {
    signals.map_values(|signal: MoveBlock| signal@)
}

/// The state of a sequence in progress.
#[verifier::ext_equal]
pub struct SequenceState {
    /// The tokens, input and generated.
    pub tokens: Seq<u32>,
    /// The blocks that hold them.
    pub unique_blocks: Seq<UniqueBlock>,
    /// Tokens per block.
    pub block_size: nat,
    /// The number of tokens to generate.
    pub max_output_tokens: nat,
    /// The number of tokens generated so far.
    pub generated_tokens: nat,
    /// The number of input tokens.
    pub num_input_tokens: nat,
    /// The signal that provides the blocks, until it is taken.
    pub creation_signal: Option<Signal>,
    /// Whether complete blocks are identified by their contents.
    pub enable_prefix_caching: bool,
    /// Whether signals bring the tokens of blocks.
    pub emit_token_ids: bool,
    /// How often each block was read.
    pub decode_block_reads: Map<u64, nat>,
}

/// The signal that gives up a block: a partial one is destroyed, a complete one may be reused.
pub open spec fn free_block(block: UniqueBlock) -> Signal {
    match block {
        UniqueBlock::PartialBlock(_) => Signal::Destroy { blocks: seq![block] },
        UniqueBlock::FullBlock(_) => Signal::Deref { blocks: seq![block] },
    }
}

/// The complete blocks among `blocks`, by their hashes.
pub open spec fn full_ids(blocks: Seq<UniqueBlock>) -> Seq<u64> {
    crate::kv_manager::model::full_hashes(blocks)
}

impl SequenceState {
    /// The blocks are as many as the tokens need, all but the last one complete; sizes are within
    /// the limits.
    pub open spec fn wf(self) -> bool {
        &&& 2 <= self.block_size <= u32::MAX
        &&& self.tokens.len() / self.block_size <= MAX_BLOCKS
        &&& self.unique_blocks.len() == blocks_for(self.tokens.len(), self.block_size)
        &&& forall|i: int|
            0 <= i < self.unique_blocks.len() - 1 ==> #[trigger] self.unique_blocks[i] is FullBlock
        &&& self.generated_tokens <= self.tokens.len()
    }

    /// Every complete block holds tokens of the sequence, and is identified by them where blocks
    /// are identified by their contents.
    pub open spec fn faithful(self) -> bool {
        forall|i: int|
            #![trigger self.unique_blocks[i]]
            0 <= i < self.unique_blocks.len() && self.unique_blocks[i] is FullBlock ==> {
                &&& i < self.tokens.len() / self.block_size
                &&& self.enable_prefix_caching ==> self.unique_blocks[i]
                    == UniqueBlock::FullBlock(sequence_hash_of(self.tokens, self.block_size, i))
            }
    }

    /// One more token can be added.
    pub open spec fn has_room(self) -> bool {
        &&& (self.tokens.len() + 1) / self.block_size <= MAX_BLOCKS
        &&& self.tokens.len() < usize::MAX
    }

    /// The token ids of the complete blocks, if signals bring them.
    pub open spec fn emitted_ids(self) -> Option<Seq<Seq<u32>>> {
        if self.emit_token_ids {
            Some(block_tokens_of(self.tokens, self.block_size))
        } else {
            None
        }
    }

    /// The signal that provides the blocks of the sequence.
    pub open spec fn use_signal(self) -> Signal {
        Signal::Use {
            blocks: self.unique_blocks,
            local_hashes: block_hashes_of(self.tokens, self.block_size),
            lineage_hashes: lineage_hashes_of(self.tokens, self.block_size),
            token_ids: self.emitted_ids(),
        }
    }

    /// The state that a sequence with the given input starts in, up to the choice of block ids.
    pub open spec fn is_new(
        self,
        tokens: Seq<u32>,
        max_output_tokens: nat,
        block_size: nat,
        enable_prefix_caching: bool,
        emit_token_ids: bool,
    ) -> bool {
        &&& self.tokens == tokens
        &&& self.block_size == block_size
        &&& self.max_output_tokens == max_output_tokens
        &&& self.generated_tokens == 0
        &&& self.num_input_tokens == tokens.len()
        &&& self.creation_signal == Some(self.use_signal())
        &&& self.enable_prefix_caching == enable_prefix_caching
        &&& self.emit_token_ids == emit_token_ids
        &&& self.decode_block_reads == Map::<u64, nat>::empty()
        &&& self.unique_blocks.len() == blocks_for(tokens.len(), block_size)
        &&& forall|i: int|
            #![trigger self.unique_blocks[i]]
            0 <= i < self.unique_blocks.len() ==> if i < tokens.len() / block_size {
                self.unique_blocks[i] is FullBlock && (enable_prefix_caching
                    ==> self.unique_blocks[i] == UniqueBlock::FullBlock(
                    sequence_hash_of(tokens, block_size, i),
                ))
            } else {
                self.unique_blocks[i] is PartialBlock
            }
    }

    /// The last block is still being filled.
    pub open spec fn ends_partial(self) -> bool {
        self.unique_blocks.len() > 0 && self.unique_blocks.last() is PartialBlock
    }

    /// The id of the partial last block once its tokens are complete; `drawn` is taken where
    /// blocks are not identified by their contents.
    pub open spec fn promoted_hash(self, drawn: u64) -> u64 {
        if self.enable_prefix_caching {
            sequence_hash_of(self.tokens, self.block_size, self.tokens.len() / self.block_size - 1)
        } else {
            drawn
        }
    }

    /// The signal that completes the partial last block.
    pub open spec fn promote_signal(self, drawn: u64) -> Signal {
        let n = self.unique_blocks.len();
        let last = self.tokens.len() / self.block_size - 1;
        Signal::Promote {
            uuid: self.unique_blocks.last()->PartialBlock_0,
            hash: self.promoted_hash(drawn),
            parent_hash: if n >= 2 {
                Some(self.unique_blocks[n - 2]->FullBlock_0)
            } else {
                None
            },
            local_hash: block_hash_of(self.tokens, self.block_size, last),
            lineage_hash: lineage_hash_of(self.tokens, self.block_size, last),
            promoted_ids: if self.emit_token_ids {
                Some(tokens::tokens_of_block(self.tokens, self.block_size, last))
            } else {
                None
            },
        }
    }

    /// The partial last block is complete.
    pub open spec fn promoted(self, drawn: u64) -> SequenceState {
        SequenceState {
            unique_blocks: self.unique_blocks.drop_last().push(
                UniqueBlock::FullBlock(self.promoted_hash(drawn)),
            ),
            ..self
        }
    }

    /// A token is added, without regard to blocks.
    pub open spec fn appended(self, token: u32) -> SequenceState {
        SequenceState {
            tokens: self.tokens.push(token),
            generated_tokens: self.generated_tokens + 1,
            ..self
        }
    }

    /// The next token is the first one of a block.
    pub open spec fn starts_block(self) -> bool {
        (self.tokens.len() + 1) % self.block_size == 1
    }

    /// The state after a token is added. Where it starts a block, `block` is that block, and a
    /// partial block before it is completed, under the id `drawn` if blocks are not identified by
    /// their contents.
    pub open spec fn pushed(self, token: u32, drawn: u64, block: UniqueBlock) -> SequenceState {
        let s = self.appended(token);
        if !self.starts_block() {
            s
        } else {
            let s = if self.ends_partial() {
                s.promoted(drawn)
            } else {
                s
            };
            SequenceState { unique_blocks: s.unique_blocks.push(block), ..s }
        }
    }

    /// The signals for the blocks that change when a token is added.
    pub open spec fn push_signals(self, token: u32, drawn: u64, block: UniqueBlock) -> Seq<Signal> {
        if !self.starts_block() {
            Seq::empty()
        } else if self.ends_partial() {
            seq![self.appended(token).promote_signal(drawn), use_one(block)]
        } else {
            seq![use_one(block)]
        }
    }

    /// The signals that give up all blocks, the last one first.
    pub open spec fn free_signals(self) -> Seq<Signal> {
        self.unique_blocks.reverse().map_values(|block: UniqueBlock| free_block(block))
    }

    /// The signals of a generated token: with the last token, all blocks are given up.
    pub open spec fn generate_signals(
        self,
        token: u32,
        drawn: u64,
        block: UniqueBlock,
    ) -> Seq<Signal> {
        let s = self.pushed(token, drawn, block);
        if s.generated_tokens == s.max_output_tokens {
            self.push_signals(token, drawn, block) + s.free_signals()
        } else {
            self.push_signals(token, drawn, block)
        }
    }

    /// The state after the last token is removed.
    pub open spec fn popped(self) -> SequenceState {
        let tokens = if self.tokens.len() > 0 {
            self.tokens.drop_last()
        } else {
            self.tokens
        };
        SequenceState {
            tokens,
            generated_tokens: if self.generated_tokens > 0 {
                (self.generated_tokens - 1) as nat
            } else {
                0
            },
            unique_blocks: if tokens.len() % self.block_size == 0 && self.unique_blocks.len() > 0 {
                self.unique_blocks.drop_last()
            } else {
                self.unique_blocks
            },
            ..self
        }
    }

    /// The state in which the blocks have to be provided anew.
    pub open spec fn reset(self) -> SequenceState {
        SequenceState { creation_signal: Some(self.use_signal()), ..self }
    }
}

/// The signal that provides one block that is still to be filled.
pub open spec fn use_one(block: UniqueBlock) -> Signal {
    Signal::Use {
        blocks: seq![block],
        local_hashes: Seq::empty(),
        lineage_hashes: Seq::empty(),
        token_ids: None,
    }
}

/// How many blocks one more token needs.
pub proof fn lemma_blocks_for_next(len: nat, block_size: nat)
    requires
        block_size >= 2,
    ensures
        blocks_for(len + 1, block_size) == blocks_for(len, block_size) + if (len + 1) % block_size
            == 1 {
            1int
        } else {
            0
        },
        blocks_for(len, block_size) == len / block_size + if len % block_size == 0 {
            0int
        } else {
            1
        },
        blocks_for(0, block_size) == 0,
{
    lemma_blocks_for(len, block_size);
    lemma_blocks_for(len + 1, block_size);
    lemma_blocks_for(0, block_size);
    let q = len as int / block_size as int;
    let r = len as int % block_size as int;
    vstd::arithmetic::div_mod::lemma_fundamental_div_mod(len as int, block_size as int);
    vstd::arithmetic::div_mod::lemma_mod_bound(len as int, block_size as int);
    if r + 1 < block_size {
        assert(len + 1 == q * block_size + (r + 1)) by (nonlinear_arith)
            requires
                len == block_size * q + r,
        ;
        vstd::arithmetic::div_mod::lemma_fundamental_div_mod_converse(
            (len + 1) as int,
            block_size as int,
            q,
            r + 1,
        );
    } else {
        assert(len + 1 == (q + 1) * block_size + 0) by (nonlinear_arith)
            requires
                len == block_size * q + r,
                r + 1 == block_size,
        ;
        vstd::arithmetic::div_mod::lemma_fundamental_div_mod_converse(
            (len + 1) as int,
            block_size as int,
            q + 1,
            0,
        );
    }
}

/// The number of blocks is that of the complete ones, and one more if tokens are left over.
pub proof fn lemma_blocks_for(len: nat, block_size: nat)
    requires
        block_size >= 1,
    ensures
        blocks_for(len, block_size) == len / block_size + if len % block_size == 0 {
            0int
        } else {
            1
        },
        len / block_size <= len,
{
    let q = len as int / block_size as int;
    let r = len as int % block_size as int;
    vstd::arithmetic::div_mod::lemma_fundamental_div_mod(len as int, block_size as int);
    vstd::arithmetic::div_mod::lemma_mod_bound(len as int, block_size as int);
    vstd::arithmetic::div_mod::lemma_div_is_ordered_by_denominator(len as int, 1, block_size as int);
    if r == 0 {
        assert(len + block_size - 1 == q * block_size + (block_size - 1)) by (nonlinear_arith)
            requires
                len == block_size * q + r,
                r == 0,
        ;
        vstd::arithmetic::div_mod::lemma_fundamental_div_mod_converse(
            len + block_size - 1,
            block_size as int,
            q,
            block_size - 1,
        );
    } else {
        assert(len + block_size - 1 == (q + 1) * block_size + (r - 1)) by (nonlinear_arith)
            requires
                len == block_size * q + r,
        ;
        vstd::arithmetic::div_mod::lemma_fundamental_div_mod_converse(
            len + block_size - 1,
            block_size as int,
            q + 1,
            r - 1,
        );
    }
}

/// Adding a token keeps the state in order.
pub proof fn lemma_pushed_wf(s: SequenceState, token: u32, drawn: u64, block: UniqueBlock)
    requires
        s.wf(),
        s.has_room(),
    ensures
        s.pushed(token, drawn, block).wf(),
        s.starts_block() && s.ends_partial() ==> (s.tokens.len() + 1) / s.block_size >= 1,
{
    lemma_blocks_for_next(s.tokens.len(), s.block_size);
    lemma_blocks_for(s.tokens.len() + 1, s.block_size);
    let len = s.tokens.len() + 1;
    if s.starts_block() && s.ends_partial() && len / s.block_size == 0 {
        vstd::arithmetic::div_mod::lemma_fundamental_div_mod(len as int, s.block_size as int);
        assert(len == 1);
    }
}

/// Removing a token keeps the state in order.
pub proof fn lemma_popped_wf(s: SequenceState)
    requires
        s.wf(),
    ensures
        s.popped().wf(),
{
    lemma_blocks_for(s.tokens.len(), s.block_size);
    if s.tokens.len() > 0 {
        let len = (s.tokens.len() - 1) as nat;
        lemma_blocks_for_next(len, s.block_size);
        lemma_next_starts_block(len, s.block_size);
        vstd::arithmetic::div_mod::lemma_div_is_ordered(
            len as int,
            s.tokens.len() as int,
            s.block_size as int,
        );
    }
}

/// A block starts behind complete blocks.
pub proof fn lemma_next_starts_block(len: nat, block_size: nat)
    requires
        block_size >= 2,
    ensures
        (len + 1) % block_size == 1 <==> len % block_size == 0,
{
    let q = len as int / block_size as int;
    let r = len as int % block_size as int;
    vstd::arithmetic::div_mod::lemma_fundamental_div_mod(len as int, block_size as int);
    vstd::arithmetic::div_mod::lemma_mod_bound(len as int, block_size as int);
    if r + 1 < block_size {
        assert(len + 1 == q * block_size + (r + 1)) by (nonlinear_arith)
            requires
                len == block_size * q + r,
        ;
        vstd::arithmetic::div_mod::lemma_fundamental_div_mod_converse(
            (len + 1) as int,
            block_size as int,
            q,
            r + 1,
        );
    } else {
        assert(len + 1 == (q + 1) * block_size + 0) by (nonlinear_arith)
            requires
                len == block_size * q + r,
                r + 1 == block_size,
        ;
        vstd::arithmetic::div_mod::lemma_fundamental_div_mod_converse(
            (len + 1) as int,
            block_size as int,
            q + 1,
            0,
        );
    }
}

/// Without reads, the counts stay as they are.
pub proof fn lemma_add_no_reads(m: Map<u64, nat>, ids: Seq<u64>)
    requires
        ids.len() == 0,
    ensures
        add_reads(m, ids) == m,
{
    broadcast use vstd::seq_lib::group_to_multiset_ensures;
    assert forall|id: u64| ids.to_multiset().count(id) == 0 by {
        assert(!ids.contains(id));
    }
    assert(add_reads(m, ids) =~= m);
}

/// The counts with one more read.
pub proof fn lemma_add_read(m: Map<u64, nat>, ids: Seq<u64>, i: int)
    requires
        0 <= i < ids.len(),
    ensures
        add_reads(m, ids.take(i + 1)) == add_reads(m, ids.take(i)).insert(
            ids[i],
            read_count(add_reads(m, ids.take(i)), ids[i]) + 1,
        ),
        read_count(add_reads(m, ids.take(i)), ids[i]) + 1 <= read_count(m, ids[i])
            + ids.to_multiset().count(ids[i]),
{
    broadcast use vstd::seq_lib::group_to_multiset_ensures;
    let before = ids.take(i);
    let after = ids.take(i + 1);
    assert(after =~= before.push(ids[i]));
    assert(after.to_multiset() =~= before.to_multiset().insert(ids[i]));
    assert forall|id: u64| after.contains(id) <==> before.contains(id) || id == ids[i] by {
        if before.contains(id) {
            assert(after[before.index_of(id)] == id);
        }
        if id == ids[i] {
            assert(after[i] == id);
        }
    }
    assert forall|id: u64| !before.contains(id) implies before.to_multiset().count(id) == 0 by {}
    assert(add_reads(m, after) =~= add_reads(m, before).insert(
        ids[i],
        read_count(add_reads(m, before), ids[i]) + 1,
    ));
    let rest = ids.skip(i + 1);
    assert(ids =~= after + rest);
    vstd::seq_lib::lemma_multiset_commutative(after, rest);
}

} // verus!
