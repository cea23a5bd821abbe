//! Sequences that are being built token by token.

use std::collections::HashMap;
use dynamo_tokens::TokenBlockSequence;
use vstd::prelude::*;
use crate::common::protocols;
use crate::common::protocols::{MoveBlock, PositionalLineageHash, UniqueBlock};
use crate::common::random;
use crate::common::sequence_model;
use crate::common::sequence_model::{SequenceState, SALT};
use crate::common::tokens;
use crate::common::tokens::MAX_BLOCKS;

verus! {

broadcast use {
    vstd::std_specs::hash::group_hash_axioms,
    vstd::set::group_set_axioms,
    vstd::map::group_map_axioms,
};

/// The block size of a sequence for which none is given.
pub const DEFAULT_BLOCK_SIZE: usize = 64;

/// The blocks of a token sequence, with the lineage hashes of the complete ones. A complete block
/// is identified by its place in the sequence, or at random without prefix caching; tokens that
/// do not fill a block are in a partial one with a random id.
fn create_unique_blocks_from_sequence(
    tokens: &TokenBlockSequence,
    block_size: usize,
    enable_prefix_caching: bool,
) -> (r: (Vec<UniqueBlock>, Vec<PositionalLineageHash>))
    requires
        tokens::sequence_block_size(*tokens) == block_size,
        tokens::sequence_salt(*tokens) == SALT,
        block_size >= 2,
    ensures
        r.0@.len() == sequence_model::blocks_for(
            tokens::sequence_tokens(*tokens).len(),
            block_size as nat,
        ),
        forall|i: int|
            #![trigger r.0@[i]]
            0 <= i < r.0@.len() ==> if i < tokens::sequence_tokens(*tokens).len()
                / (block_size as nat) {
                r.0@[i] is FullBlock && (enable_prefix_caching ==> r.0@[i]
                    == UniqueBlock::FullBlock(
                    sequence_model::sequence_hash_of(
                        tokens::sequence_tokens(*tokens),
                        block_size as nat,
                        i,
                    ),
                ))
            } else {
                r.0@[i] is PartialBlock
            },
        r.1@ == sequence_model::lineage_hashes_of(
            tokens::sequence_tokens(*tokens),
            block_size as nat,
        ),
{
    let ghost all = tokens::sequence_tokens(*tokens);
    let n = tokens::num_complete_blocks(tokens);
    let mut unique_blocks: Vec<UniqueBlock> = Vec::new();
    let mut lineage_hashes: Vec<PositionalLineageHash> = Vec::new();
    let mut i: usize = 0;
    while i < n
        invariant
            i <= n,
            all == tokens::sequence_tokens(*tokens),
            n == all.len() / (block_size as nat),
            block_size >= 2,
            tokens::sequence_block_size(*tokens) == block_size,
            tokens::sequence_salt(*tokens) == SALT,
            unique_blocks@.len() == i,
            forall|j: int|
                #![trigger unique_blocks@[j]]
                0 <= j < i ==> unique_blocks@[j] is FullBlock && (enable_prefix_caching
                    ==> unique_blocks@[j] == UniqueBlock::FullBlock(
                    sequence_model::sequence_hash_of(all, block_size as nat, j),
                )),
            lineage_hashes@ == sequence_model::lineage_hashes_of(all, block_size as nat).take(
                i as int,
            ),
        decreases n - i,
    {
        let hash = if enable_prefix_caching {
            tokens::sequence_hash_at(tokens, i)
        } else {
            random::random_hash()
        };
        unique_blocks.push(UniqueBlock::FullBlock(hash));
        lineage_hashes.push(tokens::lineage_hash_at(tokens, i));
        i += 1;
    }
    assert(sequence_model::lineage_hashes_of(all, block_size as nat).take(i as int)
        =~= sequence_model::lineage_hashes_of(all, block_size as nat));
    proof {
        sequence_model::lemma_blocks_for(all.len(), block_size as nat);
    }
    // Only tokens that do not fill a block need a partial one.
    if tokens.total_tokens() % block_size != 0 {
        unique_blocks.push(random::random_partial_block());
    }
    (unique_blocks, lineage_hashes)
}

/// A sequence that is actively being built, with the ability to add tokens and commit to hashes.
pub struct ActiveSequence {
    unique_blocks: Vec<UniqueBlock>,
    tokens: TokenBlockSequence,
    block_size: usize,
    max_output_tokens: usize,
    generated_tokens: usize,
    num_input_tokens: usize,
    creation_signal: Option<MoveBlock>,
    enable_prefix_caching: bool,
    emit_token_ids: bool,
    /// Per-block read counts accumulated during decode phase (block_id -> read_count)
    decode_block_reads: HashMap<u64, usize>,
}

impl View for ActiveSequence {
    type V = SequenceState;

    closed spec fn view(&self) -> SequenceState {
        SequenceState {
            tokens: tokens::sequence_tokens(self.tokens),
            unique_blocks: self.unique_blocks@,
            block_size: self.block_size as nat,
            max_output_tokens: self.max_output_tokens as nat,
            generated_tokens: self.generated_tokens as nat,
            num_input_tokens: self.num_input_tokens as nat,
            creation_signal: match self.creation_signal {
                Some(signal) => Some(signal@),
                None => None,
            },
            enable_prefix_caching: self.enable_prefix_caching,
            emit_token_ids: self.emit_token_ids,
            decode_block_reads: read_counts(self.decode_block_reads@),
        }
    }
}

/// Read counts as numbers.
pub open spec fn read_counts(reads: Map<u64, usize>) -> Map<u64, nat> {
    reads.map_values(|n: usize| n as nat)
}

impl ActiveSequence {
    /// The state is in order, and the token sequence was made with the same block size.
    pub closed spec fn wf(&self) -> bool {
        &&& self@.wf()
        &&& tokens::sequence_block_size(self.tokens) == self.block_size
        &&& tokens::sequence_salt(self.tokens) == SALT
    }

    /// The state of a sequence in order is.
    pub proof fn lemma_wf(&self)
        requires
            self.wf(),
        ensures
            self@.wf(),
            self@.max_output_tokens <= usize::MAX,
            self@.num_input_tokens <= usize::MAX,
    {
    }

    /// A sequence with the given input tokens.
    pub fn new(
        tokens: Vec<u32>,
        max_output_tokens: usize,
        block_size: Option<usize>,
        enable_prefix_caching: bool,
        emit_token_ids: bool,
    ) -> (r: Self)
        requires
            block_size matches Some(n) ==> 2 <= n <= u32::MAX,
            tokens@.len() / (block_size.unwrap_or(DEFAULT_BLOCK_SIZE) as nat) <= MAX_BLOCKS,
        ensures
            r.wf(),
            r@.is_new(
                tokens@,
                max_output_tokens as nat,
                block_size.unwrap_or(DEFAULT_BLOCK_SIZE) as nat,
                enable_prefix_caching,
                emit_token_ids,
            ),
            block_size is None ==> r@.block_size == 64,
    {
        let block_size: usize = block_size.unwrap_or(DEFAULT_BLOCK_SIZE);
        let num_input_tokens = tokens.len();
        let ghost input = tokens@;
        let tokens = tokens::into_sequence(tokens, block_size as u32, SALT);
        let (unique_blocks, lineage_hashes) = create_unique_blocks_from_sequence(
            &tokens,
            block_size,
            enable_prefix_caching,
        );
        let block_token_ids = if emit_token_ids {
            Some(block_token_lists(&tokens))
        } else {
            None
        };
        let local_hashes = block_hash_list(&tokens);
        let blocks = protocols::copy_blocks(&unique_blocks);
        let creation_signal = Some(
            MoveBlock::Use(blocks, local_hashes, lineage_hashes, block_token_ids),
        );
        let r = ActiveSequence {
            unique_blocks,
            tokens,
            block_size,
            max_output_tokens,
            generated_tokens: 0,
            num_input_tokens,
            creation_signal,
            enable_prefix_caching,
            emit_token_ids,
            decode_block_reads: HashMap::new(),
        };
        proof {
            assert(r@.decode_block_reads =~= Map::<u64, nat>::empty());
            sequence_model::lemma_blocks_for(input.len(), block_size as nat);
        }
        r
    }

    /// The number of tokens in the last block, 0 if it is complete.
    pub fn extra_tokens(&self) -> (n: u32)
        requires
            self.wf(),
        ensures
            n == self@.tokens.len() % self@.block_size,
    {
        (self.len() % self.block_size) as u32
    }

    /// The number of tokens.
    pub fn len(&self) -> (n: usize)
        ensures
            n == self@.tokens.len(),
    {
        self.tokens.total_tokens()
    }

    /// Whether there are no tokens.
    pub fn is_empty(&self) -> (r: bool)
        ensures
            r == (self@.tokens.len() == 0),
    {
        self.tokens.total_tokens() == 0
    }

    /// Whether one more token can be added.
    pub fn has_room(&self) -> (r: bool)
        requires
            self.wf(),
        ensures
            r == self@.has_room(),
    {
        let len = self.len();
        len < usize::MAX && (len + 1) / self.block_size <= MAX_BLOCKS
    }

    /// Takes the signal that provides the blocks.
    pub fn take_creation_signal(&mut self) -> (r: Option<MoveBlock>)
        requires
            old(self).wf(),
        ensures
            final(self).wf(),
            final(self)@ == (SequenceState { creation_signal: None, ..old(self)@ }),
            match r {
                Some(signal) => old(self)@.creation_signal == Some(signal@),
                None => old(self)@.creation_signal is None,
            },
    {
        self.creation_signal.take()
    }

    /// The content hashes of the complete blocks.
    pub fn block_hashes(&self) -> (r: Vec<u64>)
        requires
            self.wf(),
        ensures
            r@ == sequence_model::block_hashes_of(self@.tokens, self@.block_size),
    {
        block_hash_list(&self.tokens)
    }

    /// The ids of the complete blocks in order, as a KV manager knows them.
    pub fn full_block_ids(&self) -> (r: Vec<u64>)
        ensures
            r@ == sequence_model::full_ids(self@.unique_blocks),
    {
        let mut ids: Vec<u64> = Vec::new();
        let mut i: usize = 0;
        while i < self.unique_blocks.len()
            invariant
                i <= self.unique_blocks@.len(),
                ids@ == sequence_model::full_ids(self.unique_blocks@.take(i as int)),
            decreases self.unique_blocks@.len() - i,
        {
            assert(self.unique_blocks@.take(i + 1).drop_last() =~= self.unique_blocks@.take(
                i as int,
            ));
            if let UniqueBlock::FullBlock(hash) = self.unique_blocks[i] {
                ids.push(hash);
            }
            i += 1;
        }
        assert(self.unique_blocks@.take(i as int) =~= self.unique_blocks@);
        ids
    }

    /// The lineage hashes of the complete blocks.
    pub fn positional_lineage_hashes(&self) -> (r: Vec<PositionalLineageHash>)
        requires
            self.wf(),
        ensures
            r@ == sequence_model::lineage_hashes_of(self@.tokens, self@.block_size),
    {
        let ghost all = sequence_model::lineage_hashes_of(self@.tokens, self@.block_size);
        let n = tokens::num_complete_blocks(&self.tokens);
        let mut hashes: Vec<PositionalLineageHash> = Vec::new();
        let mut i: usize = 0;
        while i < n
            invariant
                i <= n,
                self.wf(),
                n == self@.tokens.len() / self@.block_size,
                all == sequence_model::lineage_hashes_of(self@.tokens, self@.block_size),
                hashes@ == all.take(i as int),
            decreases n - i,
        {
            hashes.push(tokens::lineage_hash_at(&self.tokens, i));
            i += 1;
        }
        assert(all.take(i as int) =~= all);
        hashes
    }

    /// A sequence with the given input tokens, and the signal that provides its blocks.
    pub fn new_with_signal(
        tokens: Vec<u32>,
        max_output_tokens: usize,
        block_size: Option<usize>,
        enable_prefix_caching: bool,
    ) -> (r: (Self, Option<MoveBlock>))
        requires
            block_size matches Some(n) ==> 2 <= n <= u32::MAX,
            tokens@.len() / (block_size.unwrap_or(DEFAULT_BLOCK_SIZE) as nat) <= MAX_BLOCKS,
        ensures
            r.0.wf(),
            r.0@.creation_signal is None,
            r.1 is Some,
            (SequenceState { creation_signal: Some(r.1->0@), ..r.0@ }).is_new(
                tokens@,
                max_output_tokens as nat,
                block_size.unwrap_or(DEFAULT_BLOCK_SIZE) as nat,
                enable_prefix_caching,
                false,
            ),
            block_size is None ==> r.0@.block_size == 64,
    {
        let mut sequence = Self::new(
            tokens,
            max_output_tokens,
            block_size,
            enable_prefix_caching,
            false,
        );
        let ghost made = sequence@;
        let signal = sequence.take_creation_signal();
        assert(SequenceState { creation_signal: Some(signal->0@), ..sequence@ } =~= made);
        (sequence, signal)
    }

    /// Adds a token; `hash` and `block` are the ids that a block completed by it and a block
    /// started by it get, where the contents do not decide.
    pub fn push_drawn(&mut self, token: u32, hash: u64, block: UniqueBlock) -> (r: Option<
        Vec<MoveBlock>,
    >)
        requires
            old(self).wf(),
            old(self)@.has_room(),
            block is PartialBlock,
        ensures
            final(self).wf(),
            final(self)@ == old(self)@.pushed(token, hash, block),
            r is Some == old(self)@.starts_block(),
            r is Some ==> sequence_model::signals_of(r->0@) == old(self)@.push_signals(
                token,
                hash,
                block,
            ),
    {
        let ghost before = self@;
        proof {
            sequence_model::lemma_blocks_for_next(before.tokens.len(), before.block_size);
            sequence_model::lemma_pushed_wf(before, token, hash, block);
        }
        let _ = self.tokens.append(token);
        self.generated_tokens = self.generated_tokens + 1;
        assert(self@ =~= before.appended(token));
        if self.len() % self.block_size != 1 {
            return None;
        }
        let mut signals: Vec<MoveBlock> = Vec::new();
        // A partial block before the new one is complete now.
        if let Some(UniqueBlock::PartialBlock(uuid)) = self.last_block() {
            let promote = self.promote_last(uuid, hash);
            signals.push(promote);
        }
        self.unique_blocks.push(block);
        let mut blocks: Vec<UniqueBlock> = Vec::new();
        blocks.push(block);
        let use_block = MoveBlock::Use(blocks, Vec::new(), Vec::new(), None);
        proof {
            assert(blocks@ =~= seq![block]);
            assert(use_block@ =~= sequence_model::use_one(block));
        }
        signals.push(use_block);
        assert(sequence_model::signals_of(signals@) =~= before.push_signals(token, hash, block));
        assert(self@ =~= before.pushed(token, hash, block));
        Some(signals)
    }

    /// The last block.
    fn last_block(&self) -> (r: Option<UniqueBlock>)
        ensures
            match r {
                Some(block) => self@.unique_blocks.len() > 0 && block == self@.unique_blocks.last(),
                None => self@.unique_blocks.len() == 0,
            },
    {
        if self.unique_blocks.len() == 0 {
            None
        } else {
            Some(self.unique_blocks[self.unique_blocks.len() - 1])
        }
    }

    /// Makes the partial last block complete; returns the signal for it.
    fn promote_last(&mut self, uuid: u128, drawn: u64) -> (r: MoveBlock)
        requires
            tokens::sequence_block_size(old(self).tokens) == old(self).block_size,
            tokens::sequence_salt(old(self).tokens) == SALT,
            old(self)@.block_size > 0,
            old(self)@.tokens.len() / old(self)@.block_size >= 1,
            old(self)@.unique_blocks.len() > 0,
            old(self)@.unique_blocks.last() == UniqueBlock::PartialBlock(uuid),
            forall|i: int|
                0 <= i < old(self)@.unique_blocks.len() - 1 ==> #[trigger] old(
                    self,
                )@.unique_blocks[i] is FullBlock,
        ensures
            final(self)@ == old(self)@.promoted(drawn),
            tokens::sequence_block_size(final(self).tokens) == final(self).block_size,
            tokens::sequence_salt(final(self).tokens) == SALT,
            r@ == old(self)@.promote_signal(drawn),
    {
        let ghost before = self@;
        let last = tokens::num_complete_blocks(&self.tokens) - 1;
        let hash = if self.enable_prefix_caching {
            tokens::sequence_hash_at(&self.tokens, last)
        } else {
            drawn
        };
        let local_hash = tokens::block_hash_at(&self.tokens, last);
        let lineage_hash = tokens::lineage_hash_at(&self.tokens, last);
        let token_ids = if self.emit_token_ids {
            Some(tokens::block_tokens_at(&self.tokens, last))
        } else {
            None
        };
        self.unique_blocks.pop();
        // Now the last block is the parent of the completed one.
        assert(self.unique_blocks@ =~= before.unique_blocks.drop_last());
        let parent_hash = match self.last_block() {
            Some(UniqueBlock::FullBlock(hash)) => Some(hash),
            _ => None,
        };
        self.unique_blocks.push(UniqueBlock::FullBlock(hash));
        assert(self@ =~= before.promoted(drawn));
        MoveBlock::Promote(uuid, hash, parent_hash, local_hash, lineage_hash, token_ids)
    }

    /// Adds a token. Ids that the contents do not decide are drawn at random.
    pub fn push(&mut self, token: u32) -> (r: Option<Vec<MoveBlock>>)
        requires
            old(self).wf(),
            old(self)@.has_room(),
        ensures
            final(self).wf(),
            r is Some == old(self)@.starts_block(),
            exists|hash: u64, block: UniqueBlock| #[trigger]
                drawn_push(old(self)@, token, hash, block, final(self)@, r),
    {
        let hash = random::random_hash();
        let block = random::random_partial_block();
        let r = self.push_drawn(token, hash, block);
        assert(drawn_push(old(self)@, token, hash, block, self@, r));
        r
    }

    /// Adds a token and returns the signals for the blocks that change; with the last token to
    /// generate, all blocks are given up.
    pub fn generate_drawn(&mut self, token: u32, hash: u64, block: UniqueBlock) -> (r: Vec<
        MoveBlock,
    >)
        requires
            old(self).wf(),
            old(self)@.has_room(),
            old(self)@.generated_tokens < old(self)@.max_output_tokens,
            block is PartialBlock,
        ensures
            final(self).wf(),
            final(self)@ == old(self)@.pushed(token, hash, block),
            sequence_model::signals_of(r@) == old(self)@.generate_signals(token, hash, block),
    {
        let ghost before = self@;
        let mut signals: Vec<MoveBlock> = match self.push_drawn(token, hash, block) {
            Some(signals) => signals,
            None => Vec::new(),
        };
        assert(sequence_model::signals_of(signals@) =~= before.push_signals(token, hash, block));
        if self.generated_tokens == self.max_output_tokens {
            let mut free = self.free_signal();
            let ghost pushed = signals@;
            let ghost freed = free@;
            signals.append(&mut free);
            assert(sequence_model::signals_of(signals@) =~= sequence_model::signals_of(pushed)
                + sequence_model::signals_of(freed));
        }
        signals
    }

    /// Adds a random token; see [`ActiveSequence::generate_drawn`].
    pub fn generate(&mut self) -> (r: Vec<MoveBlock>)
        requires
            old(self).wf(),
            old(self)@.has_room(),
            old(self)@.generated_tokens < old(self)@.max_output_tokens,
        ensures
            final(self).wf(),
            exists|token: u32, hash: u64, block: UniqueBlock| #[trigger]
                drawn_generate(old(self)@, token, hash, block, final(self)@, r@),
    {
        let token = random::random_token();
        let hash = random::random_hash();
        let block = random::random_partial_block();
        let r = self.generate_drawn(token, hash, block);
        assert(drawn_generate(old(self)@, token, hash, block, self@, r@));
        r
    }

    /// Records one read of each of `block_ids`.
    pub fn record_decode_block_reads(&mut self, block_ids: Vec<u64>)
        requires
            old(self).wf(),
            forall|id: u64|
                sequence_model::read_count(old(self)@.decode_block_reads, id)
                    + #[trigger] block_ids@.to_multiset().count(id) <= usize::MAX,
        ensures
            final(self).wf(),
            final(self)@ == (SequenceState {
                decode_block_reads: sequence_model::add_reads(
                    old(self)@.decode_block_reads,
                    block_ids@,
                ),
                ..old(self)@
            }),
    {
        let ghost before = self@;
        let ghost start = self.decode_block_reads@;
        let mut i: usize = 0;
        proof {
            sequence_model::lemma_add_no_reads(read_counts(start), block_ids@.take(0));
        }
        while i < block_ids.len()
            invariant
                i <= block_ids@.len(),
                forall|id: u64|
                    sequence_model::read_count(before.decode_block_reads, id)
                        + #[trigger] block_ids@.to_multiset().count(id) <= usize::MAX,
                before.decode_block_reads == read_counts(start),
                read_counts(self.decode_block_reads@) == sequence_model::add_reads(
                    before.decode_block_reads,
                    block_ids@.take(i as int),
                ),
                self@ == (SequenceState {
                    decode_block_reads: read_counts(self.decode_block_reads@),
                    ..before
                }),
                self.wf(),
            decreases block_ids@.len() - i,
        {
            let id = block_ids[i];
            let ghost reads = self.decode_block_reads@;
            proof {
                sequence_model::lemma_add_read(
                    before.decode_block_reads,
                    block_ids@,
                    i as int,
                );
            }
            let count = match self.decode_block_reads.get(&id) {
                Some(count) => *count,
                None => 0,
            };
            assert(count == sequence_model::read_count(read_counts(reads), id));
            self.decode_block_reads.insert(id, count + 1);
            assert(read_counts(self.decode_block_reads@) =~= read_counts(reads).insert(
                id,
                (count + 1) as nat,
            ));
            i += 1;
        }
        assert(block_ids@.take(i as int) =~= block_ids@);
    }

    /// Takes the read counts, which start again from nothing.
    pub fn take_decode_block_reads(&mut self) -> (r: HashMap<u64, usize>)
        requires
            old(self).wf(),
        ensures
            final(self).wf(),
            read_counts(r@) == old(self)@.decode_block_reads,
            final(self)@ == (SequenceState {
                decode_block_reads: Map::empty(),
                ..old(self)@
            }),
    {
        let mut reads: HashMap<u64, usize> = HashMap::new();
        std::mem::swap(&mut reads, &mut self.decode_block_reads);
        assert(self@.decode_block_reads =~= Map::<u64, nat>::empty());
        reads
    }

    /// The signals that give up all blocks, the last one first.
    pub fn free_signal(&self) -> (r: Vec<MoveBlock>)
        ensures
            sequence_model::signals_of(r@) == self@.free_signals(),
    {
        let mut signals: Vec<MoveBlock> = Vec::new();
        let n = self.unique_blocks.len();
        let mut i: usize = 0;
        while i < n
            invariant
                i <= n,
                n == self.unique_blocks@.len(),
                sequence_model::signals_of(signals@) == self@.free_signals().take(i as int),
            decreases n - i,
        {
            let block = self.unique_blocks[n - 1 - i];
            let mut blocks: Vec<UniqueBlock> = Vec::new();
            blocks.push(block);
            assert(blocks@ =~= seq![block]);
            let ghost before = signals@;
            let signal = match block {
                UniqueBlock::PartialBlock(_) => MoveBlock::Destroy(blocks),
                UniqueBlock::FullBlock(_) => MoveBlock::Deref(blocks),
            };
            assert(signal@ == sequence_model::free_block(block));
            signals.push(signal);
            i += 1;
            assert(sequence_model::signals_of(signals@) =~= sequence_model::signals_of(before).push(
                signal@,
            ));
            assert(self@.free_signals().take(i as int) =~= self@.free_signals().take(i - 1).push(
                signal@,
            ));
        }
        assert(self@.free_signals().take(i as int) =~= self@.free_signals());
        signals
    }

    /// Gives up all blocks: returns the signals for that, and keeps the tokens and a signal that
    /// provides the blocks anew.
    pub fn reset_with_signal(&mut self) -> (r: Vec<MoveBlock>)
        requires
            old(self).wf(),
        ensures
            final(self).wf(),
            final(self)@ == old(self)@.reset(),
            sequence_model::signals_of(r@) == old(self)@.free_signals(),
    {
        let free_signal = self.free_signal();
        let block_token_ids = if self.emit_token_ids {
            Some(block_token_lists(&self.tokens))
        } else {
            None
        };
        let blocks = protocols::copy_blocks(&self.unique_blocks);
        let hashes = self.block_hashes();
        let lineage_hashes = self.positional_lineage_hashes();
        self.creation_signal = Some(MoveBlock::Use(blocks, hashes, lineage_hashes, block_token_ids));
        free_signal
    }

    /// Removes the last token.
    pub fn pop(&mut self)
        requires
            old(self).wf(),
        ensures
            final(self).wf(),
            final(self)@ == old(self)@.popped(),
    {
        let ghost before = self@;
        proof {
            sequence_model::lemma_popped_wf(before);
        }
        let _ = self.tokens.pop();
        if self.generated_tokens > 0 {
            self.generated_tokens = self.generated_tokens - 1;
        }
        // Back to the last complete block.
        if self.tokens.total_tokens() % self.block_size == 0 {
            self.unique_blocks.pop();
        }
        assert(self@ =~= before.popped());
    }

    /// The blocks.
    pub fn unique_blocks(&self) -> (r: &Vec<UniqueBlock>)
        ensures
            r@ == self@.unique_blocks,
    {
        &self.unique_blocks
    }

    /// The signal that provides the blocks, if it was not taken.
    pub fn creation_signal(&self) -> (r: &Option<MoveBlock>)
        ensures
            match *r {
                Some(signal) => self@.creation_signal == Some(signal@),
                None => self@.creation_signal is None,
            },
    {
        &self.creation_signal
    }

    /// Tokens per block.
    pub fn block_size(&self) -> (n: usize)
        ensures
            n == self@.block_size,
    {
        self.block_size
    }

    /// The number of tokens to generate.
    pub fn max_output_tokens(&self) -> (n: usize)
        ensures
            n == self@.max_output_tokens,
    {
        self.max_output_tokens
    }

    /// The number of tokens generated so far.
    pub fn generated_tokens(&self) -> (n: usize)
        ensures
            n == self@.generated_tokens,
    {
        self.generated_tokens
    }

    /// The number of input tokens.
    pub fn num_input_tokens(&self) -> (n: usize)
        ensures
            n == self@.num_input_tokens,
    {
        self.num_input_tokens
    }

    /// Whether complete blocks are identified by their contents.
    pub fn enable_prefix_caching(&self) -> (r: bool)
        ensures
            r == self@.enable_prefix_caching,
    {
        self.enable_prefix_caching
    }

    /// Whether signals bring the tokens of blocks.
    pub fn emit_token_ids(&self) -> (r: bool)
        ensures
            r == self@.emit_token_ids,
    {
        self.emit_token_ids
    }
}

/// A token was added with these ids for the blocks.
pub open spec fn drawn_push(
    before: SequenceState,
    token: u32,
    hash: u64,
    block: UniqueBlock,
    after: SequenceState,
    signals: Option<Vec<MoveBlock>>,
) -> bool {
    &&& block is PartialBlock
    &&& after == before.pushed(token, hash, block)
    &&& signals is Some ==> sequence_model::signals_of(signals->0@) == before.push_signals(
        token,
        hash,
        block,
    )
}

/// This token was generated, with these ids for the blocks.
pub open spec fn drawn_generate(
    before: SequenceState,
    token: u32,
    hash: u64,
    block: UniqueBlock,
    after: SequenceState,
    signals: Seq<MoveBlock>,
) -> bool {
    &&& block is PartialBlock
    &&& after == before.pushed(token, hash, block)
    &&& sequence_model::signals_of(signals) == before.generate_signals(token, hash, block)
}

/// The content hashes of the complete blocks.
fn block_hash_list(tokens: &TokenBlockSequence) -> (r: Vec<u64>)
    requires
        tokens::sequence_salt(*tokens) == SALT,
        tokens::sequence_block_size(*tokens) > 0,
    ensures
        r@ == sequence_model::block_hashes_of(
            tokens::sequence_tokens(*tokens),
            tokens::sequence_block_size(*tokens),
        ),
{
    let ghost all = tokens::sequence_tokens(*tokens);
    let ghost block_size = tokens::sequence_block_size(*tokens);
    let n = tokens::num_complete_blocks(tokens);
    let mut hashes: Vec<u64> = Vec::new();
    let mut i: usize = 0;
    while i < n
        invariant
            i <= n,
            all == tokens::sequence_tokens(*tokens),
            n == all.len() / block_size,
            block_size > 0,
            tokens::sequence_block_size(*tokens) == block_size,
            tokens::sequence_salt(*tokens) == SALT,
            hashes@ == sequence_model::block_hashes_of(all, block_size).take(i as int),
        decreases n - i,
    {
        hashes.push(tokens::block_hash_at(tokens, i));
        i += 1;
    }
    assert(sequence_model::block_hashes_of(all, block_size).take(i as int)
        =~= sequence_model::block_hashes_of(all, block_size));
    hashes
}

/// The tokens of the complete blocks, block by block.
fn block_token_lists(tokens: &TokenBlockSequence) -> (r: Vec<
    Vec<u32>,
>)
    requires
        tokens::sequence_block_size(*tokens) > 0,
    ensures
        protocols::token_lists(r@) == sequence_model::block_tokens_of(
            tokens::sequence_tokens(*tokens),
            tokens::sequence_block_size(*tokens),
        ),
{
    let ghost all = tokens::sequence_tokens(*tokens);
    let ghost block_size = tokens::sequence_block_size(*tokens);
    let n = tokens::num_complete_blocks(tokens);
    let mut lists: Vec<Vec<u32>> = Vec::new();
    let mut i: usize = 0;
    while i < n
        invariant
            i <= n,
            all == tokens::sequence_tokens(*tokens),
            n == all.len() / block_size,
            block_size > 0,
            tokens::sequence_block_size(*tokens) == block_size,
            lists@.len() == i,
            forall|j: int|
                #![trigger lists@[j]]
                0 <= j < i ==> lists@[j]@ == tokens::tokens_of_block(all, block_size, j),
        decreases n - i,
    {
        lists.push(tokens::block_tokens_at(tokens, i));
        i += 1;
    }
    assert(protocols::token_lists(lists@) =~= sequence_model::block_tokens_of(all, block_size));
    lists
}

} // verus!
