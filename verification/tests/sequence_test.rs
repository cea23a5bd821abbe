use mocker::common::protocols::{MoveBlock, UniqueBlock};
use mocker::common::sequence::ActiveSequence;

#[test]
fn test_active_sequence_push() {
    // Create a sequence with block size 16 initialized with tokens [0..15]
    let initial_tokens: Vec<u32> = (0..15).collect();
    let (mut seq1, signal1) = ActiveSequence::new_with_signal(initial_tokens, 100, Some(16), true);
    assert_eq!(seq1.num_input_tokens(), 15);
    assert_eq!(seq1.len(), 15);

    // Check that we got a Use signal
    assert!(signal1.is_some());
    match &signal1 {
        Some(MoveBlock::Use(blocks, _hashes, ..)) => {
            assert_eq!(blocks.len(), 1);
        }
        _ => panic!("Expected Use signal"),
    }

    // Push token 15 which should complete the block (no signals yet)
    let signal_15 = seq1.push(15);
    assert!(signal_15.is_none(), "Completing a block should not trigger signals");

    // Push token 16 which should trigger both Promote and Use signals
    let signal_16 = seq1.push(16);
    assert!(signal_16.is_some());
    let signal_16 = signal_16.unwrap();
    assert_eq!(signal_16.len(), 2);

    // First signal should be Promote for the previous block
    match &signal_16[0] {
        MoveBlock::Promote(_, _, parent_hash, _hash, ..) => {
            assert_eq!(*parent_hash, None);
        }
        _ => panic!("Expected Promote signal as second signal"),
    }

    // Second signal should be Use for new partial block
    match &signal_16[1] {
        MoveBlock::Use(blocks, _hashes, ..) => {
            assert_eq!(blocks.len(), 1);
            assert!(matches!(blocks[0], UniqueBlock::PartialBlock(_)));
        }
        _ => panic!("Expected Use signal as first signal"),
    }

    // Verify state after pushing tokens
    assert_eq!(seq1.unique_blocks().len(), 2); // One full block and one partial block
    assert_eq!(seq1.len(), 17);
    assert_eq!(seq1.len() % seq1.block_size(), 1);

    // Create another sequence with block size 16 initialized with tokens [0..17]
    let extended_tokens: Vec<u32> = (0..16).collect();
    let (mut seq2, _) = ActiveSequence::new_with_signal(extended_tokens, 100, Some(16), true);
    seq2.push(16);
    seq2.pop();
    seq2.push(16);

    // Simplified assertions
    assert_eq!(
        seq1.unique_blocks()[0],
        seq2.unique_blocks()[0],
        "First blocks should be the same"
    );

    assert_ne!(
        seq1.unique_blocks()[1],
        seq2.unique_blocks()[1],
        "Second blocks should be different"
    );

    // Reset partial block on seq1 and push back token 16
    seq1.push(17);
    seq1.pop();
    seq1.pop();
    seq1.push(16);

    // Now push tokens 17..32 to both sequences
    for token in 17..33 {
        seq1.push(token);
        seq2.push(token);
    }

    // Both sequences should now have 2 blocks:
    // 1. FullBlock for tokens 0-15
    // 2. FullBlock for tokens 16-31
    // 3. No partial block since there are no remaining tokens
    assert_eq!(seq1.unique_blocks().len(), 3, "seq1 should have exactly 3 blocks");
    assert_eq!(seq2.unique_blocks().len(), 3, "seq2 should have exactly 3 blocks");
    assert_eq!(seq1.len() % seq1.block_size(), 1, "seq1 should have 1 partial token");
    assert_eq!(seq2.len() % seq2.block_size(), 1, "seq2 should have 1 partial token");

    // Verify that both sequences have identical blocks up to the second position
    assert_eq!(
        &seq1.unique_blocks()[0..2],
        &seq2.unique_blocks()[0..2],
        "First two blocks should be identical"
    );

    // Push tokens 34..47 to seq1
    for token in 33..48 {
        seq1.push(token);
    }

    // Push token 48 and get the signal - this completes the block and triggers signals
    let signal = seq1.push(48);
    let signal = signal.unwrap();

    // Check that signal[0] is promote
    match &signal[0] {
        MoveBlock::Promote(_, _, parent_hash, _hash, ..) => {
            // Check that the parent_hash matches unique_blocks[1], which should be a full block
            if let UniqueBlock::FullBlock(expected_hash) = seq1.unique_blocks()[1] {
                assert_eq!(
                    *parent_hash,
                    Some(expected_hash),
                    "Parent hash should match unique_blocks[1]"
                );
            } else {
                panic!("unique_blocks[1] should be a full block");
            }
        }
        _ => panic!("Expected Promote signal as first signal"),
    }

    // Reset seq1 and check that it equals the original clone
    let free_signals = seq1.reset_with_signal();

    // 49 - 15 generated tokens
    assert_eq!(seq1.generated_tokens(), 34);

    // Verify the reset signals include proper cleanup events
    assert!(!free_signals.is_empty());
}

#[test]
fn test_active_sequence_generate_signals() {
    // Create a sequence with block size 16, max_output_tokens 4, initialized with tokens [0..14)
    let initial_tokens: Vec<u32> = (0..14).collect();
    let (mut seq, signal) = ActiveSequence::new_with_signal(initial_tokens, 5, Some(16), true);

    // Initial signal - should have received a Use signal for the partial block
    assert!(signal.is_some());
    match signal {
        Some(MoveBlock::Use(blocks, _hashes, ..)) => {
            assert_eq!(blocks.len(), 1);
            assert!(matches!(blocks[0], UniqueBlock::PartialBlock(_)));
        }
        _ => panic!("Expected Use signal for the initial partial block"),
    }

    // Generate first two tokens - should not trigger new signals
    seq.generate();
    let signals_first = seq.generate();
    assert_eq!(signals_first.len(), 0);

    // Generate third token - this fills the block and should trigger both Promote and Use signals
    let signals_second = seq.generate();
    assert_eq!(signals_second.len(), 2);

    // First signal should be Promote
    match &signals_second[0] {
        MoveBlock::Promote(_, _, parent_hash, _hash, ..) => {
            assert_eq!(*parent_hash, None);
        }
        _ => panic!("Expected Promote signal as first signal after second token"),
    }

    // Second signal should be Use for new partial block
    match &signals_second[1] {
        MoveBlock::Use(blocks, _hashes, ..) => {
            assert_eq!(blocks.len(), 1);
            assert!(matches!(blocks[0], UniqueBlock::PartialBlock(_)));
        }
        _ => panic!("Expected Use signal as second signal after second token"),
    }

    // Generate fourth token - should not trigger new signals as it's adding to partial block
    let signals_third = seq.generate();
    assert_eq!(signals_third.len(), 0);

    // Generate last token - we reach max_output_tokens, should trigger Destroy and Deref signals
    let signals_last = seq.generate();
    assert_eq!(signals_last.len(), 2);

    // First signal should be Destroy for the partial block
    match &signals_last[0] {
        MoveBlock::Destroy(blocks) => {
            assert_eq!(blocks.len(), 1);
            assert!(matches!(blocks[0], UniqueBlock::PartialBlock(_)));
        }
        _ => panic!("Expected Destroy signal for partial block after fourth token"),
    }

    // Second signal should be Deref for the full block
    match &signals_last[1] {
        MoveBlock::Deref(blocks) => {
            assert_eq!(blocks.len(), 1);
            assert!(matches!(blocks[0], UniqueBlock::FullBlock(_)));
        }
        _ => panic!("Expected Deref signal for full block after fourth token"),
    }
}

/// The content hash and the sequence hash of known tokens.
#[test]
fn block_ids_are_those_of_the_tokens() {
    let seq = ActiveSequence::new((1..=8).collect(), 4, Some(4), true, false);
    assert_eq!(seq.block_hashes()[0], 14643705804678351452);
    assert_eq!(seq.unique_blocks()[0], UniqueBlock::FullBlock(14643705804678351452));
    assert_eq!(seq.unique_blocks()[1], UniqueBlock::FullBlock(4945711292740353085));
    assert_eq!(seq.full_block_ids(), vec![14643705804678351452, 4945711292740353085]);
    // The hash of the second block's tokens alone is another one.
    assert_ne!(seq.block_hashes()[1], 4945711292740353085);
    let other = ActiveSequence::new((5..=8).collect(), 4, Some(4), true, false);
    assert_eq!(seq.block_hashes()[1], other.block_hashes()[0]);
}

#[test]
fn lineage_hashes_tell_positions_apart() {
    let seq = ActiveSequence::new(vec![7, 7, 7, 7], 4, Some(2), true, false);
    let hashes = seq.positional_lineage_hashes();
    assert_eq!(hashes.len(), 2);
    assert_ne!(hashes[0], hashes[1]);
    let same = ActiveSequence::new(vec![7, 7, 7, 7, 7], 4, Some(2), true, false);
    assert_eq!(same.positional_lineage_hashes(), hashes);
}

#[test]
fn without_prefix_caching_ids_are_random() {
    let a = ActiveSequence::new((0..32).collect(), 4, Some(16), false, false);
    let b = ActiveSequence::new((0..32).collect(), 4, Some(16), false, false);
    assert_ne!(a.unique_blocks(), b.unique_blocks());
    assert_eq!(a.block_hashes(), b.block_hashes());
}

#[test]
fn sizes_of_a_sequence() {
    let seq = ActiveSequence::new((0..130).collect(), 7, None, true, false);
    assert_eq!(seq.block_size(), 64);
    assert_eq!(seq.len(), 130);
    assert_eq!(seq.extra_tokens(), 2);
    assert!(!seq.is_empty());
    assert_eq!(seq.unique_blocks().len(), 3);
    assert_eq!(seq.full_block_ids().len(), 2);
    assert_eq!(seq.max_output_tokens(), 7);
    assert_eq!(seq.generated_tokens(), 0);
    assert!(seq.enable_prefix_caching());
    assert!(!seq.emit_token_ids());

    let empty = ActiveSequence::new(vec![], 1, Some(4), true, false);
    assert!(empty.is_empty());
    assert_eq!(empty.extra_tokens(), 0);
    assert!(empty.unique_blocks().is_empty());
    match empty.creation_signal() {
        Some(MoveBlock::Use(blocks, hashes, lineage_hashes, token_ids)) => {
            assert!(blocks.is_empty());
            assert!(hashes.is_empty());
            assert!(lineage_hashes.is_empty());
            assert!(token_ids.is_none());
        }
        _ => panic!("Expected Use signal"),
    }
}

#[test]
fn creation_signal_is_taken_once() {
    let mut seq = ActiveSequence::new((0..5).collect(), 4, Some(2), true, true);
    match seq.take_creation_signal() {
        Some(MoveBlock::Use(blocks, hashes, lineage_hashes, token_ids)) => {
            assert_eq!(blocks.len(), 3);
            assert_eq!(&blocks, seq.unique_blocks());
            assert_eq!(hashes, seq.block_hashes());
            assert_eq!(lineage_hashes, seq.positional_lineage_hashes());
            assert_eq!(token_ids, Some(vec![vec![0, 1], vec![2, 3]]));
        }
        _ => panic!("Expected Use signal"),
    }
    assert!(seq.take_creation_signal().is_none());
    assert!(seq.creation_signal().is_none());
}

#[test]
fn promotion_brings_the_tokens_of_the_block() {
    let mut seq = ActiveSequence::new(vec![1, 2, 3], 4, Some(2), true, true);
    assert!(seq.push(4).is_none());
    let signals = seq.push(5).unwrap();
    assert_eq!(signals.len(), 2);
    match &signals[0] {
        MoveBlock::Promote(_, hash, parent_hash, local_hash, lineage_hash, token_ids) => {
            assert_eq!(UniqueBlock::FullBlock(*hash), seq.unique_blocks()[1]);
            assert_eq!(
                parent_hash.map(UniqueBlock::FullBlock),
                Some(seq.unique_blocks()[0])
            );
            assert_eq!(*local_hash, seq.block_hashes()[1]);
            assert_eq!(*lineage_hash, seq.positional_lineage_hashes()[1]);
            assert_eq!(*token_ids, Some(vec![3, 4]));
        }
        _ => panic!("Expected Promote signal"),
    }
}

/// Removing the last token takes back what adding it did.
#[test]
fn pop_undoes_push() {
    let mut seq = ActiveSequence::new((0..6).collect(), 9, Some(4), true, false);
    let blocks = seq.unique_blocks().clone();
    assert!(seq.push(6).is_none());
    seq.pop();
    assert_eq!(seq.len(), 6);
    assert_eq!(seq.generated_tokens(), 0);
    assert_eq!(seq.unique_blocks(), &blocks);

    // A block that was completed stays complete.
    seq.push(6);
    seq.push(7);
    seq.push(8);
    assert_eq!(seq.unique_blocks().len(), 3);
    seq.pop();
    assert_eq!(seq.len(), 8);
    assert_eq!(seq.generated_tokens(), 2);
    assert_eq!(seq.unique_blocks().len(), 2);
    assert!(matches!(seq.unique_blocks()[1], UniqueBlock::FullBlock(_)));

    let mut empty = ActiveSequence::new(vec![], 1, Some(4), true, false);
    empty.pop();
    assert!(empty.is_empty());
    assert_eq!(empty.generated_tokens(), 0);
}

#[test]
fn given_ids_are_used() {
    let mut seq = ActiveSequence::new((0..4).collect(), 9, Some(2), false, false);
    let block = UniqueBlock::PartialBlock(77);
    let signals = seq.push_drawn(4, 5, block).unwrap();
    assert_eq!(signals.len(), 1);
    assert_eq!(seq.unique_blocks()[2], block);
    assert!(seq.push_drawn(5, 5, UniqueBlock::PartialBlock(78)).is_none());
    let signals = seq.push_drawn(6, 99, UniqueBlock::PartialBlock(79)).unwrap();
    match &signals[0] {
        MoveBlock::Promote(uuid, hash, ..) => {
            assert_eq!(*uuid, 77);
            assert_eq!(*hash, 99);
        }
        _ => panic!("Expected Promote signal"),
    }
    assert_eq!(seq.unique_blocks()[2], UniqueBlock::FullBlock(99));
    assert_eq!(seq.unique_blocks()[3], UniqueBlock::PartialBlock(79));
}

#[test]
fn generated_tokens_are_random() {
    let mut seq = ActiveSequence::new(vec![], 40, Some(2), true, false);
    let mut other = ActiveSequence::new(vec![], 40, Some(2), true, false);
    for _ in 0..20 {
        seq.generate();
        other.generate();
    }
    assert_eq!(seq.len(), 20);
    assert_ne!(seq.block_hashes(), other.block_hashes());
}

#[test]
fn reads_are_counted_and_taken() {
    let mut seq = ActiveSequence::new((0..4).collect(), 4, Some(2), true, false);
    seq.record_decode_block_reads(vec![1, 2, 1]);
    seq.record_decode_block_reads(vec![2, 3]);
    let reads = seq.take_decode_block_reads();
    assert_eq!(reads.len(), 3);
    assert_eq!(reads.get(&1), Some(&2));
    assert_eq!(reads.get(&2), Some(&2));
    assert_eq!(reads.get(&3), Some(&1));
    assert!(seq.take_decode_block_reads().is_empty());
}

#[test]
fn free_signals_start_with_the_last_block() {
    let seq = ActiveSequence::new((0..5).collect(), 4, Some(2), true, false);
    let signals = seq.free_signal();
    assert_eq!(signals.len(), 3);
    match &signals[0] {
        MoveBlock::Destroy(blocks) => assert_eq!(blocks, &vec![seq.unique_blocks()[2]]),
        _ => panic!("Expected Destroy signal"),
    }
    match &signals[2] {
        MoveBlock::Deref(blocks) => assert_eq!(blocks, &vec![seq.unique_blocks()[0]]),
        _ => panic!("Expected Deref signal"),
    }
}

#[test]
fn reset_keeps_tokens_and_offers_the_blocks_again() {
    let mut seq = ActiveSequence::new((0..3).collect(), 9, Some(2), true, true);
    seq.take_creation_signal();
    seq.push(3);
    seq.push(4);
    let signals = seq.reset_with_signal();
    assert_eq!(signals.len(), 3);
    assert_eq!(seq.len(), 5);
    assert_eq!(seq.generated_tokens(), 2);
    match seq.creation_signal() {
        Some(MoveBlock::Use(blocks, hashes, _, token_ids)) => {
            assert_eq!(blocks, seq.unique_blocks());
            assert_eq!(hashes, &seq.block_hashes());
            assert_eq!(token_ids, &Some(vec![vec![0, 1], vec![2, 3]]));
        }
        _ => panic!("Expected Use signal"),
    }
}
