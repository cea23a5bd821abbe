use mocker::common::protocols::{
    KvCacheEventData, KvCacheEventSink, KvCacheStoredBlockData, KvCacheTrace, KvManagerBackend,
    MockerEvictionBackend, MoveBlock, PoolUsage, TierEvent, UniqueBlock,
};
use mocker::common::sequence::ActiveSequence;
use mocker::kv_manager::vllm_backend::ManualKvManager;
use mocker::kv_manager::{KvBackend, KvManager};

type Manager = KvManager<ManualKvManager>;

fn use_blocks<B: KvBackend>(manager: &mut B, ids: Vec<u64>) -> bool {
    let blocks: Vec<_> = ids.iter().map(|&id| UniqueBlock::FullBlock(id)).collect();
    let hashes: Vec<_> = ids.into_iter().collect();
    manager.process(&MoveBlock::Use(blocks, hashes, vec![], None))
}

fn destroy_blocks<B: KvBackend>(manager: &mut B, ids: Vec<u64>) {
    let blocks = ids.into_iter().map(UniqueBlock::FullBlock).collect();
    manager.process(&MoveBlock::Destroy(blocks));
}

fn deref_blocks<B: KvBackend>(manager: &mut B, ids: Vec<u64>) {
    let blocks = ids.into_iter().map(UniqueBlock::FullBlock).collect();
    manager.process(&MoveBlock::Deref(blocks));
}

fn assert_active_blocks(manager: &ManualKvManager, expected_blocks: &[(u64, usize)]) {
    assert_eq!(
        manager.active_blocks().len(),
        expected_blocks.len(),
        "Active blocks count doesn't match expected"
    );
    for &(id, ref_count) in expected_blocks {
        let block = UniqueBlock::FullBlock(id);
        assert!(
            manager.active_blocks().contains_key(&block),
            "Block {id} not found in active blocks",
        );
        assert_eq!(
            manager.active_blocks().get(&block),
            Some(&ref_count),
            "Block {id} has wrong reference count",
        );
    }
}

fn assert_inactive_blocks(manager: &ManualKvManager, expected_size: usize, expected_blocks: &[u64]) {
    let inactive_blocks = manager.get_inactive_blocks();
    let inactive_blocks_count = manager.num_inactive_blocks();
    assert_eq!(
        inactive_blocks_count, expected_size,
        "Inactive blocks count doesn't match expected"
    );
    for &id in expected_blocks {
        let block = UniqueBlock::FullBlock(id);
        assert!(
            inactive_blocks.iter().any(|b| *b == block),
            "Block {id} not found in inactive blocks",
        );
    }
}

fn manual(manager: &Manager) -> &ManualKvManager {
    let KvManager::Manual(m) = manager else {
        panic!("Expected Manual backend for this test");
    };
    m
}

#[test]
fn mod_test_failure_on_max_capacity() {
    let mut manager: Manager = KvManager::new(10, 16);

    let response = use_blocks(&mut manager, (0..10).collect());
    assert!(response, "Expected success response");
    assert_eq!(manager.current_capacity(), 10);

    let response = use_blocks(&mut manager, vec![10]);
    assert!(!response, "Expected failure response when exceeding max capacity");
}

#[test]
fn mod_test_block_lifecycle_stringent() {
    let mut manager: Manager = KvManager::new(10, 16);

    use_blocks(&mut manager, (0..5).collect());
    use_blocks(&mut manager, vec![0, 1, 5, 6]);
    assert_active_blocks(
        manual(&manager),
        &[(0, 2), (1, 2), (2, 1), (3, 1), (4, 1), (5, 1), (6, 1)],
    );

    destroy_blocks(&mut manager, vec![4]);
    deref_blocks(&mut manager, vec![0, 1, 2, 3]);
    assert_inactive_blocks(manual(&manager), 2, &[3, 2]);
    assert_active_blocks(manual(&manager), &[(0, 1), (1, 1), (5, 1), (6, 1)]);

    destroy_blocks(&mut manager, vec![6]);
    deref_blocks(&mut manager, vec![0, 1, 5]);
    assert_inactive_blocks(manual(&manager), 5, &[0, 1, 2, 3, 5]);
    assert_active_blocks(manual(&manager), &[]);

    use_blocks(&mut manager, vec![0, 1, 2, 7, 8, 9]);
    assert_inactive_blocks(manual(&manager), 2, &[3, 5]);
    assert_active_blocks(
        manual(&manager),
        &[(0, 1), (1, 1), (2, 1), (7, 1), (8, 1), (9, 1)],
    );

    let blocks_to_check: Vec<UniqueBlock> =
        vec![0, 1, 2, 3, 4].into_iter().map(UniqueBlock::FullBlock).collect();
    assert_eq!(manager.probe_new_blocks(&blocks_to_check), 1);

    use_blocks(&mut manager, vec![10, 11, 12]);
    assert_inactive_blocks(manual(&manager), 1, &[5]);

    use_blocks(&mut manager, vec![13]);
}

#[test]
fn vllm_backend_test_failure_on_max_capacity() {
    let mut manager = ManualKvManager::new(10, 16);

    let response = use_blocks(&mut manager, (0..10).collect());
    assert!(response, "Expected success response");
    assert_eq!(manager.current_capacity(), 10);

    let response = use_blocks(&mut manager, vec![10]);
    assert!(!response, "Expected failure response when exceeding max capacity");
}

#[test]
fn vllm_backend_test_block_lifecycle_stringent() {
    let mut manager = ManualKvManager::new(10, 16);

    use_blocks(&mut manager, (0..5).collect());
    use_blocks(&mut manager, vec![0, 1, 5, 6]);
    assert_active_blocks(
        &manager,
        &[(0, 2), (1, 2), (2, 1), (3, 1), (4, 1), (5, 1), (6, 1)],
    );

    destroy_blocks(&mut manager, vec![4]);
    deref_blocks(&mut manager, vec![0, 1, 2, 3]);
    assert_inactive_blocks(&manager, 2, &[3, 2]);
    assert_active_blocks(&manager, &[(0, 1), (1, 1), (5, 1), (6, 1)]);

    destroy_blocks(&mut manager, vec![6]);
    deref_blocks(&mut manager, vec![0, 1, 5]);
    assert_inactive_blocks(&manager, 5, &[0, 1, 2, 3, 5]);
    assert_active_blocks(&manager, &[]);

    use_blocks(&mut manager, vec![0, 1, 2, 7, 8, 9]);
    assert_inactive_blocks(&manager, 2, &[3, 5]);
    assert_active_blocks(&manager, &[(0, 1), (1, 1), (2, 1), (7, 1), (8, 1), (9, 1)]);

    let blocks_to_check: Vec<UniqueBlock> =
        vec![0, 1, 2, 3, 4].into_iter().map(UniqueBlock::FullBlock).collect();
    assert_eq!(manager.probe_new_blocks(&blocks_to_check), 1);

    use_blocks(&mut manager, vec![10, 11, 12]);
    assert_inactive_blocks(&manager, 1, &[5]);

    use_blocks(&mut manager, vec![13]);
}

/// Test G2 (DRAM) tiered cache: offload, onboard, and eviction flows.
///
/// Scenario: G1=4 blocks, G2=2 blocks
///   Phase 1: Fill G1 with blocks 0-3
///   Phase 2: Deref all → inactive, then Use blocks 4,5 → evict 0,1 → offload to G2
///   Phase 3: Re-Use block 0 → should onboard from G2 back to G1
#[test]
fn test_g2_offload_and_onboard() {
    let mut manager = ManualKvManager::new_with_event_sink(4, 16, None, 0, 2);
    manager.set_traces_enabled(true);

    // Verify G2 is configured
    assert_eq!(manager.g2_max_capacity(), 2);
    assert_eq!(manager.num_g2_inactive_blocks(), 0);

    // Phase 1: Fill G1 with blocks 0-3
    assert!(use_blocks(&mut manager, vec![0, 1, 2, 3]));
    assert_eq!(manager.num_active_blocks(), 4);
    assert_eq!(manager.num_inactive_blocks(), 0);

    // Deref all to move them to inactive pool
    deref_blocks(&mut manager, vec![0, 1, 2, 3]);
    assert_eq!(manager.num_active_blocks(), 0);
    assert_eq!(manager.num_inactive_blocks(), 4);

    // Phase 2: Use new blocks 4,5 → must evict LRU from G1 → offloads to G2
    assert!(use_blocks(&mut manager, vec![4]));
    // Block 0 (oldest LRU) should be evicted from G1 → offloaded to G2
    assert_eq!(manager.num_g2_inactive_blocks(), 1);
    assert!(manager.is_block_in_g2(0), "Block 0 should be in G2");

    assert!(use_blocks(&mut manager, vec![5]));
    // Block 1 evicted → offloaded to G2
    assert_eq!(manager.num_g2_inactive_blocks(), 2);
    assert!(manager.is_block_in_g2(1), "Block 1 should be in G2");

    // G1: active=[4,5], inactive=[2,3], G2: inactive=[0,1]
    assert_eq!(manager.num_active_blocks(), 2);
    assert_eq!(manager.num_inactive_blocks(), 2);

    // Phase 3: Re-use block 0 → should onboard from G2 back to G1
    deref_blocks(&mut manager, vec![4, 5]);
    // G1: active=[], inactive=[2,3,4,5], G2: inactive=[0,1]
    assert_eq!(manager.num_active_blocks(), 0);
    assert_eq!(manager.num_inactive_blocks(), 4);

    assert!(use_blocks(&mut manager, vec![0]));
    // Block 0 should be onboarded from G2 → G1 active.
    // G1 was at capacity so onboarding evicts block 2 from G1 inactive → offloads to G2.
    // Result: G2 goes from {0,1} → remove 0 → {1} → add 2 → {1,2}
    assert!(!manager.is_block_in_g2(0), "Block 0 should no longer be in G2");
    assert_eq!(manager.num_g2_inactive_blocks(), 2);
    assert!(manager.is_block_in_g2(1), "Block 1 should still be in G2");
    assert!(
        manager.is_block_in_g2(2),
        "Block 2 should have been offloaded to G2 during onboard"
    );
    assert!(
        manager.active_blocks().contains_key(&UniqueBlock::FullBlock(0)),
        "Block 0 should be in G1 active after onboarding"
    );

    // Phase 4: Verify G2 eviction when G2 is full
    deref_blocks(&mut manager, vec![0]);
    let g1_active = manager.num_active_blocks();
    let g1_inactive = manager.num_inactive_blocks();
    let g2_inactive = manager.num_g2_inactive_blocks();
    assert_eq!(g1_active, 0);
    // G1 should be at capacity (4 blocks): the onboard of 0 might have evicted an inactive
    assert!(g1_inactive <= 4, "G1 inactive should not exceed capacity");
    assert!(g2_inactive >= 1, "G2 should have at least 1 block");

    // What happened has been traced.
    let traces = manager.take_traces();
    let onboards: Vec<u64> = traces
        .iter()
        .filter_map(|trace| match trace {
            KvCacheTrace::Tier { event: TierEvent::G2ToG1Onboard, block_id, .. } => Some(*block_id),
            _ => None,
        })
        .collect();
    assert_eq!(onboards, vec![0]);
    let offloads: Vec<u64> = traces
        .iter()
        .filter_map(|trace| match trace {
            KvCacheTrace::Tier { event: TierEvent::G1ToG2Offload, block_id, .. } => Some(*block_id),
            _ => None,
        })
        .collect();
    assert_eq!(offloads, vec![0, 1, 2]);
    assert!(manager.take_traces().is_empty());
}

fn pair(hash: u64, local_hash: u64) -> KvCacheStoredBlockData {
    KvCacheStoredBlockData { block_hash: hash, tokens_hash: local_hash }
}

/// Folds events into the set of blocks that they tell of, and checks that each makes sense.
fn follow(manager: &mut ManualKvManager, known: &mut Vec<u64>) {
    for event in manager.take_events() {
        match event.data {
            KvCacheEventData::Stored { parent_hash, blocks } => {
                assert!(parent_hash.is_none_or(|parent| known.contains(&parent)));
                for block in blocks {
                    assert!(!known.contains(&block.block_hash));
                    known.push(block.block_hash);
                }
            }
            KvCacheEventData::Removed { block_hashes } => {
                for hash in block_hashes {
                    assert!(known.contains(&hash));
                    known.retain(|k| *k != hash);
                }
            }
        }
    }
}

#[test]
fn events_tell_what_is_stored_and_removed() {
    let sink = KvCacheEventSink::new();
    let mut manager = ManualKvManager::new_with_event_sink(3, 16, Some(sink), 5, 0);
    assert!(manager.process(&MoveBlock::Use(
        vec![UniqueBlock::FullBlock(1), UniqueBlock::FullBlock(2)],
        vec![101, 102],
        vec![],
        Some(vec![vec![7], vec![8]]),
    )));
    deref_blocks(&mut manager, vec![1, 2]);
    // Block 2 is found, blocks 3 and 4 are new: the content hashes are the last ones given.
    assert!(manager.process(&MoveBlock::Use(
        vec![
            UniqueBlock::FullBlock(2),
            UniqueBlock::FullBlock(3),
            UniqueBlock::FullBlock(4),
        ],
        vec![102, 103, 104],
        vec![],
        None,
    )));
    let events = manager.take_events();
    assert_eq!(events.len(), 3);
    for (i, event) in events.iter().enumerate() {
        assert_eq!(event.event_id, i as u64);
        assert_eq!(event.dp_rank, 5);
    }
    match &events[0].data {
        KvCacheEventData::Stored { parent_hash, blocks } => {
            assert_eq!(*parent_hash, None);
            assert_eq!(*blocks, vec![pair(1, 101), pair(2, 102)]);
        }
        _ => panic!("Expected Stored event"),
    }
    assert_eq!(events[0].token_ids, Some(vec![vec![7], vec![8]]));
    match &events[1].data {
        KvCacheEventData::Removed { block_hashes } => assert_eq!(*block_hashes, vec![1]),
        _ => panic!("Expected Removed event"),
    }
    match &events[2].data {
        KvCacheEventData::Stored { parent_hash, blocks } => {
            assert_eq!(*parent_hash, Some(2));
            assert_eq!(*blocks, vec![pair(3, 103), pair(4, 104)]);
        }
        _ => panic!("Expected Stored event"),
    }
    assert_eq!(events[2].token_ids, None);
    assert!(manager.take_events().is_empty());
}

#[test]
fn events_are_numbered_and_carry_the_rank() {
    let sink = KvCacheEventSink::new();
    let mut manager = ManualKvManager::new_with_event_sink(2, 16, Some(sink), 3, 0);
    assert!(use_blocks(&mut manager, vec![0, 1]));
    deref_blocks(&mut manager, vec![0, 1]);
    assert!(use_blocks(&mut manager, vec![2]));
    let mut events = manager.take_events();
    assert_eq!(events.len(), 3);
    // The second block has no slot; the eviction for the first one is reported all the same.
    assert!(!use_blocks(&mut manager, vec![3, 4]));
    deref_blocks(&mut manager, vec![3]);
    destroy_blocks(&mut manager, vec![2]);
    events.extend(manager.take_events());
    assert_eq!(events.len(), 5);
    for (k, event) in events.iter().enumerate() {
        assert_eq!(event.event_id, k as u64);
        assert_eq!(event.dp_rank, 3);
    }
}

/// Whoever follows the events knows the complete blocks of the first tier.
#[test]
fn events_track_the_first_tier() {
    let sink = KvCacheEventSink::new();
    let mut manager = ManualKvManager::new_with_event_sink(3, 16, Some(sink), 0, 2);
    let mut known: Vec<u64> = vec![];
    assert!(use_blocks(&mut manager, vec![1, 2, 3]));
    follow(&mut manager, &mut known);
    assert_eq!(known, vec![1, 2, 3]);
    deref_blocks(&mut manager, vec![3, 2, 1]);
    assert!(use_blocks(&mut manager, vec![1, 4]));
    follow(&mut manager, &mut known);
    assert_eq!(known, vec![1, 2, 4]);
    assert!(manager.is_block_in_g2(3));
    // Block 3 comes back from the second tier, and is reported before block 5, whose parent it is.
    deref_blocks(&mut manager, vec![4]);
    assert!(use_blocks(&mut manager, vec![1, 3, 5]));
    follow(&mut manager, &mut known);
    assert_eq!(known, vec![1, 3, 5]);
    deref_blocks(&mut manager, vec![5, 3, 1, 1]);
    assert!(use_blocks(&mut manager, vec![6]));
    destroy_blocks(&mut manager, vec![6]);
    follow(&mut manager, &mut known);
    assert_eq!(known.len(), manager.current_capacity());
    for hash in known {
        assert!(manager.get_inactive_blocks().contains(&UniqueBlock::FullBlock(hash)));
    }
}

#[test]
fn promotion_reports_a_new_block_only() {
    let sink = KvCacheEventSink::new();
    let mut manager = ManualKvManager::new_with_event_sink(4, 16, Some(sink), 0, 0);
    for uuid in [1u128, 2, 3] {
        let blocks = vec![UniqueBlock::PartialBlock(uuid)];
        assert!(manager.process(&MoveBlock::Use(blocks, vec![], vec![], None)));
    }
    assert!(manager.process(&MoveBlock::Promote(1, 10, Some(9), 110, 0, Some(vec![4, 5]))));
    let events = manager.take_events();
    assert_eq!(events.len(), 1);
    match &events[0].data {
        KvCacheEventData::Stored { parent_hash, blocks } => {
            assert_eq!(*parent_hash, Some(9));
            assert_eq!(*blocks, vec![pair(10, 110)]);
        }
        _ => panic!("Expected Stored event"),
    }
    assert_eq!(events[0].token_ids, Some(vec![vec![4, 5]]));
    // An active block gets one more reference.
    assert!(manager.process(&MoveBlock::Promote(2, 10, None, 110, 0, None)));
    assert_eq!(manager.active_blocks().get(&UniqueBlock::FullBlock(10)), Some(&2));
    // An inactive one becomes active.
    deref_blocks(&mut manager, vec![10, 10]);
    assert_eq!(manager.num_inactive_blocks(), 1);
    assert!(manager.process(&MoveBlock::Promote(3, 10, None, 110, 0, None)));
    assert_eq!(manager.num_inactive_blocks(), 0);
    assert_eq!(manager.active_blocks().get(&UniqueBlock::FullBlock(10)), Some(&1));
    assert!(manager.take_events().is_empty());
}

#[test]
fn traces_tell_the_use_of_pools() {
    let mut manager = ManualKvManager::new(2, 16);
    use_blocks(&mut manager, vec![1]);
    assert!(manager.take_traces().is_empty());
    manager.set_traces_enabled(true);
    use_blocks(&mut manager, vec![1, 2]);
    let traces = manager.take_traces();
    assert_eq!(traces.len(), 2);
    let full = PoolUsage { free: 0, active: 2, inactive: 0, total: 2 };
    match &traces[0] {
        KvCacheTrace::CacheHit {
            g1_active_block_ids,
            g1_inactive_block_ids,
            g2_block_ids,
            usage,
        } => {
            assert_eq!(*g1_active_block_ids, vec![1]);
            assert!(g1_inactive_block_ids.is_empty());
            assert!(g2_block_ids.is_empty());
            assert_eq!(*usage, full);
        }
        _ => panic!("Expected CacheHit trace"),
    }
    match &traces[1] {
        KvCacheTrace::Pool { is_store, block_ids, usage } => {
            assert!(*is_store);
            assert_eq!(*block_ids, vec![2]);
            assert_eq!(*usage, full);
        }
        _ => panic!("Expected Pool trace"),
    }
    deref_blocks(&mut manager, vec![1, 1]);
    use_blocks(&mut manager, vec![3]);
    match &manager.take_traces()[0] {
        KvCacheTrace::Pool { is_store, block_ids, usage } => {
            assert!(!*is_store);
            assert_eq!(*block_ids, vec![1]);
            assert_eq!(*usage, PoolUsage { free: 1, active: 1, inactive: 0, total: 2 });
        }
        _ => panic!("Expected Pool trace"),
    }
}

#[test]
fn g2_discards_its_least_recent_block() {
    let mut manager = ManualKvManager::new_with_event_sink(1, 16, None, 0, 1);
    manager.set_traces_enabled(true);
    for id in 1..=3 {
        assert!(use_blocks(&mut manager, vec![id]));
        deref_blocks(&mut manager, vec![id]);
    }
    assert!(manager.is_block_in_g2(2));
    assert!(!manager.is_block_in_g2(1));
    let evictions: Vec<(u64, usize)> = manager
        .take_traces()
        .iter()
        .filter_map(|trace| match trace {
            KvCacheTrace::Tier { event: TierEvent::G2Eviction, block_id, g2_inactive, .. } => {
                Some((*block_id, *g2_inactive))
            }
            _ => None,
        })
        .collect();
    assert_eq!(evictions, vec![(1, 1)]);
    // A block of the second tier is known, and can be found again.
    assert_eq!(manager.probe_new_blocks(&[UniqueBlock::FullBlock(2), UniqueBlock::FullBlock(1)]), 1);
    assert!(manager.is_block_cached(2, None));
    assert!(!manager.is_block_cached(1, None));
}

#[test]
fn a_full_first_tier_leaves_a_block_in_the_second() {
    let mut manager = ManualKvManager::new_with_event_sink(1, 16, None, 0, 1);
    assert!(use_blocks(&mut manager, vec![1]));
    deref_blocks(&mut manager, vec![1]);
    assert!(use_blocks(&mut manager, vec![2]));
    assert!(manager.is_block_in_g2(1));
    assert!(!use_blocks(&mut manager, vec![1]));
    assert!(manager.is_block_in_g2(1));
    assert_eq!(manager.num_active_blocks(), 1);
}

/// What is used is given back by as many derefs; a deref of a block that is not active is ignored.
#[test]
fn deref_undoes_use() {
    let mut manager = ManualKvManager::new(4, 16);
    use_blocks(&mut manager, vec![1, 2]);
    let before: Vec<Option<usize>> = [1, 2, 3]
        .iter()
        .map(|id| manager.active_blocks().get(&UniqueBlock::FullBlock(*id)).copied())
        .collect();
    use_blocks(&mut manager, vec![2, 3, 3]);
    deref_blocks(&mut manager, vec![2, 3, 3]);
    let after: Vec<Option<usize>> = [1, 2, 3]
        .iter()
        .map(|id| manager.active_blocks().get(&UniqueBlock::FullBlock(*id)).copied())
        .collect();
    assert_eq!(before, after);
    deref_blocks(&mut manager, vec![3, 4]);
    assert_eq!(manager.get_inactive_blocks(), vec![UniqueBlock::FullBlock(3)]);
    assert_eq!(manager.get_active_blocks().len(), 2);
}

/// A `Use` succeeds if and only if the blocks in use fit; what was taken before a failure is kept.
#[test]
fn use_succeeds_if_the_blocks_fit() {
    let mut manager = ManualKvManager::new(3, 16);
    assert!(use_blocks(&mut manager, vec![1, 2]));
    deref_blocks(&mut manager, vec![2]);
    assert!(use_blocks(&mut manager, vec![1, 1, 2, 3]));
    assert_active_blocks(&manager, &[(1, 3), (2, 1), (3, 1)]);
    deref_blocks(&mut manager, vec![3]);
    assert!(!use_blocks(&mut manager, vec![4, 5]));
    assert_active_blocks(&manager, &[(1, 3), (2, 1), (4, 1)]);
}

#[test]
fn prefill_cost_counts_what_is_not_cached() {
    let mut manager = ManualKvManager::new(10, 4);
    let first = ActiveSequence::new((0..10).collect(), 4, Some(4), true, false);
    let cost = manager.get_prefill_cost(&first);
    assert_eq!(cost.new_blocks, 3);
    assert_eq!(cost.new_tokens, 10);
    assert!(manager.process(first.creation_signal().as_ref().unwrap()));

    // The complete blocks are shared, the partial one is not.
    let same = ActiveSequence::new((0..10).collect(), 4, Some(4), true, false);
    let cost = manager.get_prefill_cost(&same);
    assert_eq!(cost.new_blocks, 1);
    assert_eq!(cost.new_tokens, 2);

    // A different first block leaves nothing to share.
    let other = ActiveSequence::new((1..11).collect(), 4, Some(4), true, false);
    assert_eq!(manager.get_prefill_cost(&other).new_tokens, 10);

    // Only the common prefix counts.
    let mut tokens: Vec<u32> = (0..8).collect();
    tokens[5] = 99;
    let partly = ActiveSequence::new(tokens, 4, Some(4), true, false);
    let cost = manager.get_prefill_cost(&partly);
    assert_eq!(cost.new_blocks, 1);
    assert_eq!(cost.new_tokens, 4);
}

#[test]
fn generated_blocks_do_not_lower_the_cost_below_zero() {
    let mut manager = ManualKvManager::new(10, 2);
    let mut seq = ActiveSequence::new(vec![1, 2], 9, Some(2), true, false);
    for token in 3..=5 {
        seq.push(token);
    }
    seq.reset_with_signal();
    assert!(manager.process(seq.creation_signal().as_ref().unwrap()));
    let cost = manager.get_prefill_cost(&seq);
    assert_eq!(cost.new_blocks, 1);
    assert_eq!(cost.new_tokens, 0);
}

/// A manual manager stands in for a logical one here.
#[test]
fn the_backend_decides_who_processes() {
    let mut manager: Manager = KvManager::new_with_event_sink(
        7,
        16,
        None,
        3,
        KvManagerBackend::KvbmLogical,
        MockerEvictionBackend::Lru,
        9,
        |max_capacity, block_size, dp_rank, sink, eviction| {
            assert_eq!(dp_rank, 3);
            assert_eq!(eviction, MockerEvictionBackend::Lru);
            ManualKvManager::new_with_event_sink(max_capacity, block_size, sink, dp_rank, 5)
        },
    );
    assert!(matches!(manager, KvManager::KvbmLogical(_)));
    assert_eq!(manager.max_capacity(), 7);
    assert_eq!(manager.block_size(), 16);
    assert!(use_blocks(&mut manager, vec![1, 2]));
    deref_blocks(&mut manager, vec![2]);
    assert_eq!(manager.num_active_blocks(), 1);
    assert_eq!(manager.num_inactive_blocks(), 1);
    assert_eq!(manager.current_capacity(), 2);
    let blocks = [UniqueBlock::FullBlock(1), UniqueBlock::FullBlock(3)];
    assert_eq!(manager.probe_new_blocks(&blocks), 1);
    assert!(manager.is_block_cached(2, Some(2)));
    assert!(!manager.is_block_cached(3, None));
    // Whatever it is, a logical manager counts as one without a second tier.
    assert!(use_blocks(&mut manager, (3..9).collect()));
    assert_eq!(manager.g2_max_capacity(), 0);
    assert_eq!(manager.num_g2_inactive_blocks(), 0);
    assert!(!manager.is_block_in_g2(2));
    let KvManager::KvbmLogical(inner) = &manager else {
        panic!("Expected logical backend");
    };
    assert!(inner.is_block_in_g2(2));

    let manager: Manager = KvManager::new_with_event_sink(
        7,
        16,
        None,
        3,
        KvManagerBackend::Manual,
        MockerEvictionBackend::Lineage,
        9,
        |_, _, _, _, _| panic!("No logical manager is needed"),
    );
    assert!(matches!(manager, KvManager::Manual(_)));
    assert_eq!(manager.g2_max_capacity(), 9);
}
