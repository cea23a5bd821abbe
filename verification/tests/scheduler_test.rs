use mocker::common::protocols::{DirectRequest, MoveBlock, PrefillCost, UniqueBlock};
use mocker::common::sequence::ActiveSequence;
use mocker::kv_manager::vllm_backend::ManualKvManager;
use mocker::kv_manager::{KvBackend, KvManager};
use mocker::scheduler::decode::{
    decode_load, decode_step, decode_step_drawn, finish_decode, start_decode, DecodeOutcome,
};
use mocker::scheduler::prefill::{prefill_next, simulate_prefill, PrefillError};
use mocker::scheduler::schedule::{try_schedule, ScheduleLimits};
use mocker::scheduler::signals::process_signals;
use mocker::scheduler::state::{can_serve, SchedulerState};
use mocker::scheduler::summary::{
    sort_block_read_summaries, BlockOrigin, DecodeBlockReadSummary, DecodeReadReport,
};
use mocker::scheduler::{
    forward_pass_metrics, receive_action, MockerMetrics, ReceiveAction, Request,
};
use std::collections::HashMap;

fn limits(block_budget: usize) -> ScheduleLimits {
    ScheduleLimits {
        block_budget,
        max_num_batched_tokens: None,
        max_num_seqs: None,
        enable_chunked_prefill: false,
        enable_prefix_caching: true,
        emit_token_ids: false,
    }
}

fn request(tokens: Vec<u32>, max_output_tokens: usize, uuid: Option<u128>) -> DirectRequest {
    DirectRequest { tokens, max_output_tokens, uuid, dp_rank: 0 }
}

/// One pass over all requests; returns the ids for which a token was generated.
fn pass<B: KvBackend>(
    state: &mut SchedulerState,
    kv_manager: &mut B,
    limits: &ScheduleLimits,
) -> Vec<u128> {
    try_schedule(state, kv_manager, limits);
    if state.num_prefill() > 0 {
        assert!(limits.max_num_batched_tokens.is_none_or(|max| state.active_tokens() <= max));
    }
    simulate_prefill(state, kv_manager).unwrap();
    let mut generated = vec![];
    for uuid in start_decode(state) {
        assert!(state.can_generate(uuid));
        match decode_step(state, kv_manager, uuid) {
            DecodeOutcome::Skipped => {}
            DecodeOutcome::Generated { completed } => {
                generated.push(uuid);
                finish_decode(state, kv_manager, uuid, completed, false);
            }
            DecodeOutcome::Preempted { uuid } => assert!(state.contains(uuid)),
            DecodeOutcome::BlockInUse => panic!("Random ids should not collide"),
        }
    }
    generated
}

/// Runs 200 requests of 1000 tokens with 100 tokens to generate each on 500 blocks.
fn token_generation_pattern(
    use_shared_tokens: bool,
    enable_prefix_caching: bool,
    enable_chunked_prefill: bool,
) {
    let mut kv_manager: KvManager<ManualKvManager> = KvManager::new(500, 64);
    let mut state = SchedulerState::new(Some(8192));
    let limits = ScheduleLimits {
        block_budget: 495,
        max_num_batched_tokens: Some(8192),
        max_num_seqs: Some(256),
        enable_chunked_prefill,
        enable_prefix_caching,
        emit_token_ids: false,
    };
    for i in 0..200u32 {
        let tokens: Vec<u32> = (0..1000u32)
            .map(|k| if use_shared_tokens && k < 500 { k } else { i * 1000 + k })
            .collect();
        state.receive(request(tokens, 100, None));
    }
    let mut received: HashMap<u128, usize> = HashMap::new();
    let mut passes = 0;
    while !state.is_empty() {
        for uuid in pass(&mut state, &mut kv_manager, &limits) {
            *received.entry(uuid).or_insert(0) += 1;
        }
        passes += 1;
        assert!(passes < 100_000, "No progress");
    }
    assert_eq!(received.len(), 200);
    assert!(received.values().all(|n| *n == 100));
    // The scheduler is idle: no block is in use.
    let metrics = forward_pass_metrics(&kv_manager, 0);
    assert_eq!(metrics, MockerMetrics { dp_rank: 0, active_decode_blocks: 0 });
}

#[test]
fn test_scheduler_token_generation_patterns() {
    for use_shared_tokens in [false, true] {
        for enable_prefix_caching in [false, true] {
            for enable_chunked_prefill in [false, true] {
                token_generation_pattern(
                    use_shared_tokens,
                    enable_prefix_caching,
                    enable_chunked_prefill,
                );
            }
        }
    }
}

#[test]
fn test_cache_hit_rate_with_identical_requests() {
    let mut kv_manager = ManualKvManager::new(100, 64);
    let mut state = SchedulerState::new(None);
    let limits = limits(99);
    let tokens: Vec<u32> = (0..65).collect();
    for i in 0..10 {
        state.receive(request(tokens.clone(), 10, None));
        let scheduled = try_schedule(&mut state, &kv_manager, &limits);
        assert_eq!(scheduled.len(), 1);
        assert_eq!(scheduled[0].total_tokens, 65);
        // The first block is computed once.
        assert_eq!(scheduled[0].new_tokens, if i == 0 { 65 } else { 1 });
        pass(&mut state, &mut kv_manager, &limits);
    }
    while !state.is_empty() {
        pass(&mut state, &mut kv_manager, &limits);
    }
    assert_eq!(kv_manager.num_active_blocks(), 0);
    assert_eq!(kv_manager.num_inactive_blocks(), 1);
}

/// A request whose tokens cannot be sent gives up its blocks.
#[test]
fn test_receiver_drop_cleans_up_resources() {
    let mut kv_manager = ManualKvManager::new(10, 64);
    let mut state = SchedulerState::new(None);
    let limits = limits(9);
    state.receive(request((0..256).collect(), 200, Some(1)));
    for _ in 0..129 {
        assert_eq!(pass(&mut state, &mut kv_manager, &limits), vec![1]);
    }
    assert_eq!(kv_manager.num_active_blocks(), 7);
    assert_eq!(start_decode(&mut state), vec![1]);
    let outcome = decode_step(&mut state, &mut kv_manager, 1);
    assert_eq!(outcome, DecodeOutcome::Generated { completed: false });
    let report = finish_decode(&mut state, &mut kv_manager, 1, false, true).unwrap();
    assert_eq!(report.uuid, 1);
    assert_eq!(report.block_size, 64);
    assert_eq!(report.prompt_full_blocks, 4);
    assert_eq!(report.decode_full_blocks, 2);
    // 130 steps read the prompt, 66 and 2 steps the blocks completed on the way.
    assert_eq!(report.total_decode_reads, 4 * 130 + 66 + 2);
    let counts: Vec<usize> = report.per_block_reads.iter().map(|b| b.read_count).collect();
    assert_eq!(counts, vec![130, 130, 130, 130, 66, 2]);
    assert!(state.is_empty());
    assert_eq!(state.active_tokens(), 0);
    assert_eq!(kv_manager.num_active_blocks(), 0);
}

#[test]
fn the_oldest_request_is_preempted_and_waits_last() {
    let mut kv_manager = ManualKvManager::new(4, 2);
    let mut state = SchedulerState::new(None);
    let limits = limits(4);
    state.receive(request(vec![1, 2, 3], 9, Some(1)));
    state.receive(request(vec![4, 5, 6], 9, Some(2)));
    state.receive(request(vec![7], 9, Some(3)));
    let scheduled: Vec<u128> =
        try_schedule(&mut state, &kv_manager, &limits).iter().map(|s| s.uuid).collect();
    assert_eq!(scheduled, vec![1, 2]);
    assert_eq!(state.num_waiting(), 1);
    assert_eq!(simulate_prefill(&mut state, &mut kv_manager).unwrap().len(), 2);
    assert_eq!(kv_manager.num_active_blocks(), 4);
    // The first tokens fill the blocks.
    for uuid in start_decode(&mut state) {
        let outcome = decode_step(&mut state, &mut kv_manager, uuid);
        assert_eq!(outcome, DecodeOutcome::Generated { completed: false });
        assert!(finish_decode(&mut state, &mut kv_manager, uuid, false, false).is_none());
    }
    // For the next one there is no slot: the oldest request has to go.
    assert_eq!(start_decode(&mut state), vec![1, 2]);
    let outcome = decode_step(&mut state, &mut kv_manager, 1);
    assert_eq!(outcome, DecodeOutcome::Preempted { uuid: 1 });
    assert_eq!(state.active_tokens(), 1);
    assert_eq!(state.decode_keys(), vec![2]);
    assert_eq!(decode_step(&mut state, &mut kv_manager, 1), DecodeOutcome::Skipped);
    let (uuid, _) = state.next().unwrap();
    assert_eq!(uuid, 3);
    let (uuid, waiting) = state.next().unwrap();
    assert_eq!(uuid, 1);
    match waiting {
        Request::Active(sequence) => {
            // It keeps the token that it has generated, and asks for its blocks again.
            assert_eq!(sequence.len(), 4);
            assert_eq!(sequence.generated_tokens(), 1);
            match sequence.creation_signal() {
                Some(MoveBlock::Use(blocks, ..)) => assert_eq!(blocks, sequence.unique_blocks()),
                _ => panic!("Expected Use signal"),
            }
        }
        Request::Direct(_) => panic!("Expected a sequence"),
    }
    assert!(state.next().is_none());
}

#[test]
fn preempt_needs_a_running_request() {
    let mut state = SchedulerState::new(None);
    assert!(state.preempt().is_none());
}

#[test]
fn prompts_are_computed_in_chunks() {
    let mut kv_manager = ManualKvManager::new(100, 4);
    let mut state = SchedulerState::new(Some(8));
    let mut limits = limits(99);
    limits.max_num_batched_tokens = Some(8);
    limits.enable_chunked_prefill = true;
    state.receive(request((0..6).collect(), 2, Some(1)));
    state.receive(request((100..106).collect(), 2, Some(2)));
    state.receive(request((200..206).collect(), 2, Some(3)));
    // With chunks, the tokens of the last request need not fit.
    assert_eq!(try_schedule(&mut state, &kv_manager, &limits).len(), 2);
    assert_eq!(state.waiting_tokens(), 12);
    let steps = simulate_prefill(&mut state, &mut kv_manager).unwrap();
    assert_eq!(steps.len(), 2);
    assert_eq!(steps[0].uuid, 1);
    assert_eq!(steps[0].chunk, None);
    assert_eq!(steps[0].prefill_cost, PrefillCost { new_blocks: 2, new_tokens: 6 });
    let reads = steps[0].reads.as_ref().unwrap();
    assert_eq!(reads.total_full_blocks, 1);
    assert_eq!(reads.cached_blocks, 0);
    assert_eq!(reads.new_blocks, 2);
    assert_eq!(reads.total_prefill_reads, 0);
    assert_eq!(steps[1].uuid, 2);
    assert_eq!(steps[1].chunk, Some(2));
    assert!(steps[1].reads.is_none());
    assert_eq!(state.active_tokens(), 8);
    assert_eq!(state.waiting_tokens(), 4);
    // The blocks of the entire sequence are provided with the first chunk.
    assert_eq!(kv_manager.num_active_blocks(), 4);
    assert_eq!(state.decode_keys(), vec![1]);
    assert_eq!(start_decode(&mut state), vec![1]);
    let step = prefill_next(&mut state, &mut kv_manager).unwrap().unwrap();
    assert_eq!(step.uuid, 2);
    assert_eq!(step.chunk, None);
    assert_eq!(step.prefill_cost.new_tokens, 4);
    assert_eq!(kv_manager.num_active_blocks(), 4);
    assert!(prefill_next(&mut state, &mut kv_manager).unwrap().is_none());
    assert_eq!(state.decode_keys(), vec![1, 2]);
}

#[test]
fn a_prompt_that_is_left_has_its_blocks() {
    let mut kv_manager = ManualKvManager::new(5, 4);
    let mut state = SchedulerState::new(Some(8));
    let mut limits = limits(5);
    limits.max_num_batched_tokens = Some(8);
    limits.enable_chunked_prefill = true;
    state.receive(request((0..6).collect(), 2, Some(1)));
    state.receive(request((100..106).collect(), 2, Some(2)));
    assert_eq!(pass(&mut state, &mut kv_manager, &limits), vec![1]);
    assert_eq!(state.num_prefill(), 1);
    assert_eq!(kv_manager.num_active_blocks(), 4);
    // One block is free: enough for the new request, as the prompt that is left needs no more.
    state.receive(request((200..204).collect(), 2, Some(3)));
    assert_eq!(try_schedule(&mut state, &kv_manager, &limits).len(), 1);
    assert_eq!(state.num_prefill(), 2);
    let steps = simulate_prefill(&mut state, &mut kv_manager).unwrap();
    assert_eq!(steps.len(), 2);
    assert_eq!((steps[0].uuid, steps[0].chunk), (2, None));
    assert_eq!((steps[1].uuid, steps[1].chunk), (3, Some(3)));
    // Again the last prompt is the only one left, and has its block.
    assert_eq!(state.num_prefill(), 1);
    assert_eq!(state.waiting_tokens(), 1);
    assert_eq!(kv_manager.num_active_blocks(), 5);
}

#[test]
fn a_decode_pass_puts_each_request_in_its_place() {
    let mut kv_manager = ManualKvManager::new(4, 4);
    let mut state = SchedulerState::new(None);
    state.receive(request((0..4).collect(), 5, Some(1)));
    state.receive(request(vec![10, 11], 1, Some(2)));
    state.receive(request(vec![20, 21], 5, Some(3)));
    state.receive(request(vec![30, 31], 5, Some(4)));
    assert_eq!(try_schedule(&mut state, &kv_manager, &limits(4)).len(), 4);
    simulate_prefill(&mut state, &mut kv_manager).unwrap();
    let mut outcomes = vec![];
    for uuid in start_decode(&mut state) {
        let outcome = decode_step(&mut state, &mut kv_manager, uuid);
        if let DecodeOutcome::Generated { completed } = outcome {
            finish_decode(&mut state, &mut kv_manager, uuid, completed, uuid == 4);
        }
        outcomes.push(outcome);
    }
    assert_eq!(
        outcomes,
        vec![
            DecodeOutcome::Preempted { uuid: 1 },
            DecodeOutcome::Generated { completed: true },
            DecodeOutcome::Generated { completed: false },
            DecodeOutcome::Generated { completed: false },
        ]
    );
    assert_eq!(state.decode_keys(), vec![3]);
    assert_eq!(state.active_tokens(), 1);
    assert_eq!(state.num_waiting(), 1);
    assert!(state.contains(1) && !state.contains(2) && state.contains(3) && !state.contains(4));
    assert_eq!(state.running(3).unwrap().generated_tokens(), 1);
    assert_eq!(kv_manager.num_active_blocks(), 1);
}

#[test]
fn cached_blocks_are_read_in_the_prefill() {
    let mut kv_manager = ManualKvManager::new(100, 4);
    let mut state = SchedulerState::new(None);
    let limits = limits(99);
    state.receive(request((0..8).collect(), 5, Some(1)));
    pass(&mut state, &mut kv_manager, &limits);
    state.receive(request((0..12).collect(), 5, Some(2)));
    assert_eq!(try_schedule(&mut state, &kv_manager, &limits)[0].new_tokens, 4);
    let steps = simulate_prefill(&mut state, &mut kv_manager).unwrap();
    let reads = steps[0].reads.as_ref().unwrap();
    assert_eq!(reads.uuid, 2);
    assert_eq!(reads.total_full_blocks, 3);
    assert_eq!(reads.cached_blocks, 2);
    assert_eq!(reads.new_blocks, 1);
    assert_eq!(reads.total_prefill_reads, 2);
    let origins: Vec<&str> =
        reads.per_block_reads.iter().map(|b| b.block_origin.as_str()).collect();
    assert_eq!(origins, vec!["cached_prompt", "cached_prompt", "new_prompt"]);
}

#[test]
fn prefill_without_slots_is_an_error() {
    let mut kv_manager = ManualKvManager::new(2, 4);
    let mut state = SchedulerState::new(None);
    // The budget is beyond the capacity.
    state.receive(request((0..12).collect(), 5, Some(1)));
    assert_eq!(try_schedule(&mut state, &kv_manager, &limits(50)).len(), 1);
    let result = simulate_prefill(&mut state, &mut kv_manager);
    assert!(matches!(result, Err(PrefillError::OutOfBlocks)));
}

#[test]
fn prefill_with_a_known_partial_block_is_an_error() {
    let mut kv_manager = ManualKvManager::new(9, 4);
    let mut state = SchedulerState::new(None);
    let sequence = ActiveSequence::new(vec![1, 2], 3, Some(4), true, false);
    let partial = sequence.unique_blocks()[0];
    let taken = MoveBlock::Use(vec![partial], vec![], vec![], None);
    assert!(kv_manager.process(&taken));
    state.move_to_prefill(5, sequence, PrefillCost { new_blocks: 1, new_tokens: 2 });
    let result = prefill_next(&mut state, &mut kv_manager);
    assert!(matches!(result, Err(PrefillError::BlockInUse)));
}

#[test]
fn a_block_id_in_use_is_not_drawn_again() {
    let mut kv_manager = ManualKvManager::new(9, 2);
    let mut state = SchedulerState::new(None);
    let limits = limits(9);
    state.receive(request(vec![1, 2], 3, Some(1)));
    state.receive(request(vec![3, 4], 3, Some(2)));
    try_schedule(&mut state, &kv_manager, &limits);
    simulate_prefill(&mut state, &mut kv_manager).unwrap();
    start_decode(&mut state);
    let block = UniqueBlock::PartialBlock(7);
    let outcome = decode_step_drawn(&mut state, &mut kv_manager, 1, 9, 0, block);
    assert_eq!(outcome, DecodeOutcome::Generated { completed: false });
    finish_decode(&mut state, &mut kv_manager, 1, false, false);
    let outcome = decode_step_drawn(&mut state, &mut kv_manager, 2, 9, 0, block);
    assert_eq!(outcome, DecodeOutcome::BlockInUse);
    assert_eq!(state.running(2).unwrap().len(), 2);
    let block = UniqueBlock::PartialBlock(8);
    let outcome = decode_step_drawn(&mut state, &mut kv_manager, 2, 9, 0, block);
    assert_eq!(outcome, DecodeOutcome::Generated { completed: false });
    assert_eq!(state.running(2).unwrap().len(), 3);
    assert!(state.running(3).is_none());
}

#[test]
fn the_last_token_completes_a_request() {
    let mut kv_manager = ManualKvManager::new(9, 2);
    let mut state = SchedulerState::new(None);
    state.receive(request(vec![1, 2], 1, Some(1)));
    try_schedule(&mut state, &kv_manager, &limits(9));
    simulate_prefill(&mut state, &mut kv_manager).unwrap();
    start_decode(&mut state);
    let outcome = decode_step(&mut state, &mut kv_manager, 1);
    assert_eq!(outcome, DecodeOutcome::Generated { completed: true });
    assert_eq!(kv_manager.num_active_blocks(), 0);
    let report = finish_decode(&mut state, &mut kv_manager, 1, true, false).unwrap();
    assert_eq!(report.total_decode_reads, 1);
    assert_eq!(report.decode_full_blocks, 0);
    assert_eq!(report.per_block_reads.len(), 1);
    assert_eq!(report.per_block_reads[0].block_origin, BlockOrigin::Prompt);
    assert!(!state.contains(1));
}

#[test]
fn budgets_limit_scheduling() {
    let kv_manager = ManualKvManager::new(100, 4);
    let fill = |state: &mut SchedulerState| {
        for uuid in 1..=5u128 {
            let first = uuid as u32 * 100;
            state.receive(request((first..first + 6).collect(), 2, Some(uuid)));
        }
    };

    // Blocks: two for each request.
    let mut state = SchedulerState::new(None);
    fill(&mut state);
    assert_eq!(try_schedule(&mut state, &kv_manager, &limits(7)).len(), 3);
    assert_eq!(state.num_waiting(), 2);
    assert_eq!(state.num_prefill(), 3);
    assert_eq!(state.num_active_requests(), 3);
    assert_eq!(state.waiting_tokens(), 18);
    // The request that was refused is first in line, as a sequence.
    let (uuid, refused) = state.next().unwrap();
    assert_eq!(uuid, 4);
    assert!(matches!(refused, Request::Active(_)));
    state.first_in_line(uuid, refused);
    assert_eq!(state.next().unwrap().0, 4);

    // Tokens.
    let mut state = SchedulerState::new(Some(13));
    fill(&mut state);
    let mut by_tokens = limits(100);
    by_tokens.max_num_batched_tokens = Some(13);
    assert_eq!(try_schedule(&mut state, &kv_manager, &by_tokens).len(), 2);
    let mut state = SchedulerState::new(Some(13));
    fill(&mut state);
    by_tokens.enable_chunked_prefill = true;
    assert_eq!(try_schedule(&mut state, &kv_manager, &by_tokens).len(), 3);

    // Requests.
    let mut state = SchedulerState::new(None);
    fill(&mut state);
    let mut by_requests = limits(100);
    by_requests.max_num_seqs = Some(4);
    assert_eq!(try_schedule(&mut state, &kv_manager, &by_requests).len(), 4);
    assert_eq!(try_schedule(&mut state, &kv_manager, &by_requests).len(), 0);
    by_requests.max_num_seqs = None;
    assert_eq!(try_schedule(&mut state, &kv_manager, &by_requests).len(), 1);
    assert_eq!(state.num_waiting(), 0);
}

#[test]
fn requests_get_ids() {
    let mut state = SchedulerState::new(None);
    assert!(state.is_empty());
    assert_eq!(state.receive(request(vec![1], 1, Some(7))), 7);
    let drawn = state.receive(request(vec![1], 1, None));
    let other = state.receive(request(vec![1], 1, None));
    assert_ne!(drawn, other);
    assert!(state.contains(drawn));
    assert_eq!(state.num_waiting(), 3);
    assert_eq!(state.waiting_keys(), vec![7, drawn, other]);
    assert_eq!(state.num_tokens(7), Some(1));
    assert_eq!(state.num_tokens(8), None);
    assert!(!state.is_empty());
    assert_eq!(state.next().unwrap().0, 7);
    assert_eq!(state.next().unwrap().0, drawn);
}

#[test]
fn a_known_id_replaces_its_request() {
    let mut state = SchedulerState::new(None);
    assert_eq!(state.receive(request(vec![1], 1, Some(7))), 7);
    assert_eq!(state.receive(request(vec![2, 3], 4, Some(7))), 7);
    // The id is queued twice, for the second request.
    assert_eq!(state.num_waiting(), 2);
    match state.next() {
        Some((7, Request::Direct(request))) => {
            assert_eq!(request.tokens, vec![2, 3]);
            assert_eq!(request.max_output_tokens, 4);
        }
        _ => panic!("Expected the second request"),
    }
    assert!(!state.contains(7));
    assert_eq!(state.num_waiting(), 1);
}

#[test]
fn a_known_id_can_be_refused() {
    let mut state = SchedulerState::new(None);
    assert_eq!(state.receive_new(request(vec![1], 1, Some(7))), Some(7));
    assert_eq!(state.receive_new(request(vec![2, 3], 4, Some(7))), None);
    assert_eq!(state.num_waiting(), 1);
    assert!(state.receive_new(request(vec![1], 1, None)).is_some());
    match state.next() {
        Some((7, Request::Direct(request))) => assert_eq!(request.tokens, vec![1]),
        _ => panic!("Expected the first request"),
    }
}

#[test]
fn requests_that_cannot_be_served_are_told_apart() {
    assert!(can_serve(&request(vec![1], 1, None), 2));
    assert!(can_serve(&request(vec![], usize::MAX, None), 2));
    assert!(!can_serve(&request(vec![1], 0, None), 2));
    // The place of a block in its sequence has 24 bits.
    let long = vec![0; 2 * ((1 << 24) + 1)];
    assert!(!can_serve(&request(long, 1, None), 2));
}

#[test]
fn a_request_without_end_goes_on() {
    let mut kv_manager = ManualKvManager::new(9, 2);
    let mut state = SchedulerState::new(None);
    state.receive(request(vec![1, 2], usize::MAX, Some(1)));
    for _ in 0..5 {
        assert!(state.can_generate(1));
        assert_eq!(pass(&mut state, &mut kv_manager, &limits(9)), vec![1]);
    }
    assert_eq!(state.running(1).unwrap().generated_tokens(), 5);
    assert!(state.running(1).unwrap().has_room());
    assert!(state.can_generate(2));
}

#[test]
fn what_to_do_about_new_requests() {
    let mut state = SchedulerState::new(None);
    assert_eq!(receive_action(&state, true), ReceiveAction::Stop);
    assert_eq!(receive_action(&state, false), ReceiveAction::AwaitRequest);
    state.receive(request(vec![1], 1, None));
    assert_eq!(receive_action(&state, true), ReceiveAction::Stop);
    assert_eq!(receive_action(&state, false), ReceiveAction::Drain);
    assert_eq!(
        MockerMetrics::default(),
        MockerMetrics { dp_rank: 0, active_decode_blocks: 0 }
    );
}

#[test]
fn the_load_of_a_decode_pass() {
    let mut kv_manager = ManualKvManager::new(100, 4);
    let mut state = SchedulerState::new(None);
    let load = decode_load(&state, &kv_manager);
    assert_eq!(load.active_kv_tokens, 0);
    assert_eq!(load.context_length, 0);
    state.receive(request((0..6).collect(), 5, Some(1)));
    state.receive(request((100..109).collect(), 5, Some(2)));
    try_schedule(&mut state, &kv_manager, &limits(99));
    simulate_prefill(&mut state, &mut kv_manager).unwrap();
    let load = decode_load(&state, &kv_manager);
    assert_eq!(load.active_kv_tokens, 20);
    assert_eq!(load.context_length, 7);
    assert_eq!(forward_pass_metrics(&kv_manager, 3).active_decode_blocks, 5);
}

#[test]
fn signals_stop_at_the_first_failure() {
    let mut kv_manager = ManualKvManager::new(2, 4);
    let full = |id: u64| MoveBlock::Use(vec![UniqueBlock::FullBlock(id)], vec![id], vec![], None);
    let partial =
        |id: u128| MoveBlock::Use(vec![UniqueBlock::PartialBlock(id)], vec![], vec![], None);
    assert!(process_signals(&mut kv_manager, &vec![full(1), partial(1)]));
    // A single generation block may be refused; the signals before it have been processed.
    let deref = MoveBlock::Deref(vec![UniqueBlock::FullBlock(2)]);
    assert!(!process_signals(&mut kv_manager, &vec![full(1), partial(2), deref]));
    assert_eq!(kv_manager.active_blocks().get(&UniqueBlock::FullBlock(1)), Some(&2));
    assert!(!kv_manager.active_blocks().contains_key(&UniqueBlock::PartialBlock(2)));
}

#[test]
fn signals_need_no_content_hashes_without_a_sink() {
    let mut kv_manager = ManualKvManager::new(2, 4);
    let bare = MoveBlock::Use(
        vec![UniqueBlock::FullBlock(1), UniqueBlock::FullBlock(2)],
        vec![],
        vec![],
        None,
    );
    assert!(process_signals(&mut kv_manager, &vec![bare]));
    assert_eq!(kv_manager.num_active_blocks(), 2);
}

fn summary(block_id: u64, read_count: usize, block_origin: BlockOrigin) -> DecodeBlockReadSummary {
    DecodeBlockReadSummary { block_id, read_count, block_origin }
}

#[test]
fn summaries_are_sorted() {
    let mut blocks = vec![
        summary(5, 1, BlockOrigin::Prompt),
        summary(4, 1, BlockOrigin::Decode),
        summary(9, 2, BlockOrigin::Prompt),
        summary(3, 1, BlockOrigin::Prompt),
        summary(1, 0, BlockOrigin::CachedPrompt),
        summary(2, 1, BlockOrigin::NewPrompt),
        summary(2, 1, BlockOrigin::CachedPrompt),
    ];
    sort_block_read_summaries(&mut blocks);
    let order: Vec<(usize, &str, u64)> =
        blocks.iter().map(|b| (b.read_count, b.block_origin.as_str(), b.block_id)).collect();
    assert_eq!(
        order,
        vec![
            (2, "prompt", 9),
            (1, "cached_prompt", 2),
            (1, "decode", 4),
            (1, "new_prompt", 2),
            (1, "prompt", 3),
            (1, "prompt", 5),
            (0, "cached_prompt", 1),
        ]
    );
    // The order of origins is that of their labels.
    let labels: Vec<&str> = [
        BlockOrigin::CachedPrompt,
        BlockOrigin::Decode,
        BlockOrigin::NewPrompt,
        BlockOrigin::Prompt,
    ]
    .iter()
    .map(|origin| origin.as_str())
    .collect();
    assert!(labels.windows(2).all(|pair| pair[0] < pair[1]));
}

#[test]
fn decode_reports_count_all_reads() {
    let reads: HashMap<u64, usize> = HashMap::from([(1, 5), (2, 3), (8, 4)]);
    let report = DecodeReadReport::new(6, 4, 7, vec![1, 2, 3], reads);
    assert_eq!(report.prompt_full_blocks, 1);
    assert_eq!(report.decode_full_blocks, 2);
    assert_eq!(report.total_decode_reads, 12);
    assert_eq!(
        report.per_block_reads,
        vec![
            summary(1, 5, BlockOrigin::Prompt),
            summary(2, 3, BlockOrigin::Decode),
            summary(3, 0, BlockOrigin::Decode),
        ]
    );
}
