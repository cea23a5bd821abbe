//! Scheduler for LLM Request Management
//!
//! This module implements a scheduler that handles three main functions:
//! 1. Receiving new requests and placing them in the waiting queue
//! 2. Scheduling waiting requests against available KV cache resources
//! 3. Simulating the execution of running requests
//!
//! ## Scheduling Process
//! The scheduler uses a watermark-based approach to determine if there's sufficient KV cache space
//! for new requests. It also enforces a batched tokens budget to prevent oversubscription of
//! computational resources. Only requests that can be allocated these resources are moved from
//! waiting to running state.
//!
//! ## Request Simulation
//! The simulation models two key phases:
//! - Prefill phase: the prompts of scheduled requests are computed, in parts if need be
//! - Decode phase: one token is generated for each running request
//!
//! How long a phase takes is up to the caller, from the costs that each step reports.
//!
//! ## Resource Management
//! The scheduler communicates with the KV manager through MoveBlock signals at each stage of
//! request processing. When resources become constrained, it employs an LRU-based preemption
//! strategy where the oldest running request is evicted and placed at the back of the waiting queue
//! to be rescheduled later.

use vstd::prelude::*;
use crate::kv_manager::KvBackend;
use crate::scheduler::model::RequestState;
use crate::scheduler::state::SchedulerState;

pub mod budgets;
pub mod chunks;
pub mod decode;
pub mod laws;
pub mod ledger;
pub mod load;
pub mod model;
pub mod moves;
pub mod order;
pub mod output;
pub mod passes;
pub mod prefill;
pub mod queues;
pub mod reports;
pub mod schedule;
pub mod signals;
pub mod slots;
pub mod state;
pub mod summary;
pub mod turns;

pub use state::Request;

verus! {

/// Simple metrics struct for mocker's internal use
#[derive(Clone, Copy, Debug, PartialEq, Eq, Structural)]
pub struct MockerMetrics {
    /// The rank of the engine.
    pub dp_rank: u32,
    /// The number of blocks in use.
    pub active_decode_blocks: u64,
}

impl Default for MockerMetrics {
    fn default() -> (r: Self)
        ensures
            r.dp_rank == 0,
            r.active_decode_blocks == 0,
    {
        MockerMetrics { dp_rank: 0, active_decode_blocks: 0 }
    }
}

/// The metrics after a forward pass.
pub fn forward_pass_metrics<B: KvBackend>(kv_manager: &B, dp_rank: u32) -> (r: MockerMetrics)
    requires
        kv_manager.valid(),
    ensures
        r.dp_rank == dp_rank,
        r.active_decode_blocks == kv_manager.active().dom().len(),
{
    MockerMetrics { dp_rank, active_decode_blocks: kv_manager.num_active_blocks() as u64 }
}

/// What to do about new requests before a pass.
#[derive(Clone, Copy, Debug, PartialEq, Eq, Structural)]
pub enum ReceiveAction {
    /// Nothing: the scheduler is to stop.
    Stop,
    /// Wait for a request: there is nothing else to do.
    AwaitRequest,
    /// Collect the requests that have come in, without waiting for more.
    Drain,
}

/// Decides what to do about new requests before a pass.
pub fn receive_action(state: &SchedulerState, cancelled: bool) -> (r: ReceiveAction)
    ensures
        r == if cancelled {
            ReceiveAction::Stop
        } else if state@.requests == Map::<u128, RequestState>::empty() {
            ReceiveAction::AwaitRequest
        } else {
            ReceiveAction::Drain
        },
{
    if cancelled {
        ReceiveAction::Stop
    } else if state.is_empty() {
        // Fully idle - block until new request arrives or shutdown
        ReceiveAction::AwaitRequest
    } else {
        // Has active/waiting work - collect any pending requests without blocking
        ReceiveAction::Drain
    }
}

} // verus!
