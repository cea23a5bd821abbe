# mocker

A simulated inference engine: a KV cache manager with a second tier, and a request scheduler with
chunked prefill, prefix caching and preemption. The logic is verified with Verus; timing, channels,
logs and settings are around it.

- `src/common`: signals and events, sequences in progress, the LRU queue. `sequence_model.rs` and
  `sequence_laws.rs` say what a sequence is and what holds of it.
- `src/cache`: blocks in use with reference counts, and blocks kept for reuse.
- `src/kv_manager`: the interface of KV managers (`backend.rs`) and the manual one
  (`vllm_backend.rs`). `model.rs` says what each signal does; `accounting.rs` and `effects.rs` see
  it as references on blocks; `tiers.rs` follows blocks between the tiers, `tracking.rs` and
  `numbering.rs` are about the events, and `prefix.rs` about shared prompts.
- `src/scheduler`: the queues (`state.rs`), scheduling, prefill and decode. `ledger.rs` and
  `order.rs` tie the requests to the references in the KV manager; `laws.rs` says what holds of the
  scheduler as a whole, `passes.rs` of a decode pass, and `output.rs` what becomes of the tokens of
  a request.
- `app`: the scheduler as a background job.

Random ids and tokens come from `rand`, `uuid` and `dynamo_tokens`; blocks are cut and hashed by
`dynamo_tokens`. What is taken for granted of these crates is in `src/common/random.rs` and
`src/common/tokens.rs`.
