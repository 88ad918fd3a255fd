# omnibook

A single-book matching engine for binary event contracts (prices 1–99¢): limit (GTC/IOC),
market (with absolute protection), post-only, cancel, reduce and replace. Deterministic and
single-threaded. The library is written in Verus. Every function in `src/` is verified except the few
trusted wrappers (`#[verifier::external_body]`) around std: the `Debug` rendering of events
and commands in `src/audit.rs`, and the wall-clock reading (`SystemTime::now`,
`duration_since`, `as_millis`) in `src/legacy.rs`.

| | |
|---|---|
| `src/types.rs` | Commands, events, configuration, and the `Engine` contract |
| `src/model.rs` | The abstract book and `step`, the meaning of every command |
| `src/reference.rs` | Plain-vector engine, proved to follow `step` |
| `src/book.rs` | Fast engine (level arrays, bitsets, intrusive FIFO lists), proved to follow `step` |
| `src/audit.rs` | Independent checker that rebuilds the book from the events alone |
| `src/conformance.rs` | The checker accepts every step of the model |
| `src/laws.rs` | Matching laws every engine inherits from the model |
| `src/workload.rs` | Deterministic synthetic order flow |
| `src/bench.rs` | The benchmark's recorded command stream and GTC flow |
| `src/legacy.rs` | The benchmark's baseline engine |
| `app/` | The latency benchmark, and the zero-allocation checks (`--zero-alloc`) |
| `tests/` | Scenarios, soak runs, and checks of each module |
