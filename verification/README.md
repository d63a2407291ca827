# lob_engine

A price-time priority limit order book with integer tick prices, verified
with Verus, plus the integer parts of an execution-schedule study
(TWAP / VWAP / POV) over trade tapes.

- `src/orderbook.rs` — the book: each side is a queue of price levels, best
  price first, each level a FIFO queue. `submit` and `cancel` are specified
  exactly by `submit_spec` and `cancel_spec` over the book's view, and keep
  the invariant `book_wf` (levels in strict price order, never crossed).
- `src/book_laws.rs` — properties across operations: quantity conservation,
  trades at makers' prices within the taker's limit, consumption of the
  opposite side's priority queue from its head, cancels removing exactly the
  target, submit-then-cancel restoring the book, open-order accounting.
- `src/index_laws.rs` — the index holds exactly the resting orders when their
  ids are distinct (`index_coherent`): kept by `cancel` and by `submit` under
  a fresh id; then `open_orders` counts resting orders and a cancel succeeds
  exactly for a resting order, removing its quantity.
- `src/agents.rs` — schedule slices, VWAP buckets and tape fills, with their
  totals proved (TWAP and VWAP always allocate exactly the parent).
- `src/lib.rs` — the deterministic LCG used by the tests and the benchmark.
- `app/` — floating-point prices, VWAP weights, POV budget and slippage, and
  the two programs: `bench` and `study`, chosen by the first argument.
