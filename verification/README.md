# lob_engine

A limit order book for a single instrument, verified with Verus: price-time priority
matching of limit and market orders, self-trade prevention by participant, cancellation
by order id through an index with lazy tombstones, and deterministic replay of the event
log.

- `src/types.rs` — prices, orders, requests, executions, events, errors; the
  `ExecutionVec` of a submission (a `smallvec::SmallVec` behind trusted wrappers).
- `src/level_seq.rs` — the live orders and the total quantity of a price level's queue,
  and how they change when an order is updated, appended or dropped from the front.
- `src/model.rs` — the book as the contracts see it (`BookView`), its invariant, and the
  matching, cancellation, event and replay semantics as spec functions.
- `src/view_lemmas.rs` — the invariant is kept by resting and by reducing an order.
- `src/book.rs` — `OrderBook` and `PriceLevel`: `BTreeMap` price ladders, `VecDeque`
  levels, a `HashMap` index; every operation is proved against `model.rs`.
- `src/laws.rs` — properties across operations: replaying a book's log rebuilds it,
  quantity conservation, limit prices respected, no self-trade, no resting remainder
  that crosses, the book is never left crossed, the exact outcome and log entries of a
  submission, validation errors, cancelling twice is refused, and every book built by
  submissions and cancellations stays consistent.
- `src/priority.rs` — price-time priority of the executions of a submission, and that
  it trades the smaller of its quantity and the volume its limit reaches
  (`src/price_sum.rs` sums over a set of prices).
- `app/` — `ConcurrentOrderBook` (parking_lot lock and arc-swap snapshots) and the serde
  forms of the event types.
