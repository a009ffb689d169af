use vstd::prelude::*;

use crate::level_seq::{live, qty_sum};
use crate::types::{
    execution_items, flip, CancelledOrder, Event, Execution, MarketOrderRequest, NewOrderRequest,
    Order, OrderBookError, Side, SubmissionOutcome,
};

verus! {

/// The state of an order book as the matching rules see it: for each side, the live
/// orders of each price level in arrival order; the ids reachable through the order
/// index; the count of resting orders; how many orders were ever rested; the event log.
pub struct BookView {
    pub bids: Map<u64, Seq<Order>>,
    pub asks: Map<u64, Seq<Order>>,
    pub indexed: Set<u64>,
    pub resting: nat,
    pub inserted: nat,
    pub log: Seq<Event>,
}

pub open spec fn empty_view() -> BookView {
    BookView {
        bids: Map::empty(),
        asks: Map::empty(),
        indexed: Set::empty(),
        resting: 0,
        inserted: 0,
        log: Seq::empty(),
    }
}

pub open spec fn levels(v: BookView, side: Side) -> Map<u64, Seq<Order>> {
    match side {
        Side::Bid => v.bids,
        Side::Ask => v.asks,
    }
}

pub open spec fn with_levels(v: BookView, side: Side, m: Map<u64, Seq<Order>>) -> BookView {
    match side {
        Side::Bid => BookView { bids: m, ..v },
        Side::Ask => BookView { asks: m, ..v },
    }
}

pub open spec fn log_push(v: BookView, e: Event) -> BookView {
    BookView { log: v.log.push(e), ..v }
}

/// Whether a resting price on the other side is acceptable to an order with this limit.
pub open spec fn crosses(side: Side, limit_price: u64, book_price: u64) -> bool {
    match side {
        Side::Bid => book_price <= limit_price,
        Side::Ask => book_price >= limit_price,
    }
}

/// `p` is the best price of a side: the highest bid, or the lowest ask.
pub open spec fn is_best(m: Map<u64, Seq<Order>>, side: Side, p: u64) -> bool {
    &&& m.contains_key(p)
    &&& forall|q: u64|
        #[trigger] m.contains_key(q) ==> match side {
            Side::Bid => q <= p,
            Side::Ask => p <= q,
        }
}

pub open spec fn best_price(m: Map<u64, Seq<Order>>, side: Side) -> Option<u64> {
    if exists|p: u64| is_best(m, side, p) {
        Some(choose|p: u64| is_best(m, side, p))
    } else {
        None
    }
}

/// The aggregated quantity resting at one price of one side.
pub open spec fn level_volume(v: BookView, side: Side, price: u64) -> nat {
    if levels(v, side).contains_key(price) {
        qty_sum(levels(v, side)[price])
    } else {
        0
    }
}

/// The order `id` is live at position `k` of level `p` of `side`.
pub open spec fn locates(v: BookView, id: u64, side: Side, p: u64, k: int) -> bool {
    &&& levels(v, side).contains_key(p)
    &&& 0 <= k < levels(v, side)[p].len()
    &&& levels(v, side)[p][k].id == id
}

/// Where the live order `id` rests.
pub open spec fn find(v: BookView, id: u64) -> (Side, u64, int) {
    choose|t: (Side, u64, int)| locates(v, id, t.0, t.1, t.2)
}

pub open spec fn levels_ok(m: Map<u64, Seq<Order>>, side: Side) -> bool {
    forall|p: u64|
        #[trigger] m.contains_key(p) ==> {
            &&& m[p].len() > 0
            &&& qty_sum(m[p]) <= u64::MAX
            &&& forall|k: int|
                0 <= k < m[p].len() ==> {
                    &&& (#[trigger] m[p][k]).quantity > 0
                    &&& m[p][k].side == side
                    &&& m[p][k].price == p
                }
        }
}

pub open spec fn ids_unique(v: BookView) -> bool {
    forall|id: u64, s1: Side, p1: u64, k1: int, s2: Side, p2: u64, k2: int|
        #![trigger locates(v, id, s1, p1, k1), locates(v, id, s2, p2, k2)]
        locates(v, id, s1, p1, k1) && locates(v, id, s2, p2, k2) ==> s1 == s2 && p1 == p2 && k1
            == k2
}

pub open spec fn indexed_exact(v: BookView) -> bool {
    &&& v.indexed.finite()
    &&& forall|id: u64, s: Side, p: u64, k: int|
        #[trigger] locates(v, id, s, p, k) ==> v.indexed.contains(id)
    &&& forall|id: u64|
        #[trigger] v.indexed.contains(id) ==> exists|s: Side, p: u64, k: int|
            #[trigger] locates(v, id, s, p, k)
}

/// The invariant of a consistent book: finitely many levels, every level non-empty, with
/// an aggregate within `u64`, and holding live orders of
/// its own side and price, ids are unique, the index reaches exactly the live orders, and
/// the resting count is their number.
pub open spec fn view_wf(v: BookView) -> bool {
    &&& v.bids.dom().finite()
    &&& v.asks.dom().finite()
    &&& levels_ok(v.bids, Side::Bid)
    &&& levels_ok(v.asks, Side::Ask)
    &&& ids_unique(v)
    &&& indexed_exact(v)
    &&& v.resting == v.indexed.len()
    &&& v.resting <= v.inserted
}

/// Rests `o` at the back of its price level.
pub open spec fn insert_order(v: BookView, o: Order) -> BookView {
    let m = levels(v, o.side);
    let lvl = if m.contains_key(o.price) {
        m[o.price]
    } else {
        Seq::empty()
    };
    let v2 = with_levels(v, o.side, m.insert(o.price, lvl.push(o)));
    BookView {
        indexed: v.indexed.insert(o.id),
        resting: v.resting + 1,
        inserted: v.inserted + 1,
        ..v2
    }
}

/// Takes `q` from the order at position `k` of level `p` of `side`; an order left with
/// nothing leaves the book, and so does a level left with no order.
pub open spec fn reduce_order(v: BookView, side: Side, p: u64, k: int, q: u64) -> BookView {
    let m = levels(v, side);
    let lvl = m[p];
    let o = lvl[k];
    let nq = (o.quantity - q) as u64;
    let lvl2 = if nq == 0 {
        lvl.remove(k)
    } else {
        lvl.update(k, Order { quantity: nq, ..o })
    };
    let m2 = if lvl2.len() == 0 {
        m.remove(p)
    } else {
        m.insert(p, lvl2)
    };
    let v2 = with_levels(v, side, m2);
    if nq == 0 {
        BookView { indexed: v.indexed.remove(o.id), resting: (v.resting - 1) as nat, ..v2 }
    } else {
        v2
    }
}

/// The state change of a recorded execution, or the error that refuses it.
pub open spec fn execute_view(v: BookView, e: Execution) -> Result<BookView, OrderBookError> {
    if !v.indexed.contains(e.maker_order_id) {
        Err(OrderBookError::ReplayInvariantBroken)
    } else {
        let t = find(v, e.maker_order_id);
        let o = levels(v, t.0)[t.1][t.2];
        if o.price != e.price || e.quantity > o.quantity {
            Err(OrderBookError::ReplayInvariantBroken)
        } else {
            Ok(reduce_order(v, t.0, t.1, t.2, e.quantity))
        }
    }
}

/// The state change of a recorded cancellation. A quantity that does not match the
/// live order is refused after the id has already left the index.
pub open spec fn cancel_event_view(v: BookView, c: CancelledOrder) -> (
    BookView,
    Result<(), OrderBookError>,
) {
    if !v.indexed.contains(c.id) {
        (v, Err(OrderBookError::ReplayInvariantBroken))
    } else {
        let t = find(v, c.id);
        let o = levels(v, t.0)[t.1][t.2];
        if o.quantity != c.quantity {
            (BookView { indexed: v.indexed.remove(c.id), ..v }, Err(OrderBookError::ReplayInvariantBroken))
        } else {
            (reduce_order(v, t.0, t.1, t.2, o.quantity), Ok(()))
        }
    }
}

/// The state change of one recorded event, without matching and without logging.
pub open spec fn apply_view(v: BookView, ev: Event) -> (BookView, Result<(), OrderBookError>) {
    match ev {
        Event::Accepted(o) => {
            if o.quantity == 0 {
                (v, Err(OrderBookError::InvalidQuantity))
            } else if v.indexed.contains(o.id) {
                (v, Err(OrderBookError::DuplicateOrderId(o.id)))
            } else {
                (insert_order(v, o), Ok(()))
            }
        },
        Event::Executed(e) => match execute_view(v, e) {
            Ok(v2) => (v2, Ok(())),
            Err(err) => (v, Err(err)),
        },
        Event::Cancelled(c) => cancel_event_view(v, c),
    }
}

/// The book rebuilt from an empty one by applying and logging each event in turn.
pub open spec fn replay_view(events: Seq<Event>) -> Result<BookView, OrderBookError>
    decreases events.len(),
{
    if events.len() == 0 {
        Ok(empty_view())
    } else {
        match replay_view(events.drop_last()) {
            Err(e) => Err(e),
            Ok(v) => {
                let (v2, r) = apply_view(v, events.last());
                match r {
                    Ok(_) => Ok(log_push(v2, events.last())),
                    Err(e) => Err(e),
                }
            },
        }
    }
}

/// Whether resting `qty` more at `price` keeps the level's aggregate within `u64`.
pub open spec fn volume_fits(v: BookView, side: Side, price: u64, qty: u64) -> bool {
    level_volume(v, side, price) + qty <= u64::MAX
}

/// An accepted order that would rest keeps its level's aggregate within `u64`.
pub open spec fn accept_fits(v: BookView, ev: Event) -> bool {
    match ev {
        Event::Accepted(o) => o.quantity > 0 && !v.indexed.contains(o.id) ==> volume_fits(
            v,
            o.side,
            o.price,
            o.quantity,
        ),
        _ => true,
    }
}

/// Every accepted order of a replay keeps its level's aggregate within `u64`.
pub open spec fn replay_fits(events: Seq<Event>) -> bool
    decreases events.len(),
{
    if events.len() == 0 {
        true
    } else {
        &&& replay_fits(events.drop_last())
        &&& match replay_view(events.drop_last()) {
            Ok(v) => accept_fits(v, events.last()),
            Err(_) => true,
        }
    }
}

/// The incoming side of a submission: its id, owner, side and limit (none for a market order).
pub struct Taker {
    pub id: u64,
    pub participant_id: u32,
    pub side: Side,
    pub limit: Option<u64>,
}

pub enum Fill {
    Done { view: BookView, executions: Seq<Execution>, remaining: u64 },
    SelfTrade { view: BookView, resting_order_id: u64 },
}

/// Matching: while quantity remains, trade against the front order of the best opposite
/// level as long as its price is acceptable; stop with an error on an order of the same
/// participant. Each trade is logged as it happens.
pub open spec fn fill(v: BookView, t: Taker, remaining: u64, execs: Seq<Execution>) -> Fill
    decreases remaining,
{
    if remaining == 0 {
        Fill::Done { view: v, executions: execs, remaining }
    } else {
        let opp = flip(t.side);
        let m = levels(v, opp);
        match best_price(m, opp) {
            None => Fill::Done { view: v, executions: execs, remaining },
            Some(p) => {
                if t.limit matches Some(l) && !crosses(t.side, l, p) {
                    Fill::Done { view: v, executions: execs, remaining }
                } else {
                    let o = m[p][0];
                    if o.participant_id == t.participant_id {
                        Fill::SelfTrade { view: v, resting_order_id: o.id }
                    } else {
                        let traded = if remaining <= o.quantity {
                            remaining
                        } else {
                            o.quantity
                        };
                        if traded == 0 {
                            Fill::Done { view: v, executions: execs, remaining }
                        } else {
                            let ex = Execution {
                                maker_order_id: o.id,
                                taker_order_id: t.id,
                                price: p,
                                quantity: traded,
                            };
                            fill(
                                log_push(reduce_order(v, opp, p, 0, traded), Event::Executed(ex)),
                                t,
                                (remaining - traded) as u64,
                                execs.push(ex),
                            )
                        }
                    }
                }
            },
        }
    }
}

/// The result of a submission: its executions, the id it rests under, and what was left unfilled.
pub type SubmitResult = Result<(Seq<Execution>, Option<u64>, u64), OrderBookError>;

/// A submission: validation, matching, then, for a limit order, resting what remains.
pub open spec fn submit_view(v: BookView, t: Taker, quantity: u64) -> (BookView, SubmitResult) {
    if quantity == 0 {
        (v, Err(OrderBookError::InvalidQuantity))
    } else if v.indexed.contains(t.id) {
        (v, Err(OrderBookError::DuplicateOrderId(t.id)))
    } else {
        match fill(v, t, quantity, Seq::empty()) {
            Fill::SelfTrade { view, resting_order_id } => (
                view,
                Err(OrderBookError::SelfTrade { resting_order_id, incoming_order_id: t.id }),
            ),
            Fill::Done { view, executions, remaining } => {
                match t.limit {
                    Some(price) if remaining > 0 => {
                        let o = Order {
                            id: t.id,
                            participant_id: t.participant_id,
                            side: t.side,
                            price,
                            quantity: remaining,
                        };
                        (
                            log_push(insert_order(view, o), Event::Accepted(o)),
                            Ok((executions, Some(t.id), remaining)),
                        )
                    },
                    _ => (view, Ok((executions, None, remaining))),
                }
            },
        }
    }
}

/// An outcome carries exactly the executions, resting id and unfilled quantity of the model,
/// or its error.
pub open spec fn outcome_matches(r: Result<SubmissionOutcome, OrderBookError>, s: SubmitResult) -> bool {
    match (r, s) {
        (Ok(out), Ok((executions, resting, unfilled))) => {
            &&& execution_items(out.executions) == executions
            &&& out.resting_order_id == resting
            &&& out.unfilled_quantity == unfilled
        },
        (Err(e1), Err(e2)) => e1 == e2,
        _ => false,
    }
}

pub open spec fn limit_taker(r: NewOrderRequest) -> Taker {
    Taker { id: r.id, participant_id: r.participant_id, side: r.side, limit: Some(r.price) }
}

pub open spec fn market_taker(r: MarketOrderRequest) -> Taker {
    Taker { id: r.id, participant_id: r.participant_id, side: r.side, limit: None }
}

/// Whether the remainder of a submission, if it rests, fits its level's aggregate and the
/// count of rested orders.
pub open spec fn submission_fits(v: BookView, t: Taker, q: u64) -> bool {
    q > 0 && !v.indexed.contains(t.id) ==> match fill(v, t, q, Seq::empty()) {
        Fill::Done { view, remaining, .. } => match t.limit {
            Some(price) => remaining > 0 ==> volume_fits(view, t.side, price, remaining)
                && view.inserted < usize::MAX,
            None => true,
        },
        _ => true,
    }
}

/// Whether the remainder of a limit order, if it rests, fits its level's aggregate.
pub open spec fn limit_fits(v: BookView, r: NewOrderRequest) -> bool {
    submission_fits(v, limit_taker(r), r.quantity)
}

/// Cancellation by id: the live order leaves the book and the cancellation is logged.
pub open spec fn cancel_view(v: BookView, id: u64) -> (BookView, Result<CancelledOrder, OrderBookError>) {
    if !v.indexed.contains(id) {
        (v, Err(OrderBookError::UnknownOrder(id)))
    } else {
        let t = find(v, id);
        let o = levels(v, t.0)[t.1][t.2];
        let c = CancelledOrder {
            id: o.id,
            participant_id: o.participant_id,
            side: o.side,
            price: o.price,
            quantity: o.quantity,
        };
        (log_push(reduce_order(v, t.0, t.1, t.2, o.quantity), Event::Cancelled(c)), Ok(c))
    }
}

} // verus!
