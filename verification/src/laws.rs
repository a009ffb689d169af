use vstd::prelude::*;

use crate::model::{
    accept_fits, apply_view, best_price, cancel_view, crosses, empty_view, fill, find,
    insert_order, is_best, level_volume, levels, limit_fits, limit_taker, locates, log_push,
    market_taker, reduce_order, replay_fits, replay_view, submission_fits, submit_view, view_wf,
    BookView, Fill, Taker,
};
use crate::types::{
    flip, CancelledOrder, Event, Execution, MarketOrderRequest, NewOrderRequest, Order,
    OrderBookError, Side,
};
use crate::level_seq::qty_sum;
use crate::view_lemmas::{
    lemma_levels_with,
    lemma_find, lemma_find_indexed, lemma_insert_other_side, lemma_insert_wf, lemma_log_push_wf, lemma_order_facts,
    lemma_reduce_locates, lemma_reduce_volume, lemma_reduce_wf, reduce_origin,
};

verus! {

/// The total quantity of a sequence of executions.
pub open spec fn exec_total(s: Seq<Execution>) -> nat
    decreases s.len(),
{
    if s.len() == 0 {
        0
    } else {
        exec_total(s.drop_last()) + s.last().quantity as nat
    }
}

/// The book a matching run ends on.
pub open spec fn fill_view(f: Fill) -> BookView {
    match f {
        Fill::Done { view, .. } => view,
        Fill::SelfTrade { view, .. } => view,
    }
}

/// A book that replaying its own log rebuilds exactly, every accepted order of the log
/// fitting its level's aggregate on the way.
pub open spec fn replays_to_itself(v: BookView) -> bool {
    &&& replay_fits(v.log)
    &&& replay_view(v.log) == Ok::<BookView, OrderBookError>(v)
}

/// Replaying a log extended by one event continues from the replay of the log.
proof fn lemma_replay_push(log: Seq<Event>, e: Event)
    ensures
        replay_fits(log.push(e)) == (replay_fits(log) && match replay_view(log) {
            Ok(v) => accept_fits(v, e),
            Err(_) => true,
        }),
        replay_view(log.push(e)) == match replay_view(log) {
            Err(err) => Err(err),
            Ok(v) => {
                let (v2, r) = apply_view(v, e);
                match r {
                    Ok(_) => Ok(log_push(v2, e)),
                    Err(err) => Err(err),
                }
            },
        },
{
    assert(log.push(e).drop_last() =~= log);
    assert(log.push(e).last() == e);
}

/// One matching step, replayed: the recorded execution rebuilds the state it leads to.
proof fn lemma_step_replays(v: BookView, side: Side, p: u64, traded: u64, taker: u64)
    requires
        view_wf(v),
        levels(v, side).contains_key(p),
        0 < traded <= levels(v, side)[p][0].quantity,
    ensures
        ({
            let o = levels(v, side)[p][0];
            let ex = Execution { maker_order_id: o.id, taker_order_id: taker, price: p, quantity: traded };
            apply_view(v, Event::Executed(ex)) == (reduce_order(v, side, p, 0, traded), Ok::<(), OrderBookError>(()))
        }),
{
    lemma_order_facts(v, side, p, 0);
    let o = levels(v, side)[p][0];
    lemma_find(v, o.id, side, p, 0);
}

/// What a matching run keeps and what it produces, from a consistent book and a fresh id.
proof fn lemma_fill(v: BookView, t: Taker, r: u64, execs: Seq<Execution>)
    requires
        view_wf(v),
        !v.indexed.contains(t.id),
    ensures
        ({
            let f = fill(v, t, r, execs);
            let w = fill_view(f);
            &&& view_wf(w)
            &&& !w.indexed.contains(t.id)
            &&& w.inserted == v.inserted
            &&& levels(w, t.side) == levels(v, t.side)
            &&& levels(w, flip(t.side)).dom().subset_of(levels(v, flip(t.side)).dom())
            &&& v.log.is_prefix_of(w.log)
            &&& replays_to_itself(v) ==> replays_to_itself(w)
            &&& f matches Fill::Done { executions, remaining, .. } ==> {
                &&& execs.is_prefix_of(executions)
                &&& exec_total(executions) + remaining == exec_total(execs) + r
                &&& forall|i: int|
                    execs.len() <= i < executions.len() ==> {
                        &&& (#[trigger] executions[i]).taker_order_id == t.id
                        &&& (t.limit matches Some(l) ==> crosses(t.side, l, executions[i].price))
                    }
                &&& remaining > 0 ==> match best_price(levels(w, flip(t.side)), flip(t.side)) {
                    None => true,
                    Some(p) => t.limit matches Some(l) && !crosses(t.side, l, p),
                }
            }
        }),
    decreases r,
{
    if r == 0 {
        return;
    }
    let opp = flip(t.side);
    let m = levels(v, opp);
    match best_price(m, opp) {
        None => {},
        Some(p) => {
            if t.limit matches Some(l) && !crosses(t.side, l, p) {
            } else {
                assert(is_best(m, opp, choose|q: u64| is_best(m, opp, q)));
                lemma_order_facts(v, opp, p, 0);
                let o = m[p][0];
                if o.participant_id == t.participant_id {
                } else {
                    let traded = if r <= o.quantity {
                        r
                    } else {
                        o.quantity
                    };
                    let ex = Execution {
                        maker_order_id: o.id,
                        taker_order_id: t.id,
                        price: p,
                        quantity: traded,
                    };
                    let v1 = reduce_order(v, opp, p, 0, traded);
                    let v2 = log_push(v1, Event::Executed(ex));
                    lemma_reduce_wf(v, opp, p, 0, traded);
                    lemma_log_push_wf(v1, Event::Executed(ex));
                    assert(!v2.indexed.contains(t.id));
                    assert(t.side == flip(opp));
                    lemma_fill(v2, t, (r - traded) as u64, execs.push(ex));
                    let f = fill(v2, t, (r - traded) as u64, execs.push(ex));
                    assert(fill(v, t, r, execs) == f);
                    let w = fill_view(f);
                    assert(v.log.is_prefix_of(w.log)) by {
                        assert(v.log.is_prefix_of(v2.log));
                    }
                    if replays_to_itself(v) {
                        lemma_replay_push(v.log, Event::Executed(ex));
                        lemma_step_replays(v, opp, p, traded, t.id);
                        assert(replays_to_itself(v2));
                    }
                    if let Fill::Done { executions, remaining, .. } = f {
                        assert(execs.is_prefix_of(executions)) by {
                            assert(execs.is_prefix_of(execs.push(ex)));
                        }
                        assert(exec_total(execs.push(ex)) == exec_total(execs) + traded) by {
                            assert(execs.push(ex).drop_last() =~= execs);
                        }
                        assert forall|i: int| execs.len() <= i < executions.len() implies {
                            &&& (#[trigger] executions[i]).taker_order_id == t.id
                            &&& (t.limit matches Some(l) ==> crosses(t.side, l, executions[i].price))
                        } by {
                            if i == execs.len() {
                                assert(executions[i] == execs.push(ex)[i]);
                            }
                        }
                    }
                }
            }
        },
    }
}

/// A submission keeps a consistent book consistent, only appends to its log, and keeps it
/// what replaying its log rebuilds.
proof fn lemma_submit(v: BookView, t: Taker, q: u64)
    requires
        view_wf(v),
        submission_fits(v, t, q),
    ensures
        ({
            let (w, res) = submit_view(v, t, q);
            &&& view_wf(w)
            &&& v.log.is_prefix_of(w.log)
            &&& replays_to_itself(v) ==> replays_to_itself(w)
        }),
{
    if q > 0 && !v.indexed.contains(t.id) {
        lemma_fill(v, t, q, Seq::empty());
        let f = fill(v, t, q, Seq::empty());
        if let Fill::Done { view, executions, remaining } = f {
            if let Some(price) = t.limit {
                if remaining > 0 {
                    let o = Order {
                        id: t.id,
                        participant_id: t.participant_id,
                        side: t.side,
                        price,
                        quantity: remaining,
                    };
                    let w1 = insert_order(view, o);
                    lemma_insert_wf(view, o);
                    lemma_log_push_wf(w1, Event::Accepted(o));
                    if replays_to_itself(v) {
                        lemma_replay_push(view.log, Event::Accepted(o));
                    }
                }
            }
        }
    }
}

/// Law: an empty book is what replaying its (empty) log rebuilds.
pub proof fn law_empty_book_replays()
    ensures
        replays_to_itself(empty_view()),
        view_wf(empty_view()),
{
}

/// Law: a submission, accepted or refused, keeps the book consistent, only appends to the
/// event log, and keeps the book equal to what replaying its log rebuilds.
pub proof fn law_submission_preserves_replay(v: BookView, t: Taker, q: u64)
    requires
        view_wf(v),
        replays_to_itself(v),
        submission_fits(v, t, q),
    ensures
        view_wf(submit_view(v, t, q).0),
        v.log.is_prefix_of(submit_view(v, t, q).0.log),
        replays_to_itself(submit_view(v, t, q).0),
{
    lemma_submit(v, t, q);
}

/// Law: a cancellation, accepted or refused, keeps the book consistent, only appends to the
/// event log, and keeps the book equal to what replaying its log rebuilds.
pub proof fn law_cancel_preserves_replay(v: BookView, id: u64)
    requires
        view_wf(v),
        replays_to_itself(v),
    ensures
        view_wf(cancel_view(v, id).0),
        v.log.is_prefix_of(cancel_view(v, id).0.log),
        replays_to_itself(cancel_view(v, id).0),
{
    if v.indexed.contains(id) {
        lemma_find_indexed(v, id);
        let t = find(v, id);
        let o = levels(v, t.0)[t.1][t.2];
        lemma_order_facts(v, t.0, t.1, t.2);
        let c = CancelledOrder {
            id: o.id,
            participant_id: o.participant_id,
            side: o.side,
            price: o.price,
            quantity: o.quantity,
        };
        let v1 = reduce_order(v, t.0, t.1, t.2, o.quantity);
        lemma_reduce_wf(v, t.0, t.1, t.2, o.quantity);
        lemma_log_push_wf(v1, Event::Cancelled(c));
        lemma_replay_push(v.log, Event::Cancelled(c));
        assert(v.log.is_prefix_of(v.log.push(Event::Cancelled(c))));
    }
}

/// Law: the executions of an accepted submission, plus what it leaves unfilled, add up to
/// the quantity submitted; every execution names the submitted order as taker and, for a
/// limit order, trades at a price its limit accepts.
pub proof fn law_submission_conserves_quantity(v: BookView, t: Taker, q: u64)
    requires
        view_wf(v),
    ensures
        submit_view(v, t, q).1 matches Ok((executions, resting, unfilled)) ==> {
            &&& exec_total(executions) + unfilled == q
            &&& forall|i: int|
                0 <= i < executions.len() ==> {
                    &&& (#[trigger] executions[i]).taker_order_id == t.id
                    &&& (t.limit matches Some(l) ==> crosses(t.side, l, executions[i].price))
                }
        },
{
    if q > 0 && !v.indexed.contains(t.id) {
        lemma_fill(v, t, q, Seq::empty());
    }
}

/// Law: an accepted submission rests exactly when it is a limit order with quantity left,
/// and then its price does not cross the best opposite price left on the book; a market
/// order is either filled or has emptied the opposite side.
pub proof fn law_remainder_does_not_cross(v: BookView, t: Taker, q: u64)
    requires
        view_wf(v),
    ensures
        ({
            let (w, res) = submit_view(v, t, q);
            res matches Ok((executions, resting, unfilled)) ==> {
                &&& (resting is Some <==> (t.limit is Some && unfilled > 0))
                &&& unfilled > 0 ==> match best_price(levels(w, flip(t.side)), flip(t.side)) {
                    None => true,
                    Some(p) => t.limit matches Some(l) && !crosses(t.side, l, p),
                }
            }
        }),
{
    if q > 0 && !v.indexed.contains(t.id) {
        lemma_fill(v, t, q, Seq::empty());
        let f = fill(v, t, q, Seq::empty());
        if let Fill::Done { view, executions, remaining } = f {
            if let Some(price) = t.limit {
                if remaining > 0 {
                    let o = Order {
                        id: t.id,
                        participant_id: t.participant_id,
                        side: t.side,
                        price,
                        quantity: remaining,
                    };
                    lemma_insert_other_side(view, o);
                    assert(flip(o.side) == flip(t.side));
                }
            }
        }
    }
}

/// Law: once an order is cancelled, cancelling it again is refused as unknown.
pub proof fn law_cancel_twice_is_unknown(v: BookView, id: u64)
    requires
        view_wf(v),
        cancel_view(v, id).1 is Ok,
    ensures
        cancel_view(cancel_view(v, id).0, id).1 == Err::<CancelledOrder, OrderBookError>(
            OrderBookError::UnknownOrder(id),
        ),
{
    lemma_find_indexed(v, id);
    let t = find(v, id);
    lemma_order_facts(v, t.0, t.1, t.2);
}

/// Law: a cancellation succeeds exactly when the id is live. It then reports that order as
/// it rests (its id, owner, side, price and quantity), takes it off the book and the
/// index, takes its quantity off its level and logs the report. An unknown id is refused
/// as `UnknownOrder` and leaves the book as it was.
pub proof fn law_cancel_reports_the_order(v: BookView, id: u64)
    requires
        view_wf(v),
    ensures
        ({
            let (w, res) = cancel_view(v, id);
            &&& res is Ok <==> v.indexed.contains(id)
            &&& !v.indexed.contains(id) ==> res == Err::<CancelledOrder, OrderBookError>(
                OrderBookError::UnknownOrder(id),
            ) && w == v
            &&& res matches Ok(c) ==> {
                &&& c.id == id
                &&& exists|k: int|
                    #![trigger locates(v, id, c.side, c.price, k)]
                    locates(v, id, c.side, c.price, k) && levels(v, c.side)[c.price][k] == (Order {
                        id,
                        participant_id: c.participant_id,
                        side: c.side,
                        price: c.price,
                        quantity: c.quantity,
                    })
                &&& !w.indexed.contains(id)
                &&& w.resting + 1 == v.resting
                &&& w.log == v.log.push(Event::Cancelled(c))
                &&& level_volume(w, c.side, c.price) + c.quantity == level_volume(v, c.side, c.price)
            }
        }),
{
    if v.indexed.contains(id) {
        lemma_find_indexed(v, id);
        let t = find(v, id);
        lemma_order_facts(v, t.0, t.1, t.2);
        let o = levels(v, t.0)[t.1][t.2];
        lemma_reduce_volume(v, t.0, t.1, t.2, o.quantity);
        assert(o.id == id);
        let w = cancel_view(v, id).0;
        assert(w.indexed == v.indexed.remove(id));
        let c = cancel_view(v, id).1->Ok_0;
        let w1 = reduce_order(v, t.0, t.1, t.2, o.quantity);
        assert(c.side == t.0 && c.price == t.1 && c.quantity == o.quantity);
        assert(levels(w, t.0) == levels(w1, t.0));
        assert(level_volume(w, c.side, c.price) == level_volume(w1, t.0, t.1));
        assert(locates(v, id, c.side, c.price, t.2));
        assert(levels(v, c.side)[c.price][t.2] == (Order {
            id,
            participant_id: o.participant_id,
            side: o.side,
            price: o.price,
            quantity: o.quantity,
        }));
    }
}

/// Law: a recorded execution is applied exactly when its maker is a live order resting at
/// the execution's price with at least the executed quantity; it then takes that quantity
/// off the maker's level. Any other execution is refused as `ReplayInvariantBroken` and
/// leaves the book as it was.
pub proof fn law_apply_execution(v: BookView, e: Execution)
    requires
        view_wf(v),
    ensures
        ({
            let (w, res) = apply_view(v, Event::Executed(e));
            &&& res is Ok <==> exists|s: Side, k: int|
                #![trigger locates(v, e.maker_order_id, s, e.price, k)]
                locates(v, e.maker_order_id, s, e.price, k) && e.quantity <= levels(
                    v,
                    s,
                )[e.price][k].quantity
            &&& res is Err ==> res == Err::<(), OrderBookError>(
                OrderBookError::ReplayInvariantBroken,
            ) && w == v
            &&& res is Ok ==> forall|s: Side, k: int|
                #[trigger] locates(v, e.maker_order_id, s, e.price, k) ==> level_volume(
                    w,
                    s,
                    e.price,
                ) + e.quantity == level_volume(v, s, e.price)
        }),
{
    let id = e.maker_order_id;
    assert forall|s: Side, k: int| #[trigger] locates(v, id, s, e.price, k) implies find(v, id) == (
    s, e.price, k) && v.indexed.contains(id) by {
        lemma_find(v, id, s, e.price, k);
    }
    if v.indexed.contains(id) {
        lemma_find_indexed(v, id);
        let t = find(v, id);
        lemma_order_facts(v, t.0, t.1, t.2);
        let o = levels(v, t.0)[t.1][t.2];
        if o.price == e.price && e.quantity <= o.quantity {
            assert(locates(v, id, t.0, e.price, t.2));
            lemma_reduce_volume(v, t.0, t.1, t.2, e.quantity);
        }
    }
}

/// Law: a recorded cancellation is applied exactly when its id is live and the order has
/// exactly the recorded quantity; it then takes the order off the book and the index and
/// its quantity off its level. Any other cancellation is refused as
/// `ReplayInvariantBroken`.
pub proof fn law_apply_cancellation(v: BookView, c: CancelledOrder)
    requires
        view_wf(v),
    ensures
        ({
            let (w, res) = apply_view(v, Event::Cancelled(c));
            &&& res is Ok <==> exists|s: Side, p: u64, k: int|
                #![trigger locates(v, c.id, s, p, k)]
                locates(v, c.id, s, p, k) && levels(v, s)[p][k].quantity == c.quantity
            &&& res is Err ==> res == Err::<(), OrderBookError>(
                OrderBookError::ReplayInvariantBroken,
            )
            &&& res is Ok ==> {
                &&& !w.indexed.contains(c.id)
                &&& w.resting + 1 == v.resting
                &&& forall|s: Side, p: u64, k: int|
                    #[trigger] locates(v, c.id, s, p, k) ==> level_volume(w, s, p) + c.quantity
                        == level_volume(v, s, p)
            }
        }),
{
    let id = c.id;
    assert forall|s: Side, p: u64, k: int| #[trigger] locates(v, id, s, p, k) implies find(v, id)
        == (s, p, k) && v.indexed.contains(id) by {
        lemma_find(v, id, s, p, k);
    }
    if v.indexed.contains(id) {
        lemma_find_indexed(v, id);
        let t = find(v, id);
        lemma_order_facts(v, t.0, t.1, t.2);
        let o = levels(v, t.0)[t.1][t.2];
        assert(locates(v, id, t.0, t.1, t.2));
        if o.quantity == c.quantity {
            lemma_reduce_volume(v, t.0, t.1, t.2, o.quantity);
        }
    }
}

/// Law: a recorded acceptance is applied exactly when its quantity is positive and its id
/// is not live; the order then rests at the back of the level of its side and price, with
/// its quantity added to that level and one more order resting. A zero quantity is refused
/// as `InvalidQuantity` and a live id as `DuplicateOrderId`, both leaving the book as it
/// was.
pub proof fn law_apply_acceptance(v: BookView, o: Order)
    requires
        view_wf(v),
    ensures
        ({
            let (w, res) = apply_view(v, Event::Accepted(o));
            &&& res is Ok <==> (o.quantity > 0 && !v.indexed.contains(o.id))
            &&& o.quantity == 0 ==> res == Err::<(), OrderBookError>(
                OrderBookError::InvalidQuantity,
            ) && w == v
            &&& o.quantity > 0 && v.indexed.contains(o.id) ==> res == Err::<(), OrderBookError>(
                OrderBookError::DuplicateOrderId(o.id),
            ) && w == v
            &&& res is Ok ==> {
                &&& locates(w, o.id, o.side, o.price, levels(w, o.side)[o.price].len() - 1)
                &&& levels(w, o.side)[o.price].last() == o
                &&& w.resting == v.resting + 1
                &&& level_volume(w, o.side, o.price) == level_volume(v, o.side, o.price)
                    + o.quantity
            }
        }),
{
    if o.quantity > 0 && !v.indexed.contains(o.id) {
        let m = levels(v, o.side);
        let lvl = if m.contains_key(o.price) {
            m[o.price]
        } else {
            Seq::empty()
        };
        let m2 = m.insert(o.price, lvl.push(o));
        lemma_levels_with(v, o.side, m2);
        let w = insert_order(v, o);
        assert(levels(w, o.side) == m2);
        assert(lvl.push(o).drop_last() =~= lvl);
        assert(qty_sum(lvl.push(o)) == qty_sum(lvl) + o.quantity);
        assert(lvl.push(o)[lvl.len() as int] == o);
    }
}

/// The participant that owns the live order `id`.
pub open spec fn participant_of(v: BookView, id: u64) -> u32 {
    let t = find(v, id);
    levels(v, t.0)[t.1][t.2].participant_id
}

/// Every order live in `v` was live in `v0`, under the same owner, on the same side and
/// at the same price.
pub open spec fn descends(v0: BookView, v: BookView) -> bool {
    forall|id: u64|
        #[trigger] v.indexed.contains(id) ==> {
            &&& v0.indexed.contains(id)
            &&& participant_of(v, id) == participant_of(v0, id)
            &&& find(v, id).0 == find(v0, id).0
            &&& find(v, id).1 == find(v0, id).1
        }
}

/// Every execution traded against an order of `v0` owned by someone other than `owner`.
pub open spec fn makers_foreign(v0: BookView, owner: u32, execs: Seq<Execution>) -> bool {
    forall|i: int|
        0 <= i < execs.len() ==> v0.indexed.contains((#[trigger] execs[i]).maker_order_id)
            && participant_of(v0, execs[i].maker_order_id) != owner
}

proof fn lemma_reduce_descends(v: BookView, side: Side, p: u64, k: int, q: u64, e: Event)
    requires
        view_wf(v),
        levels(v, side).contains_key(p),
        0 <= k < levels(v, side)[p].len(),
        q <= levels(v, side)[p][k].quantity,
    ensures
        descends(v, log_push(reduce_order(v, side, p, k, q), e)),
{
    let v1 = reduce_order(v, side, p, k, q);
    let v2 = log_push(v1, e);
    lemma_reduce_wf(v, side, p, k, q);
    lemma_log_push_wf(v1, e);
    lemma_reduce_locates(v, side, p, k, q);
    let nq = (levels(v, side)[p][k].quantity - q) as u64;
    assert forall|id: u64| #[trigger] v2.indexed.contains(id) implies {
        &&& v.indexed.contains(id)
        &&& participant_of(v2, id) == participant_of(v, id)
        &&& find(v2, id).0 == find(v, id).0
        &&& find(v2, id).1 == find(v, id).1
    } by {
        lemma_find_indexed(v2, id);
        let t = find(v2, id);
        assert(levels(v2, t.0) == levels(v1, t.0));
        assert(locates(v1, id, t.0, t.1, t.2));
        let k0 = reduce_origin(side, p, k, nq, t.0, t.1, t.2);
        assert(locates(v, id, t.0, t.1, k0));
        lemma_find(v, id, t.0, t.1, k0);
    }
}

proof fn lemma_fill_makers(v0: BookView, v: BookView, t: Taker, r: u64, execs: Seq<Execution>)
    requires
        view_wf(v),
        descends(v0, v),
        makers_foreign(v0, t.participant_id, execs),
    ensures
        fill(v, t, r, execs) matches Fill::Done { executions, .. } ==> makers_foreign(
            v0,
            t.participant_id,
            executions,
        ),
    decreases r,
{
    if r == 0 {
        return;
    }
    let opp = flip(t.side);
    let m = levels(v, opp);
    match best_price(m, opp) {
        None => {},
        Some(p) => {
            if t.limit matches Some(l) && !crosses(t.side, l, p) {
            } else {
                assert(is_best(m, opp, choose|q: u64| is_best(m, opp, q)));
                lemma_order_facts(v, opp, p, 0);
                let o = m[p][0];
                if o.participant_id != t.participant_id {
                    let traded = if r <= o.quantity {
                        r
                    } else {
                        o.quantity
                    };
                    if traded > 0 {
                        let ex = Execution {
                            maker_order_id: o.id,
                            taker_order_id: t.id,
                            price: p,
                            quantity: traded,
                        };
                        let v2 = log_push(reduce_order(v, opp, p, 0, traded), Event::Executed(ex));
                        lemma_reduce_descends(v, opp, p, 0, traded, Event::Executed(ex));
                        lemma_reduce_wf(v, opp, p, 0, traded);
                        lemma_log_push_wf(reduce_order(v, opp, p, 0, traded), Event::Executed(ex));
                        lemma_find(v, o.id, opp, p, 0);
                        assert(v.indexed.contains(o.id));
                        assert(participant_of(v, o.id) == o.participant_id);
                        assert(descends(v0, v2)) by {
                            assert forall|id: u64| #[trigger] v2.indexed.contains(id) implies {
                                &&& v0.indexed.contains(id)
                                &&& participant_of(v2, id) == participant_of(v0, id)
                                &&& find(v2, id).0 == find(v0, id).0
                                &&& find(v2, id).1 == find(v0, id).1
                            } by {
                                assert(v.indexed.contains(id));
                            }
                        }
                        assert(makers_foreign(v0, t.participant_id, execs.push(ex))) by {
                            assert forall|i: int| 0 <= i < execs.push(ex).len() implies v0.indexed.contains(
                                (#[trigger] execs.push(ex)[i]).maker_order_id,
                            ) && participant_of(v0, execs.push(ex)[i].maker_order_id) != t.participant_id by {
                                if i < execs.len() {
                                    assert(execs.push(ex)[i] == execs[i]);
                                }
                            }
                        }
                        lemma_fill_makers(v0, v2, t, (r - traded) as u64, execs.push(ex));
                    }
                }
            }
        },
    }
}

/// Law (self-trade prevention): every execution of an accepted submission traded against
/// an order that was resting when the submission arrived and that belongs to another
/// participant.
pub proof fn law_no_self_trade(v: BookView, t: Taker, q: u64)
    requires
        view_wf(v),
    ensures
        submit_view(v, t, q).1 matches Ok((executions, resting, unfilled)) ==> makers_foreign(
            v,
            t.participant_id,
            executions,
        ),
{
    if q > 0 && !v.indexed.contains(t.id) {
        lemma_fill_makers(v, v, t, q, Seq::empty());
    }
}

/// `id` is a live order of `v` that an order of `t` would trade against but must not: it
/// belongs to the same participant, rests on the other side and, for a limit order, at a
/// price the limit accepts.
pub open spec fn own_crossing_order(v: BookView, t: Taker, id: u64) -> bool {
    &&& v.indexed.contains(id)
    &&& participant_of(v, id) == t.participant_id
    &&& find(v, id).0 == flip(t.side)
    &&& (t.limit matches Some(l) ==> crosses(t.side, l, find(v, id).1))
}

/// A matching run on a book descended from `v0` stops on a self-trade only at an order of
/// `v0` that the taker's own participant rests on the other side at an acceptable price.
proof fn lemma_fill_self_trade(v0: BookView, v: BookView, t: Taker, r: u64, execs: Seq<Execution>)
    requires
        view_wf(v),
        descends(v0, v),
    ensures
        fill(v, t, r, execs) matches Fill::SelfTrade { resting_order_id, .. } ==> own_crossing_order(
            v0,
            t,
            resting_order_id,
        ),
    decreases r,
{
    if r == 0 {
        return;
    }
    let opp = flip(t.side);
    let m = levels(v, opp);
    match best_price(m, opp) {
        None => {},
        Some(p) => {
            if t.limit matches Some(l) && !crosses(t.side, l, p) {
            } else {
                assert(is_best(m, opp, choose|q: u64| is_best(m, opp, q)));
                lemma_order_facts(v, opp, p, 0);
                let o = m[p][0];
                lemma_find(v, o.id, opp, p, 0);
                if o.participant_id == t.participant_id {
                    assert(v.indexed.contains(o.id));
                    assert(participant_of(v, o.id) == o.participant_id);
                } else {
                    let traded = if r <= o.quantity {
                        r
                    } else {
                        o.quantity
                    };
                    if traded > 0 {
                        let ex = Execution {
                            maker_order_id: o.id,
                            taker_order_id: t.id,
                            price: p,
                            quantity: traded,
                        };
                        let v1 = reduce_order(v, opp, p, 0, traded);
                        let v2 = log_push(v1, Event::Executed(ex));
                        lemma_reduce_descends(v, opp, p, 0, traded, Event::Executed(ex));
                        lemma_reduce_wf(v, opp, p, 0, traded);
                        lemma_log_push_wf(v1, Event::Executed(ex));
                        assert(descends(v0, v2)) by {
                            assert forall|id: u64| #[trigger] v2.indexed.contains(id) implies {
                                &&& v0.indexed.contains(id)
                                &&& participant_of(v2, id) == participant_of(v0, id)
                                &&& find(v2, id).0 == find(v0, id).0
                                &&& find(v2, id).1 == find(v0, id).1
                            } by {
                                assert(v.indexed.contains(id));
                            }
                        }
                        lemma_fill_self_trade(v0, v2, t, (r - traded) as u64, execs.push(ex));
                    }
                }
            }
        },
    }
}

/// Law (self-trade prevention refuses only self-trades): a submission is refused as a
/// self-trade only naming an order that was live when it arrived, belongs to the
/// submitting participant and rests on the other side at a price the submission accepts;
/// a valid submission that has no such order to meet is accepted.
pub proof fn law_self_trade_only_against_own_orders(v: BookView, t: Taker, q: u64)
    requires
        view_wf(v),
    ensures
        submit_view(v, t, q).1 matches Err(
            OrderBookError::SelfTrade { resting_order_id, incoming_order_id },
        ) ==> incoming_order_id == t.id && own_crossing_order(v, t, resting_order_id),
        q > 0 && !v.indexed.contains(t.id) && (forall|id: u64| !#[trigger] own_crossing_order(v, t, id))
            ==> submit_view(v, t, q).1 is Ok,
{
    if q > 0 && !v.indexed.contains(t.id) {
        lemma_fill_self_trade(v, v, t, q, Seq::empty());
        if let Fill::SelfTrade { view, resting_order_id } = fill(v, t, q, Seq::empty()) {
            assert(own_crossing_order(v, t, resting_order_id));
        }
    }
}

/// Neither side has a best price that reaches the other's.
pub open spec fn uncrossed(v: BookView) -> bool {
    match (best_price(v.bids, Side::Bid), best_price(v.asks, Side::Ask)) {
        (Some(bid), Some(ask)) => bid < ask,
        _ => true,
    }
}

/// A finite ladder with a level has a best price.
proof fn lemma_best_exists(m: Map<u64, Seq<Order>>, side: Side, p: u64)
    requires
        m.dom().finite(),
        m.contains_key(p),
    ensures
        best_price(m, side) is Some,
    decreases m.dom().len(),
{
    let rest = m.remove(p);
    if rest.dom().len() == 0 {
        assert forall|q: u64| #[trigger] m.contains_key(q) implies q == p by {
            if q != p {
                assert(rest.dom().contains(q));
            }
        }
        assert(is_best(m, side, p));
    } else {
        let x = rest.dom().choose();
        assert(rest.contains_key(x));
        lemma_best_exists(rest, side, x);
        lemma_best_of(rest, side);
        let b = best_price(rest, side)->0;
        let winner = match side {
            Side::Bid => if p > b { p } else { b },
            Side::Ask => if p < b { p } else { b },
        };
        assert forall|q: u64| #[trigger] m.contains_key(q) implies match side {
            Side::Bid => q <= winner,
            Side::Ask => winner <= q,
        } by {
            if q != p {
                assert(rest.contains_key(q));
            }
        }
        assert(is_best(m, side, winner));
    }
}

proof fn lemma_best_of(m: Map<u64, Seq<Order>>, side: Side)
    ensures
        best_price(m, side) matches Some(p) ==> is_best(m, side, p),
        best_price(m, side) is None ==> forall|q: u64| !is_best(m, side, q),
{
    if best_price(m, side) is Some {
        let c = choose|q: u64| is_best(m, side, q);
        assert(is_best(m, side, c));
    }
}

/// Law: a submission on an uncrossed book leaves it uncrossed; the remainder of a limit
/// order only rests at a price the other side no longer reaches.
pub proof fn law_submission_keeps_uncrossed(v: BookView, t: Taker, q: u64)
    requires
        view_wf(v),
        uncrossed(v),
    ensures
        uncrossed(submit_view(v, t, q).0),
{
    if q == 0 || v.indexed.contains(t.id) {
        return;
    }
    lemma_fill(v, t, q, Seq::empty());
    law_remainder_does_not_cross(v, t, q);
    let f = fill(v, t, q, Seq::empty());
    let w = fill_view(f);
    let own = t.side;
    let opp = flip(t.side);
    let final_view = submit_view(v, t, q).0;
    assert(levels(final_view, opp) == levels(w, opp)) by {
        if let Fill::Done { view, executions, remaining } = f {
            if let Some(price) = t.limit {
                if remaining > 0 {
                    let o = Order {
                        id: t.id,
                        participant_id: t.participant_id,
                        side: t.side,
                        price,
                        quantity: remaining,
                    };
                    lemma_insert_other_side(view, o);
                    assert(flip(o.side) == opp);
                }
            }
        }
    }
    lemma_best_of(levels(v, own), own);
    lemma_best_of(levels(v, opp), opp);
    lemma_best_of(levels(final_view, own), own);
    lemma_best_of(levels(final_view, opp), opp);
    // the other side only lost levels, so its best price got no closer
    if let Some(a2) = best_price(levels(final_view, opp), opp) {
        assert(levels(v, opp).contains_key(a2));
        lemma_best_exists(levels(v, opp), opp, a2);
        lemma_best_of(levels(v, opp), opp);
        let a = best_price(levels(v, opp), opp)->0;
        if let Some(b2) = best_price(levels(final_view, own), own) {
            // the own side's best is either the old best or the rested price
            if levels(v, own).contains_key(b2) {
                lemma_best_exists(levels(v, own), own, b2);
                lemma_best_of(levels(v, own), own);
                let b = best_price(levels(v, own), own)->0;
                assert(is_best(levels(v, own), own, b));
                assert(own == Side::Bid ==> b2 <= b && b < a && a <= a2);
                assert(own == Side::Ask ==> b2 >= b && b > a && a >= a2);
            } else {
                assert(f matches Fill::Done { remaining, .. } && remaining > 0);
                assert(t.limit matches Some(l) && l == b2) by {
                    if let Fill::Done { view, executions, remaining } = f {
                        if let Some(price) = t.limit {
                            if remaining > 0 {
                                assert(levels(final_view, own).dom() =~= levels(w, own).dom().insert(price));
                            }
                        }
                    }
                }
            }
        }
    }
    assert(uncrossed(final_view)) by {
        if own == Side::Bid {
            assert(final_view.bids == levels(final_view, own));
            assert(final_view.asks == levels(final_view, opp));
        } else {
            assert(final_view.asks == levels(final_view, own));
            assert(final_view.bids == levels(final_view, opp));
        }
    }
}

/// The log entries that record a sequence of executions.
pub open spec fn executed_events(s: Seq<Execution>) -> Seq<Event> {
    s.map_values(|e: Execution| Event::Executed(e))
}

/// The quantity of a sequence of executions traded at price `p`.
pub open spec fn exec_total_at(s: Seq<Execution>, p: u64) -> nat
    decreases s.len(),
{
    if s.len() == 0 {
        0
    } else {
        exec_total_at(s.drop_last(), p) + if s.last().price == p {
            s.last().quantity as nat
        } else {
            0
        }
    }
}

/// What a matching run logs, what it takes from each opposite level, and that it only
/// trades positive quantities.
proof fn lemma_fill_effects(v: BookView, t: Taker, r: u64, execs: Seq<Execution>)
    requires
        view_wf(v),
        !v.indexed.contains(t.id),
    ensures
        ({
            let f = fill(v, t, r, execs);
            let w = fill_view(f);
            f matches Fill::Done { executions, .. } ==> {
                &&& execs.is_prefix_of(executions)
                &&& w.log == v.log + executed_events(executions).skip(execs.len() as int)
                &&& forall|p: u64|
                    level_volume(v, flip(t.side), p) + exec_total_at(execs, p) == level_volume(
                        w,
                        flip(t.side),
                        p,
                    ) + #[trigger] exec_total_at(executions, p)
                &&& forall|i: int|
                    execs.len() <= i < executions.len() ==> (#[trigger] executions[i]).quantity > 0
            }
        }),
    decreases r,
{
    lemma_fill(v, t, r, execs);
    if r == 0 {
        assert(executed_events(execs).skip(execs.len() as int) =~= Seq::<Event>::empty());
        assert(v.log + Seq::<Event>::empty() =~= v.log);
        return;
    }
    let opp = flip(t.side);
    let m = levels(v, opp);
    match best_price(m, opp) {
        None => {
            assert(executed_events(execs).skip(execs.len() as int) =~= Seq::<Event>::empty());
            assert(v.log + Seq::<Event>::empty() =~= v.log);
        },
        Some(p) => {
            if t.limit matches Some(l) && !crosses(t.side, l, p) {
                assert(executed_events(execs).skip(execs.len() as int) =~= Seq::<Event>::empty());
                assert(v.log + Seq::<Event>::empty() =~= v.log);
            } else {
                assert(is_best(m, opp, choose|q: u64| is_best(m, opp, q)));
                lemma_order_facts(v, opp, p, 0);
                let o = m[p][0];
                if o.participant_id == t.participant_id {
                } else {
                    let traded = if r <= o.quantity {
                        r
                    } else {
                        o.quantity
                    };
                    let ex = Execution {
                        maker_order_id: o.id,
                        taker_order_id: t.id,
                        price: p,
                        quantity: traded,
                    };
                    let v1 = reduce_order(v, opp, p, 0, traded);
                    let v2 = log_push(v1, Event::Executed(ex));
                    lemma_reduce_wf(v, opp, p, 0, traded);
                    lemma_reduce_volume(v, opp, p, 0, traded);
                    lemma_log_push_wf(v1, Event::Executed(ex));
                    assert(!v2.indexed.contains(t.id));
                    lemma_fill_effects(v2, t, (r - traded) as u64, execs.push(ex));
                    lemma_fill(v2, t, (r - traded) as u64, execs.push(ex));
                    let f = fill(v2, t, (r - traded) as u64, execs.push(ex));
                    assert(fill(v, t, r, execs) == f);
                    if let Fill::Done { view, executions, remaining } = f {
                        let n = execs.len() as int;
                        assert(execs.is_prefix_of(executions)) by {
                            assert(execs.is_prefix_of(execs.push(ex)));
                        }
                        assert(executions[n] == ex) by {
                            assert(execs.push(ex)[n] == ex);
                        }
                        assert(view.log == v.log + executed_events(executions).skip(n)) by {
                            assert(v2.log == v.log.push(Event::Executed(ex)));
                            assert(v.log + executed_events(executions).skip(n) =~= v.log.push(
                                Event::Executed(ex),
                            ) + executed_events(executions).skip(n + 1));
                        }
                        assert forall|q: u64|
                            level_volume(v, opp, q) + exec_total_at(execs, q) == level_volume(
                                view,
                                opp,
                                q,
                            ) + #[trigger] exec_total_at(executions, q) by {
                            assert(execs.push(ex).drop_last() =~= execs);
                            assert(level_volume(v2, opp, q) == level_volume(v1, opp, q));
                        }
                        assert forall|i: int| n <= i < executions.len() implies (
                        #[trigger] executions[i]).quantity > 0 by {
                            if i == n {
                            }
                        }
                    }
                }
            }
        },
    }
}

/// Law: the outcome of an accepted submission. It rests under its own id exactly when it is
/// a limit order with quantity left; the log grows by one `Executed` entry per execution,
/// in order, followed by the `Accepted` entry of the rested remainder; an order that does
/// not rest is not live afterwards; every execution trades a positive quantity; each
/// opposite level loses exactly what was traded at its price; and quantity is left
/// unfilled only when no opposite level is left that the order could trade with (for a
/// market order: none at all).
pub proof fn law_submission_outcome(v: BookView, t: Taker, q: u64)
    requires
        view_wf(v),
    ensures
        ({
            let (w, res) = submit_view(v, t, q);
            let opp = flip(t.side);
            res matches Ok((executions, resting, unfilled)) ==> {
                &&& resting == (if t.limit is Some && unfilled > 0 {
                    Some(t.id)
                } else {
                    None
                })
                &&& w.log == v.log + executed_events(executions) + match t.limit {
                    Some(price) => if unfilled > 0 {
                        seq![
                            Event::Accepted(
                                Order {
                                    id: t.id,
                                    participant_id: t.participant_id,
                                    side: t.side,
                                    price,
                                    quantity: unfilled,
                                },
                            ),
                        ]
                    } else {
                        Seq::<Event>::empty()
                    },
                    None => Seq::<Event>::empty(),
                }
                &&& resting is None ==> !w.indexed.contains(t.id)
                &&& forall|i: int|
                    0 <= i < executions.len() ==> (#[trigger] executions[i]).quantity > 0
                &&& forall|p: u64|
                    #[trigger] level_volume(v, opp, p) == level_volume(w, opp, p) + exec_total_at(
                        executions,
                        p,
                    )
                &&& unfilled > 0 ==> forall|p: u64|
                    #[trigger] levels(w, opp).contains_key(p) ==> (t.limit matches Some(l)
                        && !crosses(t.side, l, p))
            }
        }),
{
    if q == 0 || v.indexed.contains(t.id) {
        return;
    }
    lemma_fill(v, t, q, Seq::empty());
    lemma_fill_effects(v, t, q, Seq::empty());
    let f = fill(v, t, q, Seq::empty());
    let opp = flip(t.side);
    assert(executed_events(Seq::<Execution>::empty()) =~= Seq::<Event>::empty());
    if let Fill::Done { view, executions, remaining } = f {
        assert(executed_events(executions).skip(0) =~= executed_events(executions));
        assert(exec_total_at(Seq::<Execution>::empty(), 0) == 0);
        assert forall|p: u64| #[trigger]
            level_volume(v, opp, p) == level_volume(view, opp, p) + exec_total_at(executions, p) by {
            assert(exec_total_at(Seq::<Execution>::empty(), p) == 0);
        }
        // the opposite levels left all sit beyond the best one, which does not cross
        if remaining > 0 {
            lemma_best_of(levels(view, opp), opp);
            assert forall|p: u64| #[trigger] levels(view, opp).contains_key(p) implies (t.limit matches Some(l)
                && !crosses(t.side, l, p)) by {
                lemma_best_exists(levels(view, opp), opp, p);
            }
        }
        let w = submit_view(v, t, q).0;
        match t.limit {
            Some(price) => {
                if remaining > 0 {
                    let o = Order {
                        id: t.id,
                        participant_id: t.participant_id,
                        side: t.side,
                        price,
                        quantity: remaining,
                    };
                    lemma_insert_other_side(view, o);
                    assert(flip(o.side) == opp);
                    assert forall|p: u64| #[trigger]
                        level_volume(v, opp, p) == level_volume(w, opp, p) + exec_total_at(executions, p) by {
                        assert(level_volume(w, opp, p) == level_volume(view, opp, p));
                    }
                    assert(w.log =~= v.log + executed_events(executions) + seq![Event::Accepted(o)]);
                } else {
                    assert(w.log =~= v.log + executed_events(executions) + Seq::<Event>::empty());
                }
            },
            None => {
                assert(w.log =~= v.log + executed_events(executions) + Seq::<Event>::empty());
            },
        }
    }
}

/// Law: an accepted submission leaves its own side as it was, except that a rested
/// remainder joins the back of the level at its limit price, as an order of the submitting
/// participant with the unfilled quantity, adding that quantity to the level.
pub proof fn law_remainder_joins_back_of_level(v: BookView, t: Taker, q: u64)
    requires
        view_wf(v),
    ensures
        ({
            let (w, res) = submit_view(v, t, q);
            res matches Ok((executions, resting, unfilled)) ==> match resting {
                None => levels(w, t.side) == levels(v, t.side),
                Some(id) => t.limit matches Some(price) && {
                    let o = Order {
                        id: t.id,
                        participant_id: t.participant_id,
                        side: t.side,
                        price,
                        quantity: unfilled,
                    };
                    let before = if levels(v, t.side).contains_key(price) {
                        levels(v, t.side)[price]
                    } else {
                        Seq::empty()
                    };
                    &&& id == t.id
                    &&& levels(w, t.side) == levels(v, t.side).insert(price, before.push(o))
                    &&& locates(w, t.id, t.side, price, before.len() as int)
                    &&& level_volume(w, t.side, price) == level_volume(v, t.side, price) + unfilled
                }
            }
        }),
{
    if q > 0 && !v.indexed.contains(t.id) {
        lemma_fill(v, t, q, Seq::empty());
        if let Fill::Done { view, executions, remaining } = fill(v, t, q, Seq::empty()) {
            if let Some(price) = t.limit {
                if remaining > 0 {
                    let o = Order {
                        id: t.id,
                        participant_id: t.participant_id,
                        side: t.side,
                        price,
                        quantity: remaining,
                    };
                    let m = levels(view, o.side);
                    let lvl = if m.contains_key(o.price) {
                        m[o.price]
                    } else {
                        Seq::empty()
                    };
                    let m2 = m.insert(o.price, lvl.push(o));
                    lemma_levels_with(view, o.side, m2);
                    let w1 = insert_order(view, o);
                    assert(levels(w1, o.side) == m2);
                    assert(lvl.push(o).drop_last() =~= lvl);
                    assert(qty_sum(lvl.push(o)) == qty_sum(lvl) + o.quantity);
                    assert(lvl.push(o)[lvl.len() as int] == o);
                }
            }
        }
    }
}

/// Law: a submission is refused as `InvalidQuantity` exactly when its quantity is zero, and
/// as `DuplicateOrderId` of its own id exactly when the quantity is positive and the id is
/// live; both leave the book as it was. Its only other refusal is a self-trade, and it is
/// never refused as `ReplayInvariantBroken`.
pub proof fn law_submission_validation(v: BookView, t: Taker, q: u64)
    ensures
        ({
            let (w, res) = submit_view(v, t, q);
            &&& (res == Err::<(Seq<Execution>, Option<u64>, u64), OrderBookError>(
                OrderBookError::InvalidQuantity,
            )) == (q == 0)
            &&& (res is Err && res->Err_0 is DuplicateOrderId) == (q > 0 && v.indexed.contains(
                t.id,
            ))
            &&& (res is Err && res->Err_0 is DuplicateOrderId) ==> res->Err_0
                == OrderBookError::DuplicateOrderId(t.id)
            &&& (q == 0 || v.indexed.contains(t.id)) ==> w == v
            &&& res is Err ==> (res->Err_0 is InvalidQuantity || res->Err_0 is DuplicateOrderId
                || res->Err_0 == OrderBookError::SelfTrade {
                resting_order_id: res->Err_0->resting_order_id,
                incoming_order_id: t.id,
            })
            &&& res != Err::<(Seq<Execution>, Option<u64>, u64), OrderBookError>(
                OrderBookError::ReplayInvariantBroken,
            )
        }),
{
}

/// Law: a cancellation, accepted or refused, leaves an uncrossed book uncrossed.
pub proof fn law_cancel_keeps_uncrossed(v: BookView, id: u64)
    requires
        view_wf(v),
        uncrossed(v),
    ensures
        uncrossed(cancel_view(v, id).0),
{
    if !v.indexed.contains(id) {
        return;
    }
    lemma_find_indexed(v, id);
    let t = find(v, id);
    let o = levels(v, t.0)[t.1][t.2];
    lemma_order_facts(v, t.0, t.1, t.2);
    lemma_reduce_volume(v, t.0, t.1, t.2, o.quantity);
    lemma_reduce_wf(v, t.0, t.1, t.2, o.quantity);
    let w = cancel_view(v, id).0;
    let s = t.0;
    let os = flip(s);
    assert(levels(w, os) == levels(v, os));
    assert(levels(w, s).dom().subset_of(levels(v, s).dom()));
    lemma_best_of(levels(v, s), s);
    lemma_best_of(levels(v, os), os);
    lemma_best_of(levels(w, s), s);
    lemma_best_of(levels(w, os), os);
    if let Some(b2) = best_price(levels(w, s), s) {
        if let Some(a) = best_price(levels(w, os), os) {
            lemma_best_exists(levels(v, s), s, b2);
            lemma_best_of(levels(v, s), s);
            let b = best_price(levels(v, s), s)->0;
            assert(levels(v, s).contains_key(b2));
            assert(s == Side::Bid ==> b2 <= b);
            assert(s == Side::Ask ==> b <= b2);
        }
    }
    assert(uncrossed(w)) by {
        if s == Side::Bid {
            assert(w.bids == levels(w, s));
            assert(w.asks == levels(w, os));
            assert(v.bids == levels(v, s));
            assert(v.asks == levels(v, os));
        } else {
            assert(w.asks == levels(w, s));
            assert(w.bids == levels(w, os));
            assert(v.asks == levels(v, s));
            assert(v.bids == levels(v, os));
        }
    }
}

/// A public operation on a book: a limit order, a market order or a cancellation by id.
pub enum Operation {
    Limit(NewOrderRequest),
    Market(MarketOrderRequest),
    Cancel(u64),
}

/// The book after one operation, and the error that refused it, if any.
pub open spec fn operate(v: BookView, op: Operation) -> (BookView, Option<OrderBookError>) {
    match op {
        Operation::Limit(r) => {
            let (w, res) = submit_view(v, limit_taker(r), r.quantity);
            (w, if res is Err { Some(res->Err_0) } else { None })
        },
        Operation::Market(r) => {
            let (w, res) = submit_view(v, market_taker(r), r.quantity);
            (w, if res is Err { Some(res->Err_0) } else { None })
        },
        Operation::Cancel(id) => {
            let (w, res) = cancel_view(v, id);
            (w, if res is Err { Some(res->Err_0) } else { None })
        },
    }
}

/// Whether an operation keeps every level's aggregate within `u64`.
pub open spec fn operation_fits(v: BookView, op: Operation) -> bool {
    match op {
        Operation::Limit(r) => limit_fits(v, r),
        _ => true,
    }
}

/// The book that a sequence of operations builds from an empty one.
pub open spec fn operate_all(ops: Seq<Operation>) -> BookView
    decreases ops.len(),
{
    if ops.len() == 0 {
        empty_view()
    } else {
        operate(operate_all(ops.drop_last()), ops.last()).0
    }
}

/// Whether each operation of a sequence, on the book built by those before it, fits.
pub open spec fn operations_fit(ops: Seq<Operation>) -> bool
    decreases ops.len(),
{
    if ops.len() == 0 {
        true
    } else {
        operations_fit(ops.drop_last()) && operation_fits(
            operate_all(ops.drop_last()),
            ops.last(),
        )
    }
}

/// Law: every book that submissions and cancellations build from an empty one is
/// consistent, never crossed, and exactly what replaying its own log rebuilds; no further
/// operation on it is refused as `ReplayInvariantBroken`.
pub proof fn law_reachable_books(ops: Seq<Operation>, next: Operation)
    requires
        operations_fit(ops),
    ensures
        view_wf(operate_all(ops)),
        uncrossed(operate_all(ops)),
        replays_to_itself(operate_all(ops)),
        operate(operate_all(ops), next).1 != Some(OrderBookError::ReplayInvariantBroken),
    decreases ops.len(),
{
    if ops.len() == 0 {
        law_empty_book_replays();
        assert(uncrossed(empty_view())) by {
            lemma_best_of(empty_view().bids, Side::Bid);
        }
    } else {
        let pre = ops.drop_last();
        let op = ops.last();
        law_reachable_books(pre, op);
        let v = operate_all(pre);
        match op {
            Operation::Limit(r) => {
                law_submission_preserves_replay(v, limit_taker(r), r.quantity);
                law_submission_keeps_uncrossed(v, limit_taker(r), r.quantity);
            },
            Operation::Market(r) => {
                law_submission_preserves_replay(v, market_taker(r), r.quantity);
                law_submission_keeps_uncrossed(v, market_taker(r), r.quantity);
            },
            Operation::Cancel(id) => {
                law_cancel_preserves_replay(v, id);
                law_cancel_keeps_uncrossed(v, id);
            },
        }
    }
    let w = operate_all(ops);
    match next {
        Operation::Limit(r) => law_submission_validation(w, limit_taker(r), r.quantity),
        Operation::Market(r) => law_submission_validation(w, market_taker(r), r.quantity),
        Operation::Cancel(id) => {},
    }
}

} // verus!
