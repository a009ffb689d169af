use vstd::prelude::*;

use crate::laws::{
    exec_total, exec_total_at, law_submission_conserves_quantity, law_submission_outcome,
};
use crate::model::{
    best_price, crosses, fill, insert_order, is_best, level_volume, levels, locates, log_push,
    reduce_order, submit_view, view_wf, BookView, Fill, Taker,
};
use crate::price_sum::{
    lemma_price_sum_add, lemma_price_sum_executions, lemma_price_sum_zero, price_sum,
};
use crate::types::{flip, Event, Execution, Order, Side};
use crate::view_lemmas::{
    lemma_levels_with, lemma_log_push_wf, lemma_order_facts, lemma_reduce_volume, lemma_reduce_wf,
};

verus! {

/// How many executions of a sequence traded at price `p`.
pub open spec fn exec_count_at(s: Seq<Execution>, p: u64) -> nat
    decreases s.len(),
{
    if s.len() == 0 {
        0
    } else {
        exec_count_at(s.drop_last(), p) + if s.last().price == p {
            1nat
        } else {
            0nat
        }
    }
}

/// A taker on `side` meets price `a` of the other side no later than price `b`: asks
/// lowest first for a bid, bids highest first for an ask.
pub open spec fn meets_before(side: Side, a: u64, b: u64) -> bool {
    match side {
        Side::Bid => a <= b,
        Side::Ask => a >= b,
    }
}

/// Where, in its price level, the order that the `i`-th execution traded with was
/// queued: behind exactly the orders that earlier executions at that price traded with.
pub open spec fn maker_position(s: Seq<Execution>, i: int) -> int {
    exec_count_at(s.take(i), s[i].price) as int
}

/// The quantity the order that the `i`-th execution traded with had in `v0`.
pub open spec fn maker_quantity(v0: BookView, side: Side, s: Seq<Execution>, i: int) -> u64 {
    levels(v0, flip(side))[s[i].price][maker_position(s, i)].quantity
}

/// Price-time priority of the executions of a taker on `side` against the book `v0`: each
/// trades with the order queued at its price behind exactly those that earlier executions
/// at that price traded with; it takes no more than that order held, and all of it unless
/// it is the last; prices are met best first; and by the time a price is met, every order
/// at a better price has been traded with.
pub open spec fn priority_run(v0: BookView, side: Side, s: Seq<Execution>) -> bool {
    let opp = flip(side);
    &&& forall|i: int|
        0 <= i < s.len() ==> {
            &&& locates(
                v0,
                (#[trigger] s[i]).maker_order_id,
                opp,
                s[i].price,
                maker_position(s, i),
            )
            &&& s[i].quantity <= maker_quantity(v0, side, s, i)
            &&& i < s.len() - 1 ==> s[i].quantity == maker_quantity(v0, side, s, i)
        }
    &&& forall|i: int, q: u64|
        0 <= i < s.len() && levels(v0, opp).contains_key(q) && q != s[i].price && meets_before(
            side,
            q,
            s[i].price,
        ) ==> #[trigger] exec_count_at(s.take(i), q) == levels(v0, opp)[q].len()
    &&& forall|i: int, j: int|
        0 <= i < j < s.len() ==> meets_before(side, (#[trigger] s[i]).price, (#[trigger] s[j]).price)
}

/// Every execution took the whole quantity of the order it traded with.
pub open spec fn all_whole(v0: BookView, side: Side, s: Seq<Execution>) -> bool {
    forall|i: int| 0 <= i < s.len() ==> (#[trigger] s[i]).quantity == maker_quantity(v0, side, s, i)
}

/// One when the last execution left part of its order resting, zero otherwise.
pub open spec fn last_partial(v0: BookView, side: Side, s: Seq<Execution>) -> nat {
    if s.len() > 0 && s.last().quantity < maker_quantity(v0, side, s, s.len() - 1) {
        1
    } else {
        0
    }
}

/// The state of a matching run from `v0` that has produced `execs` and reached `v` with `r`
/// left: no opposite level was added, the prices met so far are no worse than any level
/// left, the resting count dropped by one per order taken whole, and while quantity
/// remains, each opposite level is what `v0` had there minus the orders already taken,
/// and a level that is gone had all its orders taken.
spec fn run_state(v0: BookView, v: BookView, side: Side, execs: Seq<Execution>, r: u64) -> bool {
    let opp = flip(side);
    &&& levels(v, opp).dom().subset_of(levels(v0, opp).dom())
    &&& forall|i: int, p: u64|
        #![trigger execs[i], levels(v, opp).contains_key(p)]
        0 <= i < execs.len() && levels(v, opp).contains_key(p) ==> meets_before(
            side,
            execs[i].price,
            p,
        )
    &&& v.resting + execs.len() == v0.resting + last_partial(v0, side, execs)
    &&& r > 0 ==> {
        &&& all_whole(v0, side, execs)
        &&& forall|p: u64|
            #[trigger] levels(v, opp).contains_key(p) ==> {
                &&& exec_count_at(execs, p) < levels(v0, opp)[p].len()
                &&& levels(v, opp)[p] == levels(v0, opp)[p].skip(exec_count_at(execs, p) as int)
            }
        &&& forall|p: u64|
            #[trigger] levels(v0, opp).contains_key(p) && !levels(v, opp).contains_key(p)
                ==> exec_count_at(execs, p) == levels(v0, opp)[p].len()
    }
}

proof fn lemma_count_push(s: Seq<Execution>, e: Execution, p: u64)
    ensures
        exec_count_at(s.push(e), p) == exec_count_at(s, p) + if e.price == p {
            1nat
        } else {
            0nat
        },
{
    assert(s.push(e).drop_last() =~= s);
}

/// Counting over a longer prefix counts at least as many, and one more for an execution
/// at that price in between.
proof fn lemma_count_prefix(s: Seq<Execution>, i: int, j: int, p: u64)
    requires
        0 <= i < j <= s.len(),
    ensures
        exec_count_at(s.take(j), p) >= exec_count_at(s.take(i), p) + if s[i].price == p {
            1nat
        } else {
            0nat
        },
    decreases j - i,
{
    assert(s.take(j).drop_last() =~= s.take(j - 1));
    if j - 1 > i {
        lemma_count_prefix(s, i, j - 1, p);
    } else {
        assert(s.take(j).last() == s[i]);
    }
}

/// Taking the whole front order of a level removes it, and the level with it when it was
/// the only one.
proof fn lemma_reduce_front_whole(v: BookView, side: Side, p: u64)
    requires
        view_wf(v),
        levels(v, side).contains_key(p),
    ensures
        ({
            let m = levels(v, side);
            let lvl = m[p];
            levels(reduce_order(v, side, p, 0, lvl[0].quantity), side) == if lvl.len() == 1 {
                m.remove(p)
            } else {
                m.insert(p, lvl.skip(1))
            }
        }),
{
    let m = levels(v, side);
    let lvl = m[p];
    lemma_order_facts(v, side, p, 0);
    assert(lvl.remove(0) =~= lvl.skip(1));
    let m2 = if lvl.remove(0).len() == 0 {
        m.remove(p)
    } else {
        m.insert(p, lvl.remove(0))
    };
    lemma_levels_with(v, side, m2);
}

/// A matching run that so far kept price-time priority against `v0` keeps it to the end,
/// and takes one resting order off the book per order taken whole.
proof fn lemma_fill_priority(v0: BookView, v: BookView, t: Taker, r: u64, execs: Seq<Execution>)
    requires
        view_wf(v0),
        view_wf(v),
        run_state(v0, v, t.side, execs, r),
        priority_run(v0, t.side, execs),
    ensures
        fill(v, t, r, execs) matches Fill::Done { view, executions, remaining } ==> {
            &&& priority_run(v0, t.side, executions)
            &&& view.resting + executions.len() == v0.resting + last_partial(
                v0,
                t.side,
                executions,
            )
            &&& remaining > 0 ==> last_partial(v0, t.side, executions) == 0
        },
    decreases r,
{
    let side = t.side;
    let opp = flip(side);
    let m = levels(v, opp);
    if r == 0 {
        return;
    }
    if execs.len() > 0 {
        assert(execs[execs.len() - 1] == execs.last());
    }
    match best_price(m, opp) {
        None => {},
        Some(p) => {
            if t.limit matches Some(l) && !crosses(t.side, l, p) {
            } else {
                assert(is_best(m, opp, choose|q: u64| is_best(m, opp, q)));
                lemma_order_facts(v, opp, p, 0);
                let o = m[p][0];
                if o.participant_id != t.participant_id {
                    let traded = if r <= o.quantity {
                        r
                    } else {
                        o.quantity
                    };
                    let n = execs.len() as int;
                    let c = exec_count_at(execs, p) as int;
                    let l0 = levels(v0, opp)[p];
                    assert(m[p] == l0.skip(c));
                    assert(o == l0[c]);
                    assert(c < l0.len());
                    let ex = Execution {
                        maker_order_id: o.id,
                        taker_order_id: t.id,
                        price: p,
                        quantity: traded,
                    };
                    let e2 = execs.push(ex);
                    let r2 = (r - traded) as u64;
                    let v1 = reduce_order(v, opp, p, 0, traded);
                    let v2 = log_push(v1, Event::Executed(ex));
                    lemma_reduce_wf(v, opp, p, 0, traded);
                    lemma_reduce_volume(v, opp, p, 0, traded);
                    lemma_log_push_wf(v1, Event::Executed(ex));
                    assert(levels(v2, opp) == levels(v1, opp));
                    assert(e2.take(n) =~= execs);
                    assert(e2[n] == ex);
                    assert forall|i: int| 0 <= i < n implies e2.take(i) =~= execs.take(i)
                        && #[trigger] e2[i] == execs[i] by {}
                    assert forall|q: u64| #[trigger]
                        exec_count_at(e2, q) == exec_count_at(execs, q) + if q == p {
                            1nat
                        } else {
                            0nat
                        } by {
                        lemma_count_push(execs, ex, q);
                    }
                    assert(maker_position(e2, n) == c);
                    assert(maker_quantity(v0, side, e2, n) == o.quantity);
                    assert(locates(v0, o.id, opp, p, c)) by {
                        lemma_order_facts(v0, opp, p, c);
                    }
                    // the new execution keeps the run in priority order
                    assert forall|i: int| 0 <= i < e2.len() implies {
                        &&& locates(
                            v0,
                            (#[trigger] e2[i]).maker_order_id,
                            opp,
                            e2[i].price,
                            maker_position(e2, i),
                        )
                        &&& e2[i].quantity <= maker_quantity(v0, side, e2, i)
                        &&& i < e2.len() - 1 ==> e2[i].quantity == maker_quantity(v0, side, e2, i)
                    } by {
                        if i < n {
                            assert(e2.take(i) =~= execs.take(i));
                            assert(maker_position(e2, i) == maker_position(execs, i));
                        }
                    }
                    assert forall|i: int, q: u64|
                        0 <= i < e2.len() && levels(v0, opp).contains_key(q) && q != e2[i].price
                            && meets_before(side, q, e2[i].price) implies #[trigger] exec_count_at(
                        e2.take(i),
                        q,
                    ) == levels(v0, opp)[q].len() by {
                        if i < n {
                            assert(e2.take(i) =~= execs.take(i));
                            assert(execs[i] == e2[i]);
                        } else {
                            assert(e2.take(i) =~= execs);
                            if m.contains_key(q) {
                                assert(is_best(m, opp, p));
                            }
                        }
                    }
                    assert forall|i: int, j: int| 0 <= i < j < e2.len() implies meets_before(
                        side,
                        (#[trigger] e2[i]).price,
                        (#[trigger] e2[j]).price,
                    ) by {
                        if j < n {
                            assert(execs[i] == e2[i] && execs[j] == e2[j]);
                        } else {
                            assert(execs[i] == e2[i]);
                            assert(m.contains_key(p));
                        }
                    }
                    assert(priority_run(v0, side, e2));
                    // the state reached after the trade
                    let whole = traded == o.quantity;
                    assert(last_partial(v0, side, e2) == if whole {
                        0nat
                    } else {
                        1nat
                    }) by {
                        assert(e2.last() == ex);
                    }
                    assert(last_partial(v0, side, execs) == 0) by {
                        if n > 0 {
                            assert(execs.last() == execs[n - 1]);
                        }
                    }
                    assert forall|i: int, q: u64|
                        #![trigger e2[i], levels(v2, opp).contains_key(q)]
                        0 <= i < e2.len() && levels(v2, opp).contains_key(q) implies meets_before(
                        side,
                        e2[i].price,
                        q,
                    ) by {
                        assert(m.contains_key(q));
                        if i < n {
                            assert(execs[i] == e2[i]);
                        } else {
                            assert(is_best(m, opp, p));
                        }
                    }
                    if r2 > 0 {
                        assert(whole);
                        lemma_reduce_front_whole(v, opp, p);
                        assert(all_whole(v0, side, e2)) by {
                            assert forall|i: int| 0 <= i < e2.len() implies (#[trigger] e2[i]).quantity
                                == maker_quantity(v0, side, e2, i) by {
                                if i < n {
                                    assert(e2.take(i) =~= execs.take(i));
                                    assert(execs[i] == e2[i]);
                                }
                            }
                        }
                        assert forall|q: u64| #[trigger] levels(v2, opp).contains_key(q) implies {
                            &&& exec_count_at(e2, q) < levels(v0, opp)[q].len()
                            &&& levels(v2, opp)[q] == levels(v0, opp)[q].skip(
                                exec_count_at(e2, q) as int,
                            )
                        } by {
                            if q == p {
                                assert(m[p].skip(1) =~= l0.skip(c + 1));
                            }
                        }
                        assert forall|q: u64| #[trigger]
                            levels(v0, opp).contains_key(q) && !levels(v2, opp).contains_key(q) implies exec_count_at(
                            e2,
                            q,
                        ) == levels(v0, opp)[q].len() by {
                            if q == p {
                                assert(m[p].len() == 1);
                            }
                        }
                    }
                    assert(run_state(v0, v2, side, e2, r2));
                    lemma_fill_priority(v0, v2, t, r2, e2);
                    assert(fill(v, t, r, execs) == fill(v2, t, r2, e2));
                }
            }
        },
    }
}

/// Law (price-time priority): the executions of an accepted submission trade with the
/// orders resting on the other side when it arrived, best price first and, within a
/// price, in arrival order without skipping any: the `i`-th execution at a price trades
/// with the `i`-th order queued there, taking all of it unless it is the last execution,
/// and a price is only reached once every order at a better price has been traded with.
/// No order is traded with twice, and the resting count drops by one per order taken
/// whole, and grows by one if the remainder rests.
pub proof fn law_submission_priority(v: BookView, t: Taker, q: u64)
    requires
        view_wf(v),
    ensures
        ({
            let (w, res) = submit_view(v, t, q);
            res matches Ok((executions, resting, unfilled)) ==> {
                &&& priority_run(v, t.side, executions)
                &&& forall|i: int, j: int|
                    0 <= i < j < executions.len() ==> (#[trigger] executions[i]).maker_order_id
                        != (#[trigger] executions[j]).maker_order_id
                &&& forall|i: int, j: int|
                    0 <= i < j < executions.len() && executions[i].price == executions[j].price
                        ==> #[trigger] maker_position(executions, i) < #[trigger] maker_position(
                        executions,
                        j,
                    )
                &&& w.resting + executions.len() == v.resting + (if resting is Some {
                    1nat
                } else {
                    0nat
                }) + last_partial(v, t.side, executions)
            }
        }),
{
    if q == 0 || v.indexed.contains(t.id) {
        return;
    }
    let side = t.side;
    let opp = flip(side);
    let m = levels(v, opp);
    let e0 = Seq::<Execution>::empty();
    assert forall|p: u64| #[trigger] m.contains_key(p) implies {
        &&& exec_count_at(e0, p) < levels(v, opp)[p].len()
        &&& m[p] == levels(v, opp)[p].skip(exec_count_at(e0, p) as int)
    } by {
        lemma_order_facts(v, opp, p, 0);
        assert(m[p].skip(0) =~= m[p]);
    }
    assert(run_state(v, v, side, e0, q));
    lemma_fill_priority(v, v, t, q, e0);
    if let Fill::Done { view, executions, remaining } = fill(v, t, q, e0) {
        let ex = executions;
        assert forall|i: int, j: int| 0 <= i < j < ex.len() && ex[i].price == ex[j].price implies
            #[trigger] maker_position(ex, i) < #[trigger] maker_position(ex, j) by {
            lemma_count_prefix(ex, i, j, ex[i].price);
        }
        assert forall|i: int, j: int| 0 <= i < j < ex.len() implies (#[trigger] ex[i]).maker_order_id
            != (#[trigger] ex[j]).maker_order_id by {
            lemma_count_prefix(ex, i, j, ex[i].price);
            assert(locates(v, ex[i].maker_order_id, opp, ex[i].price, maker_position(ex, i)));
            assert(locates(v, ex[j].maker_order_id, opp, ex[j].price, maker_position(ex, j)));
        }
        if let Some(price) = t.limit {
            if remaining > 0 {
                let o = Order {
                    id: t.id,
                    participant_id: t.participant_id,
                    side: t.side,
                    price,
                    quantity: remaining,
                };
                assert(insert_order(view, o).resting == view.resting + 1);
            }
        }
    }
}

/// The opposite prices an order of `t` would trade at: all of them for a market order,
/// those its limit accepts for a limit order.
pub open spec fn crossing_prices(v: BookView, t: Taker) -> Set<u64> {
    levels(v, flip(t.side)).dom().filter(
        |p: u64|
            match t.limit {
                Some(l) => crosses(t.side, l, p),
                None => true,
            },
    )
}

/// The quantity resting at the opposite prices an order of `t` would trade at.
pub open spec fn crossing_volume(v: BookView, t: Taker) -> nat {
    price_sum(crossing_prices(v, t), |p: u64| level_volume(v, flip(t.side), p))
}

/// Law: an accepted submission trades the smaller of its quantity and the quantity resting
/// at the opposite prices it accepts.
pub proof fn law_submission_fills_available(v: BookView, t: Taker, q: u64)
    requires
        view_wf(v),
    ensures
        submit_view(v, t, q).1 matches Ok((executions, resting, unfilled)) ==> exec_total(
            executions,
        ) == if q <= crossing_volume(v, t) {
            q as nat
        } else {
            crossing_volume(v, t)
        },
{
    let (w, res) = submit_view(v, t, q);
    if let Ok((ex, resting, unfilled)) = res {
        let opp = flip(t.side);
        let cp = crossing_prices(v, t);
        let pred = |p: u64|
            match t.limit {
                Some(l) => crosses(t.side, l, p),
                None => true,
            };
        levels(v, opp).dom().lemma_len_filter(pred);
        law_submission_outcome(v, t, q);
        law_submission_conserves_quantity(v, t, q);
        law_submission_priority(v, t, q);
        let lv = |p: u64| level_volume(v, opp, p);
        let lw = |p: u64| level_volume(w, opp, p);
        let at = |p: u64| exec_total_at(ex, p);
        assert forall|p: u64| cp.contains(p) implies #[trigger] lv(p) == lw(p) + at(p) by {
            assert(level_volume(v, opp, p) == level_volume(w, opp, p) + exec_total_at(ex, p));
        }
        lemma_price_sum_add(cp, lw, at, lv);
        assert forall|i: int| 0 <= i < ex.len() implies cp.contains(#[trigger] ex[i].price) by {
            assert(locates(v, ex[i].maker_order_id, opp, ex[i].price, maker_position(ex, i)));
        }
        lemma_price_sum_executions(cp, ex);
        if unfilled > 0 {
            assert forall|p: u64| cp.contains(p) implies #[trigger] lw(p) == 0 by {
                if levels(w, opp).contains_key(p) {
                    assert(t.limit matches Some(l) && !crosses(t.side, l, p));
                }
            }
            lemma_price_sum_zero(cp, lw);
        }
    }
}

} // verus!
