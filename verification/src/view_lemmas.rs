use vstd::prelude::*;

use crate::model::{
    find, indexed_exact, ids_unique, insert_order, level_volume, levels, levels_ok, locates,
    log_push,
    reduce_order, replay_fits, replay_view, view_wf, volume_fits, with_levels, BookView,
};
use crate::level_seq::{lemma_live_push, lemma_live_update, lemma_qty_sum_remove, qty_sum};
use crate::types::{flip, Event, Order, Side};

verus! {

pub proof fn lemma_levels_with(v: BookView, side: Side, m: Map<u64, Seq<Order>>)
    ensures
        levels(with_levels(v, side, m), side) == m,
        levels(with_levels(v, side, m), flip(side)) == levels(v, flip(side)),
        with_levels(v, side, m).indexed == v.indexed,
        with_levels(v, side, m).resting == v.resting,
        with_levels(v, side, m).inserted == v.inserted,
        with_levels(v, side, m).log == v.log,
{
}

pub proof fn lemma_side_cases(s: Side, side: Side)
    ensures
        s == side || s == flip(side),
{
}

/// Logging an event changes nothing the invariant speaks of.
pub proof fn lemma_log_push_wf(v: BookView, e: Event)
    requires
        view_wf(v),
    ensures
        view_wf(log_push(v, e)),
{
    let v2 = log_push(v, e);
    assert(v2.bids == v.bids && v2.asks == v.asks);
    assert forall|id: u64, s: Side, p: u64, k: int|
        locates(v2, id, s, p, k) == locates(v, id, s, p, k) by {
        assert(levels(v2, s) == levels(v, s));
    }
    assert(ids_unique(v2));
    assert(indexed_exact(v2)) by {
        assert forall|id: u64| #[trigger] v2.indexed.contains(id) implies exists|
            s: Side,
            p: u64,
            k: int,
        | #[trigger] locates(v2, id, s, p, k) by {
            let (s, p, k) = choose|s: Side, p: u64, k: int| locates(v, id, s, p, k);
            assert(locates(v2, id, s, p, k));
        }
    }
}

/// In a consistent book, a live order is found where it rests, and it is indexed.
pub proof fn lemma_find(v: BookView, id: u64, side: Side, p: u64, k: int)
    requires
        view_wf(v),
        locates(v, id, side, p, k),
    ensures
        find(v, id) == (side, p, k),
        v.indexed.contains(id),
{
    let w = (side, p, k);
    assert(locates(v, id, w.0, w.1, w.2));
    let t = find(v, id);
    assert(locates(v, id, t.0, t.1, t.2));
}

/// An indexed id is live somewhere; `find` names that place.
pub proof fn lemma_find_indexed(v: BookView, id: u64)
    requires
        view_wf(v),
        v.indexed.contains(id),
    ensures
        locates(v, id, find(v, id).0, find(v, id).1, find(v, id).2),
{
    let (s, p, k) = choose|s: Side, p: u64, k: int| locates(v, id, s, p, k);
    lemma_find(v, id, s, p, k);
}

/// Facts about a live order of a consistent book.
pub proof fn lemma_order_facts(v: BookView, side: Side, p: u64, k: int)
    requires
        view_wf(v),
        levels(v, side).contains_key(p),
        0 <= k < levels(v, side)[p].len(),
    ensures
        levels(v, side)[p][k].quantity > 0,
        levels(v, side)[p][k].side == side,
        levels(v, side)[p][k].price == p,
        levels(v, side)[p].len() > 0,
        v.indexed.contains(levels(v, side)[p][k].id),
        locates(v, levels(v, side)[p][k].id, side, p, k),
{
    let m = levels(v, side);
    assert(m[p][k] == m[p][k]);
    assert(locates(v, m[p][k].id, side, p, k));
}

/// Where a live order of the book after `reduce_order` rested before.
pub open spec fn reduce_origin(side: Side, p: u64, k: int, nq: u64, s2: Side, p2: u64, k2: int) -> int {
    if s2 == side && p2 == p && nq == 0 && k2 >= k {
        k2 + 1
    } else {
        k2
    }
}

pub proof fn lemma_reduce_locates(v: BookView, side: Side, p: u64, k: int, q: u64)
    requires
        view_wf(v),
        levels(v, side).contains_key(p),
        0 <= k < levels(v, side)[p].len(),
        q <= levels(v, side)[p][k].quantity,
    ensures
        ({
            let o = levels(v, side)[p][k];
            let nq = (o.quantity - q) as u64;
            let v2 = reduce_order(v, side, p, k, q);
            &&& forall|id: u64, s2: Side, p2: u64, k2: int|
                #[trigger] locates(v2, id, s2, p2, k2) ==> locates(
                    v,
                    id,
                    s2,
                    p2,
                    reduce_origin(side, p, k, nq, s2, p2, k2),
                ) && !(s2 == side && p2 == p && reduce_origin(side, p, k, nq, s2, p2, k2) == k
                    && nq == 0) && levels(v2, s2)[p2][k2].participant_id == levels(v, s2)[p2][reduce_origin(side, p, k, nq, s2, p2, k2)].participant_id
            &&& forall|id: u64, s2: Side, p2: u64, k2: int|
                #[trigger] locates(v, id, s2, p2, k2) && !(s2 == side && p2 == p && k2 == k && nq
                    == 0) ==> locates(
                    v2,
                    id,
                    s2,
                    p2,
                    if s2 == side && p2 == p && nq == 0 && k2 > k {
                        k2 - 1
                    } else {
                        k2
                    },
                )
        }),
{
    let m = levels(v, side);
    let lvl = m[p];
    let o = lvl[k];
    let nq = (o.quantity - q) as u64;
    let lvl2 = if nq == 0 {
        lvl.remove(k)
    } else {
        lvl.update(k, Order { quantity: nq, ..o })
    };
    let m2 = if lvl2.len() == 0 {
        m.remove(p)
    } else {
        m.insert(p, lvl2)
    };
    let v2 = reduce_order(v, side, p, k, q);
    lemma_levels_with(v, side, m2);
    assert(levels(v2, side) == m2);
    assert(levels(v2, flip(side)) == levels(v, flip(side)));
    assert forall|id: u64, s2: Side, p2: u64, k2: int| #[trigger]
        locates(v2, id, s2, p2, k2) implies locates(
        v,
        id,
        s2,
        p2,
        reduce_origin(side, p, k, nq, s2, p2, k2),
    ) && !(s2 == side && p2 == p && reduce_origin(side, p, k, nq, s2, p2, k2) == k && nq == 0)
        && levels(v2, s2)[p2][k2].participant_id == levels(v, s2)[p2][reduce_origin(side, p, k, nq, s2, p2, k2)].participant_id by {
        lemma_side_cases(s2, side);
        if s2 == side && p2 == p {
            assert(lvl2.len() > 0);
            assert(m2[p] == lvl2);
            if nq == 0 {
                if k2 >= k {
                    assert(lvl2[k2] == lvl[k2 + 1]);
                } else {
                    assert(lvl2[k2] == lvl[k2]);
                }
            } else {
                assert(lvl2[k2].id == lvl[k2].id);
            }
        }
    }
    assert forall|id: u64, s2: Side, p2: u64, k2: int| #[trigger]
        locates(v, id, s2, p2, k2) && !(s2 == side && p2 == p && k2 == k && nq == 0) implies locates(
        v2,
        id,
        s2,
        p2,
        if s2 == side && p2 == p && nq == 0 && k2 > k {
            k2 - 1
        } else {
            k2
        },
    ) by {
        lemma_side_cases(s2, side);
        if s2 == side && p2 == p {
            if nq == 0 {
                assert(lvl2.len() == lvl.len() - 1);
                assert(lvl2.len() > 0);
                if k2 > k {
                    assert(lvl2[k2 - 1] == lvl[k2]);
                } else {
                    assert(lvl2[k2] == lvl[k2]);
                }
            } else {
                assert(lvl2[k2].id == lvl[k2].id);
            }
        }
    }
}

/// Taking quantity from a live order keeps a consistent book consistent.
pub proof fn lemma_reduce_wf(v: BookView, side: Side, p: u64, k: int, q: u64)
    requires
        view_wf(v),
        levels(v, side).contains_key(p),
        0 <= k < levels(v, side)[p].len(),
        q <= levels(v, side)[p][k].quantity,
    ensures
        view_wf(reduce_order(v, side, p, k, q)),
        reduce_order(v, side, p, k, q).inserted == v.inserted,
        reduce_order(v, side, p, k, q).log == v.log,
        levels(reduce_order(v, side, p, k, q), flip(side)) == levels(v, flip(side)),
{
    let m = levels(v, side);
    let lvl = m[p];
    let o = lvl[k];
    let nq = (o.quantity - q) as u64;
    let lvl2 = if nq == 0 {
        lvl.remove(k)
    } else {
        lvl.update(k, Order { quantity: nq, ..o })
    };
    let m2 = if lvl2.len() == 0 {
        m.remove(p)
    } else {
        m.insert(p, lvl2)
    };
    let v2 = reduce_order(v, side, p, k, q);
    lemma_levels_with(v, side, m2);
    lemma_order_facts(v, side, p, k);
    lemma_reduce_locates(v, side, p, k, q);
    assert(levels_ok(m2, side)) by {
        assert forall|p2: u64| #[trigger] m2.contains_key(p2) implies {
            &&& m2[p2].len() > 0
            &&& qty_sum(m2[p2]) <= u64::MAX
            &&& forall|k2: int|
                0 <= k2 < m2[p2].len() ==> {
                    &&& (#[trigger] m2[p2][k2]).quantity > 0
                    &&& m2[p2][k2].side == side
                    &&& m2[p2][k2].price == p2
                }
        } by {
            if p2 == p {
                assert(m2[p2] == lvl2);
                if nq == 0 {
                    lemma_qty_sum_remove(lvl, k);
                } else {
                    lemma_live_update(lvl, k, Order { quantity: nq, ..o });
                }
                assert forall|k2: int| 0 <= k2 < m2[p2].len() implies {
                    &&& (#[trigger] m2[p2][k2]).quantity > 0
                    &&& m2[p2][k2].side == side
                    &&& m2[p2][k2].price == p2
                } by {
                    if nq == 0 {
                        if k2 >= k {
                            assert(lvl2[k2] == lvl[k2 + 1]);
                            lemma_order_facts(v, side, p, k2 + 1);
                        } else {
                            lemma_order_facts(v, side, p, k2);
                        }
                    } else if k2 != k {
                        lemma_order_facts(v, side, p, k2);
                    }
                }
            } else {
                assert(m2[p2] == m[p2]);
                assert(m.contains_key(p2));
            }
        }
    }
    assert(levels_ok(v2.bids, Side::Bid) && levels_ok(v2.asks, Side::Ask)) by {
        if side == Side::Bid {
            assert(v2.bids == m2);
            assert(v2.asks == v.asks);
        } else {
            assert(v2.asks == m2);
            assert(v2.bids == v.bids);
        }
    }
    assert(ids_unique(v2)) by {
        assert forall|id: u64, s1: Side, p1: u64, k1: int, s3: Side, p3: u64, k3: int|
            locates(v2, id, s1, p1, k1) && locates(v2, id, s3, p3, k3) implies s1 == s3 && p1
            == p3 && k1 == k3 by {
            assert(locates(v, id, s1, p1, reduce_origin(side, p, k, nq, s1, p1, k1)));
            assert(locates(v, id, s3, p3, reduce_origin(side, p, k, nq, s3, p3, k3)));
        }
    }
    assert(indexed_exact(v2)) by {
        assert forall|id: u64, s2: Side, p2: u64, k2: int| #[trigger]
            locates(v2, id, s2, p2, k2) implies v2.indexed.contains(id) by {
            let k0 = reduce_origin(side, p, k, nq, s2, p2, k2);
            assert(locates(v, id, s2, p2, k0));
            if nq == 0 && id == o.id {
                assert(locates(v, o.id, side, p, k));
            }
        }
        assert forall|id: u64| #[trigger] v2.indexed.contains(id) implies exists|
            s2: Side,
            p2: u64,
            k2: int,
        | #[trigger] locates(v2, id, s2, p2, k2) by {
            assert(v.indexed.contains(id));
            let (s2, p2, k2) = choose|s2: Side, p2: u64, k2: int| locates(v, id, s2, p2, k2);
            if nq == 0 && s2 == side && p2 == p && k2 == k {
                assert(id == o.id);
            }
            let k3 = if s2 == side && p2 == p && nq == 0 && k2 > k {
                k2 - 1
            } else {
                k2
            };
            assert(locates(v2, id, s2, p2, k3));
        }
    }
}

/// Resting an order leaves the other side alone.
pub proof fn lemma_insert_other_side(v: BookView, o: Order)
    ensures
        levels(insert_order(v, o), flip(o.side)) == levels(v, flip(o.side)),
        levels(insert_order(v, o), o.side).dom() == levels(v, o.side).dom().insert(o.price),
{
    let m = levels(v, o.side);
    let lvl = if m.contains_key(o.price) {
        m[o.price]
    } else {
        Seq::empty()
    };
    lemma_levels_with(v, o.side, m.insert(o.price, lvl.push(o)));
    assert(levels(insert_order(v, o), o.side).dom() =~= levels(v, o.side).dom().insert(o.price));
}

/// Resting a new live order under a fresh id, within its level's aggregate, keeps a
/// consistent book consistent.
pub proof fn lemma_insert_wf(v: BookView, o: Order)
    requires
        view_wf(v),
        o.quantity > 0,
        !v.indexed.contains(o.id),
        volume_fits(v, o.side, o.price, o.quantity),
    ensures
        view_wf(insert_order(v, o)),
        levels(insert_order(v, o), flip(o.side)) == levels(v, flip(o.side)),
        insert_order(v, o).log == v.log,
{
    let m = levels(v, o.side);
    let lvl = if m.contains_key(o.price) {
        m[o.price]
    } else {
        Seq::empty()
    };
    let m2 = m.insert(o.price, lvl.push(o));
    let v2 = insert_order(v, o);
    lemma_levels_with(v, o.side, m2);
    assert(levels(v2, o.side) == m2);
    assert(levels(v2, flip(o.side)) == levels(v, flip(o.side)));
    // every live order of the new book rested before, or is `o` at the back of its level
    assert forall|id: u64, s2: Side, p2: u64, k2: int| #[trigger]
        locates(v2, id, s2, p2, k2) implies (s2 == o.side && p2 == o.price && k2 == lvl.len()
        && id == o.id) || (locates(v, id, s2, p2, k2) && !(s2 == o.side && p2 == o.price && k2
        == lvl.len())) by {
        lemma_side_cases(s2, o.side);
        if s2 == o.side && p2 == o.price {
            if k2 < lvl.len() {
                assert(m2[p2][k2] == lvl[k2]);
            }
        }
    }
    assert forall|id: u64, s2: Side, p2: u64, k2: int| #[trigger]
        locates(v, id, s2, p2, k2) implies locates(v2, id, s2, p2, k2) by {
        lemma_side_cases(s2, o.side);
        if s2 == o.side && p2 == o.price {
            assert(m2[p2][k2] == lvl[k2]);
        }
    }
    assert(locates(v2, o.id, o.side, o.price, lvl.len() as int)) by {
        assert(m2[o.price][lvl.len() as int] == o);
    }
    assert(levels_ok(m2, o.side)) by {
        assert forall|p2: u64| #[trigger] m2.contains_key(p2) implies {
            &&& m2[p2].len() > 0
            &&& qty_sum(m2[p2]) <= u64::MAX
            &&& forall|k2: int|
                0 <= k2 < m2[p2].len() ==> {
                    &&& (#[trigger] m2[p2][k2]).quantity > 0
                    &&& m2[p2][k2].side == o.side
                    &&& m2[p2][k2].price == p2
                }
        } by {
            if p2 == o.price {
                lemma_live_push(lvl, o);
                if !m.contains_key(o.price) {
                    assert(qty_sum(lvl) == 0);
                }
                assert forall|k2: int| 0 <= k2 < m2[p2].len() implies {
                    &&& (#[trigger] m2[p2][k2]).quantity > 0
                    &&& m2[p2][k2].side == o.side
                    &&& m2[p2][k2].price == p2
                } by {
                    if k2 < lvl.len() {
                        assert(m2[p2][k2] == lvl[k2]);
                        lemma_order_facts(v, o.side, p2, k2);
                    }
                }
            } else {
                assert(m.contains_key(p2));
                assert(m2[p2] == m[p2]);
            }
        }
    }
    assert(levels_ok(v2.bids, Side::Bid) && levels_ok(v2.asks, Side::Ask)) by {
        if o.side == Side::Bid {
            assert(v2.bids == m2);
            assert(v2.asks == v.asks);
        } else {
            assert(v2.asks == m2);
            assert(v2.bids == v.bids);
        }
    }
    assert(ids_unique(v2)) by {
        assert forall|id: u64, s1: Side, p1: u64, k1: int, s3: Side, p3: u64, k3: int|
            locates(v2, id, s1, p1, k1) && locates(v2, id, s3, p3, k3) implies s1 == s3 && p1
            == p3 && k1 == k3 by {
            if locates(v, id, s1, p1, k1) && !(s1 == o.side && p1 == o.price && k1 == lvl.len()) {
                assert(v.indexed.contains(id));
            }
            if locates(v, id, s3, p3, k3) && !(s3 == o.side && p3 == o.price && k3 == lvl.len()) {
                assert(v.indexed.contains(id));
            }
        }
    }
    assert(indexed_exact(v2)) by {
        assert forall|id: u64, s2: Side, p2: u64, k2: int| #[trigger]
            locates(v2, id, s2, p2, k2) implies v2.indexed.contains(id) by {
            if locates(v, id, s2, p2, k2) && !(s2 == o.side && p2 == o.price && k2 == lvl.len()) {
                assert(v.indexed.contains(id));
            }
        }
        assert forall|id: u64| #[trigger] v2.indexed.contains(id) implies exists|
            s2: Side,
            p2: u64,
            k2: int,
        | #[trigger] locates(v2, id, s2, p2, k2) by {
            if id == o.id {
                assert(locates(v2, o.id, o.side, o.price, lvl.len() as int));
            } else {
                let (s2, p2, k2) = choose|s2: Side, p2: u64, k2: int| locates(v, id, s2, p2, k2);
                assert(locates(v2, id, s2, p2, k2));
            }
        }
    }
}

/// A replay that fits keeps fitting on every prefix.
pub proof fn lemma_replay_fits_prefix(events: Seq<Event>, j: int)
    requires
        replay_fits(events),
        0 <= j <= events.len(),
    ensures
        replay_fits(events.take(j)),
    decreases events.len(),
{
    if j < events.len() {
        assert(events.drop_last().take(j) =~= events.take(j));
        lemma_replay_fits_prefix(events.drop_last(), j);
    } else {
        assert(events.take(j) =~= events);
    }
}

/// A replay refused on a prefix is refused, with the same error, on the whole.
pub proof fn lemma_replay_err_extends(events: Seq<Event>, j: int)
    requires
        0 <= j <= events.len(),
        replay_view(events.take(j)) is Err,
    ensures
        replay_view(events) == replay_view(events.take(j)),
    decreases events.len(),
{
    if j < events.len() {
        assert(events.drop_last().take(j) =~= events.take(j));
        lemma_replay_err_extends(events.drop_last(), j);
    } else {
        assert(events.take(j) =~= events);
    }
}

/// Taking `q` from an order takes `q` from its level's aggregate and changes no other.
pub proof fn lemma_reduce_volume(v: BookView, side: Side, p: u64, k: int, q: u64)
    requires
        view_wf(v),
        levels(v, side).contains_key(p),
        0 <= k < levels(v, side)[p].len(),
        q <= levels(v, side)[p][k].quantity,
    ensures
        forall|p2: u64|
            #[trigger] level_volume(reduce_order(v, side, p, k, q), side, p2) == if p2 == p {
                level_volume(v, side, p) - q
            } else {
                level_volume(v, side, p2) as int
            },
        levels(reduce_order(v, side, p, k, q), side).dom().subset_of(levels(v, side).dom()),
        reduce_order(v, side, p, k, q).resting == v.resting - (if q == levels(v, side)[p][k].quantity {
            1int
        } else {
            0int
        }),
{
    let m = levels(v, side);
    let lvl = m[p];
    let o = lvl[k];
    let nq = (o.quantity - q) as u64;
    let lvl2 = if nq == 0 {
        lvl.remove(k)
    } else {
        lvl.update(k, Order { quantity: nq, ..o })
    };
    let m2 = if lvl2.len() == 0 {
        m.remove(p)
    } else {
        m.insert(p, lvl2)
    };
    lemma_levels_with(v, side, m2);
    lemma_order_facts(v, side, p, k);
    if nq == 0 {
        lemma_qty_sum_remove(lvl, k);
    } else {
        lemma_live_update(lvl, k, Order { quantity: nq, ..o });
    }
    if lvl2.len() == 0 {
        assert(qty_sum(lvl2) == 0);
    }
    assert(levels(reduce_order(v, side, p, k, q), side).dom() =~= m2.dom());
}

} // verus!
