use vstd::prelude::*;

use crate::types::Order;

verus! {

/// The orders of a queue that still hold quantity, in queue order.
pub open spec fn live(s: Seq<Order>) -> Seq<Order>
    decreases s.len(),
{
    if s.len() == 0 {
        Seq::empty()
    } else if s.last().quantity > 0 {
        live(s.drop_last()).push(s.last())
    } else {
        live(s.drop_last())
    }
}

/// The total quantity of a queue.
pub open spec fn qty_sum(s: Seq<Order>) -> nat
    decreases s.len(),
{
    if s.len() == 0 {
        0
    } else {
        qty_sum(s.drop_last()) + s.last().quantity as nat
    }
}

pub proof fn lemma_live_append(a: Seq<Order>, b: Seq<Order>)
    ensures
        live(a + b) == live(a) + live(b),
    decreases b.len(),
{
    if b.len() == 0 {
        assert(a + b =~= a);
        assert(live(a) + live(b) =~= live(a));
    } else {
        assert((a + b).drop_last() =~= a + b.drop_last());
        assert((a + b).last() == b.last());
        lemma_live_append(a, b.drop_last());
        if b.last().quantity > 0 {
            assert(live(a) + live(b.drop_last()).push(b.last()) =~= (live(a) + live(
                b.drop_last(),
            )).push(b.last()));
        }
    }
}

pub proof fn lemma_qty_sum_append(a: Seq<Order>, b: Seq<Order>)
    ensures
        qty_sum(a + b) == qty_sum(a) + qty_sum(b),
    decreases b.len(),
{
    if b.len() == 0 {
        assert(a + b =~= a);
    } else {
        assert((a + b).drop_last() =~= a + b.drop_last());
        assert((a + b).last() == b.last());
        lemma_qty_sum_append(a, b.drop_last());
    }
}

pub proof fn lemma_live_single(o: Order)
    ensures
        live(seq![o]) == (if o.quantity > 0 {
            seq![o]
        } else {
            Seq::<Order>::empty()
        }),
        qty_sum(seq![o]) == o.quantity,
{
    let e = Seq::<Order>::empty();
    assert(seq![o].drop_last() =~= e);
    assert(seq![o].last() == o);
    assert(live(e) == e);
    assert(qty_sum(e) == 0);
    assert(live(seq![o]) == (if o.quantity > 0 { live(e).push(o) } else { live(e) }));
    assert(qty_sum(seq![o]) == qty_sum(e) + o.quantity);
    if o.quantity > 0 {
        assert(e.push(o) =~= seq![o]);
    }
}

/// Every order kept by `live` is an order of the queue that holds quantity.
pub proof fn lemma_live_members(s: Seq<Order>)
    ensures
        live(s).len() <= s.len(),
        forall|k: int|
            0 <= k < live(s).len() ==> (#[trigger] live(s)[k]).quantity > 0 && s.contains(
                live(s)[k],
            ),
    decreases s.len(),
{
    if s.len() > 0 {
        lemma_live_members(s.drop_last());
        assert forall|k: int| 0 <= k < live(s).len() implies (#[trigger] live(s)[k]).quantity > 0
            && s.contains(live(s)[k]) by {
            if k < live(s.drop_last()).len() {
                assert(live(s)[k] == live(s.drop_last())[k]);
                let j = choose|j: int|
                    0 <= j < s.drop_last().len() && s.drop_last()[j] == live(s.drop_last())[k];
                assert(s[j] == live(s)[k]);
            } else {
                assert(live(s)[k] == s.last());
                assert(s[s.len() - 1] == live(s)[k]);
            }
        }
    }
}

pub proof fn lemma_qty_sum_live(s: Seq<Order>)
    ensures
        qty_sum(live(s)) == qty_sum(s),
    decreases s.len(),
{
    if s.len() > 0 {
        lemma_qty_sum_live(s.drop_last());
        if s.last().quantity > 0 {
            assert(live(s).drop_last() =~= live(s.drop_last()));
        }
    }
}

/// A queue whose orders all hold quantity has a positive total exactly when it is not empty.
pub proof fn lemma_qty_sum_positive(s: Seq<Order>)
    requires
        forall|k: int| 0 <= k < s.len() ==> (#[trigger] s[k]).quantity > 0,
    ensures
        (qty_sum(s) > 0) == (s.len() > 0),
        s.len() > 0 ==> qty_sum(s) >= s[0].quantity,
    decreases s.len(),
{
    if s.len() > 0 {
        lemma_qty_sum_positive(s.drop_last());
        assert(s.last().quantity > 0);
        if s.len() > 1 {
            assert(s.drop_last()[0] == s[0]);
        }
    }
}

/// Splitting a queue around position `i`.
pub proof fn lemma_split(s: Seq<Order>, i: int)
    requires
        0 <= i < s.len(),
    ensures
        s == s.take(i) + seq![s[i]] + s.skip(i + 1),
        live(s) == live(s.take(i)) + live(seq![s[i]]) + live(s.skip(i + 1)),
        qty_sum(s) == qty_sum(s.take(i)) + s[i].quantity + qty_sum(s.skip(i + 1)),
{
    assert(s =~= s.take(i) + seq![s[i]] + s.skip(i + 1));
    lemma_live_append(s.take(i) + seq![s[i]], s.skip(i + 1));
    lemma_live_append(s.take(i), seq![s[i]]);
    lemma_qty_sum_append(s.take(i) + seq![s[i]], s.skip(i + 1));
    lemma_qty_sum_append(s.take(i), seq![s[i]]);
    lemma_live_single(s[i]);
}

/// The position, among the live orders, of the order at queue position `i`.
pub open spec fn live_pos(s: Seq<Order>, i: int) -> int {
    live(s.take(i)).len() as int
}

/// A live order at queue position `i` sits at `live_pos(s, i)` among the live orders.
pub proof fn lemma_live_pos(s: Seq<Order>, i: int)
    requires
        0 <= i < s.len(),
        s[i].quantity > 0,
    ensures
        0 <= live_pos(s, i) < live(s).len(),
        live(s)[live_pos(s, i)] == s[i],
{
    lemma_split(s, i);
    lemma_live_single(s[i]);
}

/// Changing the order at a live position `i` for another order.
pub proof fn lemma_live_update(s: Seq<Order>, i: int, x: Order)
    requires
        0 <= i < s.len(),
        s[i].quantity > 0,
    ensures
        x.quantity > 0 ==> live(s.update(i, x)) == live(s).update(live_pos(s, i), x),
        x.quantity == 0 ==> live(s.update(i, x)) == live(s).remove(live_pos(s, i)),
        qty_sum(s.update(i, x)) == qty_sum(s) - s[i].quantity + x.quantity,
        live_pos(s.update(i, x), i) == live_pos(s, i),
{
    let t = s.update(i, x);
    lemma_split(s, i);
    lemma_split(t, i);
    assert(t.take(i) =~= s.take(i));
    assert(t.skip(i + 1) =~= s.skip(i + 1));
    lemma_live_single(s[i]);
    lemma_live_single(x);
    let k = live_pos(s, i);
    if x.quantity > 0 {
        assert(live(t) =~= live(s).update(k, x));
    } else {
        assert(live(t) =~= live(s).remove(k));
    }
}

/// Removing the order at position `k` takes its quantity from the total.
pub proof fn lemma_qty_sum_remove(s: Seq<Order>, k: int)
    requires
        0 <= k < s.len(),
    ensures
        qty_sum(s.remove(k)) + s[k].quantity == qty_sum(s),
{
    lemma_split(s, k);
    assert(s.remove(k) =~= s.take(k) + s.skip(k + 1));
    lemma_qty_sum_append(s.take(k), s.skip(k + 1));
}

/// Dropping a front order that holds no quantity leaves the live orders unchanged.
pub proof fn lemma_live_drop_front(s: Seq<Order>)
    requires
        s.len() > 0,
        s[0].quantity == 0,
    ensures
        live(s.skip(1)) == live(s),
        qty_sum(s.skip(1)) == qty_sum(s),
        forall|i: int| 1 <= i < s.len() ==> live_pos(s.skip(1), i - 1) == live_pos(s, i),
{
    lemma_split(s, 0);
    assert(s.take(0) =~= Seq::<Order>::empty());
    lemma_live_single(s[0]);
    assert(live(s.take(0)) =~= Seq::<Order>::empty());
    assert(live(s) =~= live(s.skip(1)));
    assert forall|i: int| 1 <= i < s.len() implies live_pos(s.skip(1), i - 1) == live_pos(
        s,
        i,
    ) by {
        let a = s.take(i);
        assert(a =~= seq![s[0]] + s.skip(1).take(i - 1));
        lemma_live_append(seq![s[0]], s.skip(1).take(i - 1));
        assert(live(seq![s[0]]) + live(s.skip(1).take(i - 1)) =~= live(s.skip(1).take(i - 1)));
    }
}

/// Appending an order that holds quantity.
pub proof fn lemma_live_push(s: Seq<Order>, x: Order)
    requires
        x.quantity > 0,
    ensures
        live(s.push(x)) == live(s).push(x),
        qty_sum(s.push(x)) == qty_sum(s) + x.quantity,
        forall|i: int| 0 <= i < s.len() ==> live_pos(s.push(x), i) == live_pos(s, i),
{
    assert(s.push(x).drop_last() =~= s);
    assert forall|i: int| 0 <= i < s.len() implies live_pos(s.push(x), i) == live_pos(s, i) by {
        assert(s.push(x).take(i) =~= s.take(i));
    }
}

/// A queue with a live front keeps that front first among its live orders.
pub proof fn lemma_live_front(s: Seq<Order>)
    requires
        s.len() > 0,
        s[0].quantity > 0,
    ensures
        live(s).len() > 0,
        live(s)[0] == s[0],
        live_pos(s, 0) == 0,
        qty_sum(s) >= s[0].quantity,
{
    lemma_split(s, 0);
    assert(s.take(0) =~= Seq::<Order>::empty());
    lemma_live_single(s[0]);
    assert(live(s.take(0)) =~= Seq::<Order>::empty());
}

} // verus!
