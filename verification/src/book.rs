use std::collections::{BTreeMap, HashMap, VecDeque};

use vstd::prelude::*;

use crate::level_seq::{
    lemma_live_drop_front, lemma_live_front, lemma_live_members, lemma_live_pos, lemma_live_push,
    lemma_live_update, lemma_qty_sum_live, lemma_qty_sum_positive, lemma_split, live, live_pos,
    qty_sum,
};
use crate::model::{
    accept_fits, apply_view, best_price, cancel_event_view, cancel_view, crosses, empty_view,
    execute_view, fill, find, insert_order, is_best, level_volume, levels, limit_fits,
    limit_taker, locates, log_push, market_taker, outcome_matches, reduce_order, replay_fits,
    replay_view, submit_view, view_wf, volume_fits, BookView, Fill,
};
use crate::types::{
    execution_capacity, execution_items, flip, CancelledOrder, Event, Execution, ExecutionVec,
    MarketOrderRequest, NewOrderRequest, Order, OrderBookError, OrderId, Price, Quantity, Side,
    SubmissionOutcome,
};
use crate::laws::{
    law_cancel_keeps_uncrossed, law_cancel_preserves_replay, law_empty_book_replays,
    law_submission_keeps_uncrossed, law_submission_preserves_replay, replays_to_itself,
    uncrossed,
};
use crate::view_lemmas::{
    lemma_find, lemma_insert_wf, lemma_levels_with, lemma_log_push_wf, lemma_order_facts,
    lemma_reduce_wf, lemma_replay_err_extends, lemma_replay_fits_prefix,
};

verus! {

/// The orders resting at one price, in arrival order. Cancelled and filled orders stay in
/// place with quantity zero until they reach the front; `head_offset` counts the orders
/// dropped from the front, so that `head_offset + position` names an order for good.
#[derive(Debug, Clone)]
pub struct PriceLevel {
    orders: VecDeque<Order>,
    total_volume: Quantity,
    head_offset: usize,
}

impl Default for PriceLevel {
    fn default() -> (r: Self)
        ensures
            r.queue() == Seq::<Order>::empty(),
            r.volume() == 0,
            r.head() == 0,
    {
        PriceLevel { orders: VecDeque::new(), total_volume: 0, head_offset: 0 }
    }
}

#[derive(Debug, Clone, Copy, PartialEq, Eq, Structural)]
struct OrderLocator {
    side: Side,
    price: Price,
    offset: usize,
}

/// A limit order book for one instrument.
#[derive(Clone)]
pub struct OrderBook {
    bids: BTreeMap<Price, PriceLevel>,
    asks: BTreeMap<Price, PriceLevel>,
    order_index: HashMap<OrderId, OrderLocator>,
    event_log: Vec<Event>,
    live_orders: usize,
    inserted: Ghost<nat>,
}

/// The live orders of each level of a price ladder.
spec fn ladder_view(m: Map<u64, PriceLevel>) -> Map<u64, Seq<Order>> {
    m.map_values(|l: PriceLevel| live(l.orders@))
}

impl PriceLevel {
    pub closed spec fn queue(&self) -> Seq<Order> {
        self.orders@
    }

    pub closed spec fn volume(&self) -> u64 {
        self.total_volume
    }

    pub closed spec fn head(&self) -> usize {
        self.head_offset
    }

    /// A level on the book: not empty, a live order at the front, an exact aggregate,
    /// orders of its own side and price, and positions that were all handed out.
    spec fn level_ok(&self, side: Side, p: u64, inserted: nat) -> bool {
        &&& self.orders@.len() > 0
        &&& self.orders@[0].quantity > 0
        &&& self.total_volume == qty_sum(self.orders@)
        &&& forall|i: int|
            0 <= i < self.orders@.len() ==> (#[trigger] self.orders@[i]).side == side
                && self.orders@[i].price == p
        &&& self.head_offset + self.orders@.len() <= inserted
    }
}

impl Default for OrderBook {
    fn default() -> (r: Self)
        ensures
            r.wf(),
            r@ == empty_view(),
            replays_to_itself(r@),
            uncrossed(r@),
    {
        proof {
            law_empty_book_replays();
        }
        let r = OrderBook {
            bids: BTreeMap::new(),
            asks: BTreeMap::new(),
            order_index: HashMap::new(),
            event_log: Vec::new(),
            live_orders: 0,
            inserted: Ghost(0),
        };
        proof {
            assert(r@.bids =~= Map::<u64, Seq<Order>>::empty());
            assert(r@.asks =~= Map::<u64, Seq<Order>>::empty());
            assert(r@.indexed =~= Set::<u64>::empty());
            assert(r@ == empty_view());
        }
        r
    }
}

impl View for OrderBook {
    type V = BookView;

    closed spec fn view(&self) -> BookView {
        BookView {
            bids: ladder_view(self.bids@),
            asks: ladder_view(self.asks@),
            indexed: self.order_index@.dom(),
            resting: self.live_orders as nat,
            inserted: self.inserted@,
            log: self.event_log@,
        }
    }
}

/// Calls `BTreeMap::first_key_value` and keeps the key: the smallest key, if any.
#[verifier::external_body]
fn first_price(m: &BTreeMap<Price, PriceLevel>) -> (r: Option<Price>)
    ensures
        r is None <==> m@.dom().is_empty(),
        r matches Some(k) ==> m@.contains_key(k) && forall|q: u64| m@.contains_key(q) ==> k <= q,
{
    m.first_key_value().map(|(k, _)| *k)
}

/// Calls `BTreeMap::last_key_value` and keeps the key: the largest key, if any.
#[verifier::external_body]
fn last_price(m: &BTreeMap<Price, PriceLevel>) -> (r: Option<Price>)
    ensures
        r is None <==> m@.dom().is_empty(),
        r matches Some(k) ==> m@.contains_key(k) && forall|q: u64| m@.contains_key(q) ==> q <= k,
{
    m.last_key_value().map(|(k, _)| *k)
}

/// Calls `VecDeque::index_mut` to overwrite the element at `index`.
#[verifier::external_body]
fn set_order(orders: &mut VecDeque<Order>, index: usize, order: Order)
    requires
        index < old(orders)@.len(),
    ensures
        final(orders)@ == old(orders)@.update(index as int, order),
{
    orders[index] = order;
}

impl OrderBook {
    pub closed spec fn side_map(&self, side: Side) -> Map<u64, PriceLevel> {
        match side {
            Side::Bid => self.bids@,
            Side::Ask => self.asks@,
        }
    }

    spec fn levels_wf(&self) -> bool {
        &&& forall|p: u64| #[trigger]
            self.bids@.contains_key(p) ==> self.bids@[p].level_ok(Side::Bid, p, self.inserted@)
        &&& forall|p: u64| #[trigger]
            self.asks@.contains_key(p) ==> self.asks@[p].level_ok(Side::Ask, p, self.inserted@)
    }

    /// The index entry of `id` names a live order with that id.
    spec fn locator_ok(&self, id: u64, loc: OrderLocator) -> bool {
        let m = self.side_map(loc.side);
        &&& m.contains_key(loc.price)
        &&& m[loc.price].head_offset <= loc.offset
        &&& loc.offset < m[loc.price].head_offset + m[loc.price].orders@.len()
        &&& m[loc.price].orders@[loc.offset - m[loc.price].head_offset].id == id
        &&& m[loc.price].orders@[loc.offset - m[loc.price].head_offset].quantity > 0
    }

    spec fn index_wf(&self) -> bool {
        forall|id: u64| #[trigger]
            self.order_index@.contains_key(id) ==> self.locator_ok(id, self.order_index@[id])
    }

    /// The book's invariant.
    pub closed spec fn wf(&self) -> bool {
        &&& self.levels_wf()
        &&& self.index_wf()
        &&& self.inserted@ <= usize::MAX
        &&& view_wf(self@)
    }

    /// A consistent book looks consistent to the model.
    pub proof fn lemma_wf_view(&self)
        requires
            self.wf(),
        ensures
            view_wf(self@),
            self@.inserted <= usize::MAX,
    {
    }

    proof fn lemma_view_levels(&self, side: Side)
        ensures
            levels(self@, side) == ladder_view(self.side_map(side)),
            levels(self@, side).dom() == self.side_map(side).dom(),
            forall|p: u64| #[trigger]
                self.side_map(side).contains_key(p) ==> levels(self@, side)[p] == live(
                    self.side_map(side)[p].orders@,
                ),
    {
        assert(levels(self@, side).dom() =~= self.side_map(side).dom());
    }

    proof fn lemma_level_ok(&self, side: Side, p: u64)
        requires
            self.levels_wf(),
            self.side_map(side).contains_key(p),
        ensures
            self.side_map(side)[p].level_ok(side, p, self.inserted@),
    {
    }

    /// The aggregate of a level is the quantity of its live orders.
    proof fn lemma_level_volume(&self, side: Side, p: u64)
        requires
            self.levels_wf(),
        ensures
            self.side_map(side).contains_key(p) ==> level_volume(self@, side, p)
                == self.side_map(side)[p].total_volume,
            !self.side_map(side).contains_key(p) ==> level_volume(self@, side, p) == 0,
    {
        self.lemma_view_levels(side);
        if self.side_map(side).contains_key(p) {
            lemma_qty_sum_live(self.side_map(side)[p].orders@);
        }
    }

    fn book_side(&self, side: Side) -> (r: &BTreeMap<Price, PriceLevel>)
        ensures
            r@ == self.side_map(side),
    {
        match side {
            Side::Bid => &self.bids,
            Side::Ask => &self.asks,
        }
    }

    fn book_side_mut(&mut self, side: Side) -> (r: &mut BTreeMap<Price, PriceLevel>)
        ensures
            r@ == old(self).side_map(side),
            final(self).side_map(side) == final(r)@,
            final(self).side_map(flip(side)) == old(self).side_map(flip(side)),
            final(self).order_index@ == old(self).order_index@,
            final(self).event_log@ == old(self).event_log@,
            final(self).live_orders == old(self).live_orders,
            final(self).inserted == old(self).inserted,
    {
        match side {
            Side::Bid => &mut self.bids,
            Side::Ask => &mut self.asks,
        }
    }

    /// Removes the level at `price` from `side` and hands it over.
    fn take_level(&mut self, side: Side, price: Price) -> (r: Option<PriceLevel>)
        ensures
            final(self).side_map(side) == old(self).side_map(side).remove(price),
            final(self).side_map(flip(side)) == old(self).side_map(flip(side)),
            r == (if old(self).side_map(side).contains_key(price) {
                Some(old(self).side_map(side)[price])
            } else {
                None
            }),
            final(self).order_index@ == old(self).order_index@,
            final(self).event_log@ == old(self).event_log@,
            final(self).live_orders == old(self).live_orders,
            final(self).inserted == old(self).inserted,
    {
        self.book_side_mut(side).remove(&price)
    }

    /// Puts `level` at `price` on `side`.
    fn put_level(&mut self, side: Side, price: Price, level: PriceLevel)
        ensures
            final(self).side_map(side) == old(self).side_map(side).insert(price, level),
            final(self).side_map(flip(side)) == old(self).side_map(flip(side)),
            final(self).order_index@ == old(self).order_index@,
            final(self).event_log@ == old(self).event_log@,
            final(self).live_orders == old(self).live_orders,
            final(self).inserted == old(self).inserted,
    {
        self.book_side_mut(side).insert(price, level);
    }

    /// Drops the orders without quantity from the front of a level.
    fn compact_front(level: &mut PriceLevel)
        requires
            old(level).head_offset + old(level).orders@.len() <= usize::MAX,
        ensures
            ({
                let c = final(level).head_offset - old(level).head_offset;
                &&& 0 <= c <= old(level).orders@.len()
                &&& final(level).orders@ == old(level).orders@.skip(c)
                &&& forall|j: int| 0 <= j < c ==> (#[trigger] old(level).orders@[j]).quantity == 0
            }),
            final(level).orders@.len() > 0 ==> final(level).orders@[0].quantity > 0,
            final(level).total_volume == old(level).total_volume,
            live(final(level).orders@) == live(old(level).orders@),
            qty_sum(final(level).orders@) == qty_sum(old(level).orders@),
    {
        let ghost start = level.orders@;
        let ghost head = level.head_offset;
        while level.orders.len() > 0 && level.orders[0].quantity == 0
            invariant
                head <= level.head_offset,
                level.head_offset - head <= start.len(),
                level.orders@ == start.skip(level.head_offset - head),
                level.head_offset + level.orders@.len() == head + start.len(),
                head + start.len() <= usize::MAX,
                forall|j: int| 0 <= j < level.head_offset - head ==> (#[trigger] start[j]).quantity
                    == 0,
                level.total_volume == old(level).total_volume,
                live(level.orders@) == live(start),
                qty_sum(level.orders@) == qty_sum(start),
            decreases level.orders@.len(),
        {
            let ghost before = level.orders@;
            proof {
                lemma_live_drop_front(before);
            }
            let _ = level.orders.pop_front();
            level.head_offset = level.head_offset + 1;
            assert(level.orders@ =~= start.skip(level.head_offset - head));
        }
    }

    /// Rests `order` at the back of its price level and indexes it.
    fn insert_resting_order(&mut self, order: Order)
        requires
            old(self).wf(),
            order.quantity > 0,
            !old(self)@.indexed.contains(order.id),
            volume_fits(old(self)@, order.side, order.price, order.quantity),
            old(self)@.inserted < usize::MAX,
        ensures
            final(self).wf(),
            final(self)@ == insert_order(old(self)@, order),
    {
        let ghost v = self@;
        let side = order.side;
        let price = order.price;
        proof {
            self.lemma_level_volume(side, price);
            self.lemma_view_levels(side);
            self.lemma_view_levels(flip(side));
            if self.side_map(side).contains_key(price) {
                self.lemma_level_ok(side, price);
            }
            assert(self.order_index@.dom().finite());
        }
        let mut level = match self.take_level(side, price) {
            Some(level) => level,
            None => PriceLevel::default(),
        };
        let ghost before = level;
        let offset = level.head_offset + level.orders.len();
        level.total_volume = level.total_volume + order.quantity;
        level.orders.push_back(order);
        proof {
            lemma_live_push(before.orders@, order);
            if before.orders@.len() > 0 {
                assert(level.orders@[0] == before.orders@[0]);
            }
        }
        let ghost level_after = level;
        self.put_level(side, price, level);
        self.order_index.insert(order.id, OrderLocator { side, price, offset });
        self.live_orders = self.live_orders + 1;
        proof {
            self.inserted@ = self.inserted@ + 1;
        }
        proof {
            let m_old = old(self).side_map(side);
            let m_new = self.side_map(side);
            assert(m_new == m_old.insert(price, level_after));
            // the levels stay well formed
            assert forall|p: u64| #[trigger] m_new.contains_key(p) implies m_new[p].level_ok(
                side,
                p,
                self.inserted@,
            ) by {
                if p != price {
                    old(self).lemma_level_ok(side, p);
                }
            }
            assert forall|p: u64| #[trigger]
                self.side_map(flip(side)).contains_key(p) implies self.side_map(flip(side))[p].level_ok(
                flip(side),
                p,
                self.inserted@,
            ) by {
                old(self).lemma_level_ok(flip(side), p);
            }
            assert(self.levels_wf()) by {
                if side == Side::Bid {
                    assert(self.bids@ == m_new);
                } else {
                    assert(self.asks@ == m_new);
                }
            }
            // the index still names live orders
            assert forall|id: u64| #[trigger] self.order_index@.contains_key(id) implies self.locator_ok(
                id,
                self.order_index@[id],
            ) by {
                if id != order.id {
                    let loc = old(self).order_index@[id];
                    assert(old(self).locator_ok(id, loc));
                    if loc.side == side && loc.price == price {
                        assert(level_after.orders@[loc.offset - level_after.head_offset] == before.orders@[loc.offset
                            - before.head_offset]);
                    }
                }
            }
            // the view moved as the model says
            let v2 = insert_order(v, order);
            assert(v.indexed.len() == v.resting);
            lemma_insert_wf(v, order);
            lemma_levels_with(v, side, levels(v2, side));
            self.lemma_view_levels(side);
            self.lemma_view_levels(flip(side));
            assert(levels(self@, side) =~= levels(v2, side)) by {
                if before.orders@.len() == 0 {
                    assert(live(before.orders@) =~= Seq::<Order>::empty());
                }
            }
            assert(levels(self@, flip(side)) =~= levels(v2, flip(side)));
            assert(self@.indexed =~= v2.indexed);
            assert(self@.bids == v2.bids && self@.asks == v2.asks) by {
                if side == Side::Bid {
                } else {
                }
            }
            assert(self@ == v2);
        }
    }

    /// Takes `q` from the live order at `index` of the level at `price`, drops the dead
    /// orders at the front, and removes the level once it holds nothing. Returns whether
    /// the order is used up.
    fn reduce_level(&mut self, side: Side, price: Price, index: usize, q: Quantity) -> (completed: bool)
        requires
            old(self).levels_wf(),
            old(self).inserted@ <= usize::MAX,
            old(self).side_map(side).contains_key(price),
            index < old(self).side_map(side)[price].orders@.len(),
            q <= old(self).side_map(side)[price].orders@[index as int].quantity,
            old(self).side_map(side)[price].orders@[index as int].quantity > 0,
        ensures
            ({
                let lvl = old(self).side_map(side)[price];
                let o = lvl.orders@[index as int];
                let k = live_pos(lvl.orders@, index as int);
                &&& completed == (o.quantity == q)
                &&& final(self).levels_wf()
                &&& ladder_view(final(self).side_map(side)) == levels(
                    reduce_order(old(self)@, side, price, k, q),
                    side,
                )
                &&& forall|id: u64, loc: OrderLocator|
                    old(self).locator_ok(id, loc) && !(completed && loc.side == side && loc.price
                        == price && loc.offset == lvl.head_offset + index) ==> #[trigger] final(self).locator_ok(id, loc)
            }),
            final(self).side_map(flip(side)) == old(self).side_map(flip(side)),
            final(self).order_index@ == old(self).order_index@,
            final(self).event_log@ == old(self).event_log@,
            final(self).live_orders == old(self).live_orders,
            final(self).inserted == old(self).inserted,
    {
        let ghost v = self@;
        let ghost lvl = self.side_map(side)[price];
        proof {
            self.lemma_level_ok(side, price);
            lemma_live_update(lvl.orders@, index as int, Order { quantity: (lvl.orders@[index as int].quantity - q) as u64, ..lvl.orders@[index as int] });
            lemma_split(lvl.orders@, index as int);
        }
        let mut level = self.take_level(side, price).unwrap();
        let order = level.orders[index];
        let updated = Order { quantity: order.quantity - q, ..order };
        set_order(&mut level.orders, index, updated);
        level.total_volume = level.total_volume - q;
        let ghost mid = level;
        Self::compact_front(&mut level);
        let ghost level_after = level;
        self.put_level(side, price, level);
        self.remove_level_if_empty(side, price);
        let completed = updated.quantity == 0;
        proof {
            let u = mid.orders@;
            let c = level_after.head_offset - mid.head_offset;
            let k = live_pos(lvl.orders@, index as int);
            assert(u == lvl.orders@.update(index as int, updated));
            lemma_live_members(level_after.orders@);
            lemma_qty_sum_positive(live(level_after.orders@));
            lemma_qty_sum_live(level_after.orders@);
            // a live order of the updated queue survives the compaction
            assert forall|j: int| 0 <= j < u.len() && (#[trigger] u[j]).quantity > 0 implies c <= j
                && level_after.orders@[j - c] == u[j] && level_after.total_volume > 0 by {
                if j < c {
                    assert(u[j].quantity == 0);
                }
                assert(level_after.orders@[j - c] == u[j]);
                lemma_split(u, j);
            }
            let m_new = self.side_map(side);
            let m_old = old(self).side_map(side);
            // the levels stay well formed
            assert forall|p: u64| #[trigger] m_new.contains_key(p) implies m_new[p].level_ok(
                side,
                p,
                self.inserted@,
            ) by {
                if p != price {
                    old(self).lemma_level_ok(side, p);
                } else {
                    assert(m_new[p] == level_after);
                    assert(level_after.total_volume != 0);
                    if level_after.orders@.len() == 0 {
                        assert(qty_sum(level_after.orders@) == 0);
                    }
                    assert forall|i: int| 0 <= i < level_after.orders@.len() implies (#[trigger] level_after.orders@[i]).side == side
                        && level_after.orders@[i].price == p by {
                        assert(level_after.orders@[i] == u[i + c]);
                        if i + c != index {
                            assert(u[i + c] == lvl.orders@[i + c]);
                        }
                    }
                }
            }
            assert forall|p: u64| #[trigger]
                self.side_map(flip(side)).contains_key(p) implies self.side_map(flip(side))[p].level_ok(
                flip(side),
                p,
                self.inserted@,
            ) by {
                old(self).lemma_level_ok(flip(side), p);
            }
            assert(self.levels_wf()) by {
                if side == Side::Bid {
                    assert(self.bids@ == m_new);
                } else {
                    assert(self.asks@ == m_new);
                }
            }
            // the live orders moved as the model says
            let v2 = reduce_order(v, side, price, k, q);
            old(self).lemma_view_levels(side);
            assert(levels(v, side)[price] == live(lvl.orders@));
            lemma_live_pos(lvl.orders@, index as int);
            assert(levels(v, side)[price][k] == order);
            let lvl2 = levels(v2, side);
            assert(ladder_view(m_new) =~= lvl2) by {
                if updated.quantity == 0 {
                    assert(live(level_after.orders@) == live(lvl.orders@).remove(k));
                } else {
                    assert(live(level_after.orders@) == live(lvl.orders@).update(k, updated));
                }
                if level_after.total_volume == 0 {
                    assert(live(level_after.orders@).len() == 0);
                } else {
                    assert(live(level_after.orders@).len() > 0);
                }
                lemma_levels_with(v, side, lvl2);
            }
            // every other live order keeps its index entry valid
            assert forall|id: u64, loc: OrderLocator|
                old(self).locator_ok(id, loc) && !(completed && loc.side == side && loc.price
                    == price && loc.offset == lvl.head_offset + index) implies #[trigger] self.locator_ok(
                id,
                loc,
            ) by {
                if loc.side == side && loc.price == price {
                    let j = loc.offset - lvl.head_offset;
                    if j != index {
                        assert(u[j] == lvl.orders@[j]);
                    }
                    assert(u[j].quantity > 0);
                }
            }
        }
        completed
    }

    /// Resolves an index entry to the position and the order it names.
    fn locate_order(&self, locator: OrderLocator) -> (r: Result<(usize, Order), OrderBookError>)
        ensures
            match r {
                Ok((index, order)) => {
                    &&& self.side_map(locator.side).contains_key(locator.price)
                    &&& index == locator.offset - self.side_map(locator.side)[locator.price].head_offset
                    &&& index < self.side_map(locator.side)[locator.price].orders@.len()
                    &&& order == self.side_map(locator.side)[locator.price].orders@[index as int]
                },
                Err(e) => e == OrderBookError::ReplayInvariantBroken,
            },
            forall|id: u64| #[trigger] self.locator_ok(id, locator) ==> r is Ok,
    {
        let level = match self.book_side(locator.side).get(&locator.price) {
            Some(level) => level,
            None => return Err(OrderBookError::ReplayInvariantBroken),
        };
        let index = match locator.offset.checked_sub(level.head_offset) {
            Some(index) => index,
            None => return Err(OrderBookError::ReplayInvariantBroken),
        };
        if index >= level.orders.len() {
            return Err(OrderBookError::ReplayInvariantBroken);
        }
        Ok((index, level.orders[index]))
    }

    /// The live order named by a valid index entry sits where the model finds it.
    proof fn lemma_locator_finds(&self, id: u64, locator: OrderLocator)
        requires
            self.wf(),
            self.locator_ok(id, locator),
        ensures
            ({
                let lvl = self.side_map(locator.side)[locator.price];
                let i = locator.offset - lvl.head_offset;
                &&& find(self@, id) == (locator.side, locator.price, live_pos(lvl.orders@, i))
                &&& levels(self@, locator.side)[locator.price][live_pos(lvl.orders@, i)] == lvl.orders@[i]
                &&& self@.indexed.contains(id)
            }),
    {
        let lvl = self.side_map(locator.side)[locator.price];
        let i = locator.offset - lvl.head_offset;
        self.lemma_view_levels(locator.side);
        lemma_live_pos(lvl.orders@, i);
        assert(locates(self@, id, locator.side, locator.price, live_pos(lvl.orders@, i)));
        lemma_find(self@, id, locator.side, locator.price, live_pos(lvl.orders@, i));
    }

    /// After `reduce_level` and the matching index update, the book is consistent and its
    /// view is the model's.
    proof fn lemma_reduced(
        old_book: OrderBook,
        new_book: OrderBook,
        id: u64,
        locator: OrderLocator,
        q: u64,
        completed: bool,
    )
        requires
            old_book.wf(),
            old_book.locator_ok(id, locator),
            ({
                let lvl = old_book.side_map(locator.side)[locator.price];
                let i = locator.offset - lvl.head_offset;
                let o = lvl.orders@[i];
                let k = live_pos(lvl.orders@, i);
                &&& q <= o.quantity
                &&& completed == (o.quantity == q)
                &&& new_book.levels_wf()
                &&& ladder_view(new_book.side_map(locator.side)) == levels(
                    reduce_order(old_book@, locator.side, locator.price, k, q),
                    locator.side,
                )
                &&& forall|id2: u64, loc: OrderLocator|
                    old_book.locator_ok(id2, loc) && !(completed && loc.side == locator.side
                        && loc.price == locator.price && loc.offset == lvl.head_offset + i) ==> #[trigger] new_book.locator_ok(id2, loc)
            }),
            new_book.side_map(flip(locator.side)) == old_book.side_map(flip(locator.side)),
            new_book.order_index@ == (if completed {
                old_book.order_index@.remove(id)
            } else {
                old_book.order_index@
            }),
            new_book.live_orders == (if completed {
                old_book.live_orders - 1
            } else {
                old_book.live_orders as int
            }),
            new_book.inserted == old_book.inserted,
            new_book.event_log@ == old_book.event_log@,
        ensures
            ({
                let lvl = old_book.side_map(locator.side)[locator.price];
                let i = locator.offset - lvl.head_offset;
                let k = live_pos(lvl.orders@, i);
                &&& new_book@ == reduce_order(old_book@, locator.side, locator.price, k, q)
                &&& new_book.wf()
            }),
    {
        let v = old_book@;
        let side = locator.side;
        let price = locator.price;
        let lvl = old_book.side_map(side)[price];
        let i = locator.offset - lvl.head_offset;
        let k = live_pos(lvl.orders@, i);
        old_book.lemma_locator_finds(id, locator);
        old_book.lemma_view_levels(side);
        lemma_live_pos(lvl.orders@, i);
        lemma_reduce_wf(v, side, price, k, q);
        let v2 = reduce_order(v, side, price, k, q);
        new_book.lemma_view_levels(side);
        new_book.lemma_view_levels(flip(side));
        old_book.lemma_view_levels(flip(side));
        assert(levels(new_book@, side) == levels(v2, side));
        assert(levels(new_book@, flip(side)) == levels(v2, flip(side)));
        assert(new_book@.bids == v2.bids && new_book@.asks == v2.asks) by {
            if side == Side::Bid {
            } else {
            }
        }
        assert(new_book@.indexed =~= v2.indexed);
        assert(new_book@ == v2);
        assert(new_book.index_wf()) by {
            assert forall|id2: u64| #[trigger] new_book.order_index@.contains_key(id2) implies new_book.locator_ok(
                id2,
                new_book.order_index@[id2],
            ) by {
                let loc = old_book.order_index@[id2];
                assert(old_book.locator_ok(id2, loc));
                if completed && loc.side == side && loc.price == price && loc.offset == lvl.head_offset + i {
                    assert(id2 == id);
                }
            }
        }
    }

    /// Cancels a live order by id in O(1) via the locator index and lazy tombstoning within the price level.
    pub fn cancel(&mut self, order_id: OrderId) -> (r: Result<CancelledOrder, OrderBookError>)
        requires
            old(self).wf(),
        ensures
            final(self).wf(),
            (final(self)@, r) == cancel_view(old(self)@, order_id),
            replays_to_itself(old(self)@) ==> replays_to_itself(final(self)@),
            uncrossed(old(self)@) ==> uncrossed(final(self)@),
    {
        let ghost v = self@;
        proof {
            self.lemma_wf_view();
            if replays_to_itself(v) {
                law_cancel_preserves_replay(v, order_id);
            }
            if uncrossed(v) {
                law_cancel_keeps_uncrossed(v, order_id);
            }
        }
        let locator = match self.order_index.remove(&order_id) {
            Some(locator) => locator,
            None => {
                proof {
                    assert(self.order_index@ =~= old(self).order_index@);
                }
                return Err(OrderBookError::UnknownOrder(order_id));
            },
        };
        proof {
            assert(old(self).locator_ok(order_id, locator));
            assert(self.side_map(locator.side) == old(self).side_map(locator.side));
            assert(self.locator_ok(order_id, locator));
            old(self).lemma_locator_finds(order_id, locator);
        }
        let (index, order) = match self.locate_order(locator) {
            Ok(found) => found,
            Err(e) => return Err(e),
        };
        if order.id != order_id || order.quantity == 0 {
            return Err(OrderBookError::ReplayInvariantBroken);
        }
        let cancelled = CancelledOrder {
            id: order.id,
            participant_id: order.participant_id,
            side: order.side,
            price: order.price,
            quantity: order.quantity,
        };
        let ghost removed = *self;
        let completed = self.reduce_level(locator.side, locator.price, index, order.quantity);
        let ghost reduced = *self;
        proof {
            assert(v.indexed.contains(order_id));
            assert(v.indexed.len() > 0);
        }
        self.live_orders = match self.live_orders.checked_sub(1) {
            Some(n) => n,
            None => return Err(OrderBookError::ReplayInvariantBroken),
        };
        proof {
            assert(removed.side_map(Side::Bid) == old(self).side_map(Side::Bid));
            assert(removed.side_map(Side::Ask) == old(self).side_map(Side::Ask));
            assert(levels(removed@, locator.side) == levels(v, locator.side));
            assert forall|id2: u64, loc: OrderLocator| #[trigger] old(self).locator_ok(id2, loc)
                implies removed.locator_ok(id2, loc) by {
                assert(removed.side_map(loc.side) == old(self).side_map(loc.side));
            }
            let lvl0 = old(self).side_map(locator.side)[locator.price];
            assert forall|id2: u64, loc: OrderLocator|
                old(self).locator_ok(id2, loc) && !(completed && loc.side == locator.side
                    && loc.price == locator.price && loc.offset == lvl0.head_offset + index) implies #[trigger] self.locator_ok(id2, loc) by {
                assert(removed.side_map(loc.side) == old(self).side_map(loc.side));
                assert(removed.locator_ok(id2, loc));
                assert(reduced.locator_ok(id2, loc));
                assert(self.side_map(loc.side) == reduced.side_map(loc.side));
            }
            Self::lemma_reduced(*old(self), *self, order_id, locator, order.quantity, completed);
        }
        self.record(Event::Cancelled(cancelled));
        Ok(cancelled)
    }

    /// Appends an event to the log.
    fn record(&mut self, event: Event)
        requires
            old(self).wf(),
        ensures
            final(self).wf(),
            final(self)@ == log_push(old(self)@, event),
    {
        self.event_log.push(event);
        proof {
            lemma_log_push_wf(old(self)@, event);
            assert(self@ =~= log_push(old(self)@, event));
        }
    }

    /// Resolves an execution against the resting order it names.
    fn apply_execution(&mut self, execution: Execution) -> (r: Result<(), OrderBookError>)
        requires
            old(self).wf(),
        ensures
            final(self).wf(),
            match execute_view(old(self)@, execution) {
                Ok(v2) => r == Ok::<(), OrderBookError>(()) && final(self)@ == v2,
                Err(e) => r == Err::<(), OrderBookError>(e) && final(self)@ == old(self)@,
            },
    {
        let ghost v = self@;
        let locator = match self.order_index.get(&execution.maker_order_id) {
            Some(locator) => *locator,
            None => return Err(OrderBookError::ReplayInvariantBroken),
        };
        proof {
            assert(self.locator_ok(execution.maker_order_id, locator));
            self.lemma_locator_finds(execution.maker_order_id, locator);
        }
        let (index, order) = match self.locate_order(locator) {
            Ok(found) => found,
            Err(e) => return Err(e),
        };
        if order.id != execution.maker_order_id || order.price != execution.price
            || execution.quantity > order.quantity {
            return Err(OrderBookError::ReplayInvariantBroken);
        }
        let completed = self.reduce_level(locator.side, locator.price, index, execution.quantity);
        let ghost reduced = *self;
        if completed {
            self.order_index.remove(&execution.maker_order_id);
            proof {
                assert(v.indexed.contains(execution.maker_order_id));
                assert(v.indexed.len() > 0);
            }
            self.live_orders = match self.live_orders.checked_sub(1) {
                Some(n) => n,
                None => return Err(OrderBookError::ReplayInvariantBroken),
            };
        }
        proof {
            let lvl0 = old(self).side_map(locator.side)[locator.price];
            assert forall|id2: u64, loc: OrderLocator|
                old(self).locator_ok(id2, loc) && !(completed && loc.side == locator.side
                    && loc.price == locator.price && loc.offset == lvl0.head_offset + index) implies #[trigger] self.locator_ok(id2, loc) by {
                assert(reduced.locator_ok(id2, loc));
                assert(self.side_map(loc.side) == reduced.side_map(loc.side));
            }
            Self::lemma_reduced(*old(self), *self, execution.maker_order_id, locator, execution.quantity, completed);
        }
        Ok(())
    }

    /// Resolves a recorded cancellation against the resting order it names.
    fn apply_cancel(&mut self, cancelled: CancelledOrder) -> (r: Result<(), OrderBookError>)
        requires
            old(self).wf(),
        ensures
            (final(self)@, r) == cancel_event_view(old(self)@, cancelled),
            r is Ok || final(self)@ == old(self)@ ==> final(self).wf(),
    {
        let ghost v = self@;
        let locator = match self.order_index.remove(&cancelled.id) {
            Some(locator) => locator,
            None => {
                proof {
                    assert(self.order_index@ =~= old(self).order_index@);
                }
                return Err(OrderBookError::ReplayInvariantBroken);
            },
        };
        proof {
            assert(old(self).locator_ok(cancelled.id, locator));
            assert(self.side_map(locator.side) == old(self).side_map(locator.side));
            assert(self.locator_ok(cancelled.id, locator));
            old(self).lemma_locator_finds(cancelled.id, locator);
        }
        let (index, order) = match self.locate_order(locator) {
            Ok(found) => found,
            Err(e) => return Err(e),
        };
        if order.id != cancelled.id || order.quantity != cancelled.quantity {
            proof {
                assert(self@ =~= BookView { indexed: v.indexed.remove(cancelled.id), ..v });
                assert(self@ != v) by {
                    assert(!self@.indexed.contains(cancelled.id));
                }
            }
            return Err(OrderBookError::ReplayInvariantBroken);
        }
        let ghost removed = *self;
        let completed = self.reduce_level(locator.side, locator.price, index, order.quantity);
        let ghost reduced = *self;
        proof {
            assert(v.indexed.contains(cancelled.id));
            assert(v.indexed.len() > 0);
        }
        self.live_orders = match self.live_orders.checked_sub(1) {
            Some(n) => n,
            None => return Err(OrderBookError::ReplayInvariantBroken),
        };
        proof {
            let lvl0 = old(self).side_map(locator.side)[locator.price];
            assert(removed.side_map(Side::Bid) == old(self).side_map(Side::Bid));
            assert(removed.side_map(Side::Ask) == old(self).side_map(Side::Ask));
            assert(levels(removed@, locator.side) == levels(v, locator.side));
            assert forall|id2: u64, loc: OrderLocator|
                old(self).locator_ok(id2, loc) && !(completed && loc.side == locator.side
                    && loc.price == locator.price && loc.offset == lvl0.head_offset + index) implies #[trigger] self.locator_ok(id2, loc) by {
                assert(removed.side_map(loc.side) == old(self).side_map(loc.side));
                assert(removed.locator_ok(id2, loc));
                assert(reduced.locator_ok(id2, loc));
                assert(self.side_map(loc.side) == reduced.side_map(loc.side));
            }
            Self::lemma_reduced(*old(self), *self, cancelled.id, locator, order.quantity, completed);
        }
        Ok(())
    }

    fn validate_request(&self, order_id: OrderId, quantity: Quantity) -> (r: Result<(), OrderBookError>)
        ensures
            r == (if quantity == 0 {
                Err(OrderBookError::InvalidQuantity)
            } else if self@.indexed.contains(order_id) {
                Err(OrderBookError::DuplicateOrderId(order_id))
            } else {
                Ok(())
            }),
    {
        if quantity == 0 {
            return Err(OrderBookError::InvalidQuantity);
        }
        if self.order_index.contains_key(&order_id) {
            return Err(OrderBookError::DuplicateOrderId(order_id));
        }
        Ok(())
    }

    /// Rebuilds the order book from a deterministic stream of state events.
    pub fn replay(events: Vec<Event>) -> (r: Result<Self, OrderBookError>)
        requires
            replay_fits(events@),
        ensures
            match replay_view(events@) {
                Ok(v) => r matches Ok(book) && book.wf() && book@ == v,
                Err(e) => r == Err::<OrderBook, OrderBookError>(e),
            },
    {
        let mut book = Self::default();
        let mut i: usize = 0;
        proof {
            assert(events@.take(0) =~= Seq::<Event>::empty());
        }
        while i < events.len()
            invariant
                i <= events.len(),
                book.wf(),
                replay_view(events@.take(i as int)) == Ok::<BookView, OrderBookError>(book@),
                replay_fits(events@),
                book@.inserted <= i,
            decreases events.len() - i,
        {
            let event = events[i];
            proof {
                let pre = events@.take(i as int + 1);
                assert(pre.drop_last() =~= events@.take(i as int));
                assert(pre.last() == event);
                lemma_replay_fits_prefix(events@, i as int + 1);
            }
            match book.apply(event) {
                Ok(()) => {},
                Err(e) => {
                    proof {
                        lemma_replay_err_extends(events@, i as int + 1);
                    }
                    return Err(e);
                },
            }
            book.record(event);
            i = i + 1;
        }
        proof {
            assert(events@.take(i as int) =~= events@);
        }
        Ok(book)
    }

    /// Applies a previously recorded state event without running matching logic.
    pub fn apply(&mut self, event: Event) -> (r: Result<(), OrderBookError>)
        requires
            old(self).wf(),
            accept_fits(old(self)@, event),
            event is Accepted ==> old(self)@.inserted < usize::MAX,
        ensures
            (final(self)@, r) == apply_view(old(self)@, event),
            r is Ok || final(self)@ == old(self)@ ==> final(self).wf(),
    {
        match event {
            Event::Accepted(order) => {
                match self.validate_request(order.id, order.quantity) {
                    Ok(()) => {},
                    Err(e) => return Err(e),
                }
                self.insert_resting_order(order);
                Ok(())
            },
            Event::Executed(execution) => {
                let r = self.apply_execution(execution);
                assert((self@, r) == apply_view(old(self)@, event));
                r
            },
            Event::Cancelled(cancelled) => {
                let r = self.apply_cancel(cancelled);
                assert((self@, r) == apply_view(old(self)@, event));
                r
            },
        }
    }

    /// Two books whose levels agree on their queues, aggregates and offsets, and whose other
    /// parts agree, are equally consistent and look the same.
    proof fn lemma_same_shape(a: OrderBook, b: OrderBook)
        requires
            forall|side: Side| #[trigger] a.side_map(side).dom() == b.side_map(side).dom(),
            forall|side: Side, p: u64| #[trigger] a.side_map(side).contains_key(p) ==> {
                &&& a.side_map(side)[p].orders@ == b.side_map(side)[p].orders@
                &&& a.side_map(side)[p].total_volume == b.side_map(side)[p].total_volume
                &&& a.side_map(side)[p].head_offset == b.side_map(side)[p].head_offset
            },
            a.order_index@ == b.order_index@,
            a.event_log@ == b.event_log@,
            a.live_orders == b.live_orders,
            a.inserted == b.inserted,
        ensures
            a@ == b@,
            a.wf() == b.wf(),
    {
        assert(a.side_map(Side::Bid).dom() == b.side_map(Side::Bid).dom());
        assert(a.side_map(Side::Ask).dom() == b.side_map(Side::Ask).dom());
        assert(ladder_view(a.bids@) =~= ladder_view(b.bids@)) by {
            assert forall|p: u64| #[trigger] a.bids@.contains_key(p) implies a.bids@[p].orders@
                == b.bids@[p].orders@ by {
                assert(a.side_map(Side::Bid).contains_key(p));
            }
        }
        assert(ladder_view(a.asks@) =~= ladder_view(b.asks@)) by {
            assert forall|p: u64| #[trigger] a.asks@.contains_key(p) implies a.asks@[p].orders@
                == b.asks@[p].orders@ by {
                assert(a.side_map(Side::Ask).contains_key(p));
            }
        }
        assert(a@ == b@);
        assert(a.levels_wf() == b.levels_wf()) by {
            assert forall|side: Side, p: u64| #[trigger] a.side_map(side).contains_key(p) implies
                a.side_map(side)[p].level_ok(side, p, a.inserted@) == b.side_map(side)[p].level_ok(
                side,
                p,
                b.inserted@,
            ) by {
            }
            if a.levels_wf() {
                assert forall|p: u64| #[trigger] b.bids@.contains_key(p) implies b.bids@[p].level_ok(
                    Side::Bid,
                    p,
                    b.inserted@,
                ) by {
                    assert(a.side_map(Side::Bid).contains_key(p));
                }
                assert forall|p: u64| #[trigger] b.asks@.contains_key(p) implies b.asks@[p].level_ok(
                    Side::Ask,
                    p,
                    b.inserted@,
                ) by {
                    assert(a.side_map(Side::Ask).contains_key(p));
                }
            }
            if b.levels_wf() {
                assert forall|p: u64| #[trigger] a.bids@.contains_key(p) implies a.bids@[p].level_ok(
                    Side::Bid,
                    p,
                    a.inserted@,
                ) by {
                    assert(a.side_map(Side::Bid).contains_key(p));
                }
                assert forall|p: u64| #[trigger] a.asks@.contains_key(p) implies a.asks@[p].level_ok(
                    Side::Ask,
                    p,
                    a.inserted@,
                ) by {
                    assert(a.side_map(Side::Ask).contains_key(p));
                }
            }
        }
        assert forall|id: u64, loc: OrderLocator| #[trigger] a.locator_ok(id, loc) == b.locator_ok(id, loc) by {
            if a.side_map(loc.side).contains_key(loc.price) {
            }
        }
        assert(a.index_wf() == b.index_wf()) by {
            if a.index_wf() {
                assert forall|id: u64| #[trigger] b.order_index@.contains_key(id) implies b.locator_ok(
                    id,
                    b.order_index@[id],
                ) by {
                    assert(a.locator_ok(id, a.order_index@[id]));
                }
            }
            if b.index_wf() {
                assert forall|id: u64| #[trigger] a.order_index@.contains_key(id) implies a.locator_ok(
                    id,
                    a.order_index@[id],
                ) by {
                    assert(b.locator_ok(id, b.order_index@[id]));
                }
            }
        }
    }

    /// Returns the front order of a level, after dropping the dead orders in front of it.
    fn peek_front(&mut self, side: Side, price: Price) -> (r: Option<Order>)
        requires
            old(self).wf(),
        ensures
            final(self).wf(),
            final(self)@ == old(self)@,
            r == (if levels(old(self)@, side).contains_key(price) {
                Some(levels(old(self)@, side)[price][0])
            } else {
                None
            }),
    {
        proof {
            self.lemma_view_levels(side);
        }
        let mut level = match self.take_level(side, price) {
            Some(level) => level,
            None => {
                proof {
                    assert(self.side_map(side) =~= old(self).side_map(side));
                    assert forall|s: Side| #[trigger] self.side_map(s).dom() == old(self).side_map(s).dom() by {
                        if s != side {
                            assert(s == flip(side));
                        }
                    }
                    Self::lemma_same_shape(*self, *old(self));
                }
                return None;
            },
        };
        proof {
            old(self).lemma_level_ok(side, price);
        }
        Self::compact_front(&mut level);
        let front = if level.orders.len() > 0 {
            Some(level.orders[0])
        } else {
            None
        };
        let ghost level_after = level;
        self.put_level(side, price, level);
        proof {
            old(self).lemma_level_ok(side, price);
            let before = old(self).side_map(side)[price];
            assert(level_after.head_offset == before.head_offset) by {
                if level_after.head_offset > before.head_offset {
                    assert(before.orders@[0].quantity == 0);
                }
            }
            assert(level_after.orders@ =~= before.orders@);
            lemma_live_front(before.orders@);
            assert(self.side_map(side).dom() =~= old(self).side_map(side).dom());
            assert forall|s: Side| #[trigger] self.side_map(s).dom() == old(self).side_map(s).dom() by {
                if s != side {
                    assert(s == flip(side));
                }
            }
            assert forall|s: Side, p: u64| #[trigger] self.side_map(s).contains_key(p) implies {
                &&& self.side_map(s)[p].orders@ == old(self).side_map(s)[p].orders@
                &&& self.side_map(s)[p].total_volume == old(self).side_map(s)[p].total_volume
                &&& self.side_map(s)[p].head_offset == old(self).side_map(s)[p].head_offset
            } by {
                if s != side {
                    assert(s == flip(side));
                }
            }
            Self::lemma_same_shape(*self, *old(self));
        }
        front
    }

    /// The best price resting on `side`: the highest bid or the lowest ask.
    fn best_price_for(&self, side: Side) -> (r: Option<Price>)
        ensures
            r == best_price(levels(self@, side), side),
    {
        proof {
            self.lemma_view_levels(side);
        }
        let r = match side {
            Side::Bid => last_price(&self.bids),
            Side::Ask => first_price(&self.asks),
        };
        proof {
            let m = levels(self@, side);
            match r {
                Some(k) => {
                    assert(is_best(m, side, k));
                    let c = choose|p: u64| is_best(m, side, p);
                    assert(is_best(m, side, c));
                    assert(m.contains_key(k) && m.contains_key(c));
                },
                None => {
                    assert forall|p: u64| !is_best(m, side, p) by {
                        assert(!m.dom().contains(p));
                    }
                },
            }
        }
        r
    }

    /// Whether a resting price on the other side is acceptable to an order with this limit.
    fn price_crosses(side: Side, limit_price: Price, book_price: Price) -> (r: bool)
        ensures
            r == crosses(side, limit_price, book_price),
    {
        match side {
            Side::Bid => book_price <= limit_price,
            Side::Ask => book_price >= limit_price,
        }
    }

    /// The best price of a side and the quantity resting there.
    fn best_level(&self, side: Side) -> (r: Option<(Price, Quantity)>)
        requires
            self.wf(),
        ensures
            r == match best_price(levels(self@, side), side) {
                Some(p) => Some((p, level_volume(self@, side, p) as u64)),
                None => None::<(u64, u64)>,
            },
            r matches Some((p, volume)) ==> volume == level_volume(self@, side, p),
    {
        match self.best_price_for(side) {
            Some(price) => {
                proof {
                    self.lemma_view_levels(side);
                    self.lemma_level_volume(side, price);
                }
                let level = self.book_side(side).get(&price).unwrap();
                Some((price, level.total_volume))
            },
            None => None,
        }
    }

    /// Returns the best bid and its aggregated level volume.
    pub fn best_bid(&self) -> (r: Option<(Price, Quantity)>)
        requires
            self.wf(),
        ensures
            r == match best_price(self@.bids, Side::Bid) {
                Some(p) => Some((p, level_volume(self@, Side::Bid, p) as u64)),
                None => None::<(u64, u64)>,
            },
            r matches Some((p, volume)) ==> volume == level_volume(self@, Side::Bid, p),
    {
        self.best_level(Side::Bid)
    }

    /// Returns the best ask and its aggregated level volume.
    pub fn best_ask(&self) -> (r: Option<(Price, Quantity)>)
        requires
            self.wf(),
        ensures
            r == match best_price(self@.asks, Side::Ask) {
                Some(p) => Some((p, level_volume(self@, Side::Ask, p) as u64)),
                None => None::<(u64, u64)>,
            },
            r matches Some((p, volume)) ==> volume == level_volume(self@, Side::Ask, p),
    {
        self.best_level(Side::Ask)
    }

    /// Returns the number of currently live resting orders.
    pub fn total_resting_orders(&self) -> (r: usize)
        ensures
            r == self@.resting,
    {
        self.live_orders
    }

    /// Returns the event-sourced state transition log.
    pub fn event_log(&self) -> (r: &[Event])
        ensures
            r@ == self@.log,
    {
        self.event_log.as_slice()
    }

    /// Adds a limit order, immediately matches crossed liquidity, and rests any remainder.
    pub fn submit_limit(&mut self, request: NewOrderRequest) -> (r: Result<
        SubmissionOutcome,
        OrderBookError,
    >)
        requires
            old(self).wf(),
            old(self)@.resting < execution_capacity(),
            limit_fits(old(self)@, request),
        ensures
            final(self).wf(),
            final(self)@ == submit_view(old(self)@, limit_taker(request), request.quantity).0,
            outcome_matches(r, submit_view(old(self)@, limit_taker(request), request.quantity).1),
            replays_to_itself(old(self)@) ==> replays_to_itself(final(self)@),
            uncrossed(old(self)@) ==> uncrossed(final(self)@),
    {
        let ghost v0 = self@;
        let ghost t = limit_taker(request);
        proof {
            self.lemma_wf_view();
            if replays_to_itself(v0) {
                law_submission_preserves_replay(v0, t, request.quantity);
            }
            if uncrossed(v0) {
                law_submission_keeps_uncrossed(v0, t, request.quantity);
            }
        }
        match self.validate_request(request.id, request.quantity) {
            Ok(()) => {},
            Err(e) => return Err(e),
        }
        let mut remaining = request.quantity;
        let mut executions = ExecutionVec::new();
        let opposite = request.side.opposite();
        while remaining > 0
            invariant
                self.wf(),
                t == limit_taker(request),
                v0 == old(self)@,
                replays_to_itself(v0) ==> replays_to_itself(submit_view(v0, t, request.quantity).0),
                uncrossed(v0) ==> uncrossed(submit_view(v0, t, request.quantity).0),
                opposite == flip(request.side),
                request.quantity > 0,
                !v0.indexed.contains(request.id),
                fill(self@, t, remaining, execution_items(executions)) == fill(
                    v0,
                    t,
                    request.quantity,
                    Seq::empty(),
                ),
                !self@.indexed.contains(request.id),
                self@.inserted == v0.inserted,
                v0.resting < execution_capacity(),
                remaining > 0 ==> execution_items(executions).len() + self@.resting <= v0.resting,
            ensures
                self.wf(),
                fill(self@, t, remaining, execution_items(executions)) == (Fill::Done {
                    view: self@,
                    executions: execution_items(executions),
                    remaining,
                }),
                fill(self@, t, remaining, execution_items(executions)) == fill(
                    v0,
                    t,
                    request.quantity,
                    Seq::empty(),
                ),
                !self@.indexed.contains(request.id),
                self@.inserted == v0.inserted,
            decreases remaining,
        {
            let ghost v = self@;
            let ghost ex0 = execution_items(executions);
            let best_price = match self.best_price_for(opposite) {
                Some(price) => price,
                None => break,
            };
            if !Self::price_crosses(request.side, request.price, best_price) {
                break;
            }
            proof {
                assert(is_best(levels(v, opposite), opposite, best_price));
            }
            let resting = match self.peek_front(opposite, best_price) {
                Some(order) => order,
                None => {
                    self.remove_level_if_empty(opposite, best_price);
                    continue;
                },
            };
            if resting.participant_id == request.participant_id {
                proof {
                    assert(crosses(request.side, request.price, best_price));
                    assert(fill(self@, t, remaining, execution_items(executions)) == (Fill::SelfTrade {
                        view: self@,
                        resting_order_id: resting.id,
                    }));
                }
                return Err(
                    OrderBookError::SelfTrade {
                        resting_order_id: resting.id,
                        incoming_order_id: request.id,
                    },
                );
            }
            proof {
                lemma_order_facts(v, opposite, best_price, 0);
                lemma_find(v, resting.id, opposite, best_price, 0);
            }
            let traded = if remaining <= resting.quantity {
                remaining
            } else {
                resting.quantity
            };
            let execution = Execution::new(resting.id, request.id, best_price, traded);
            executions.push(execution);
            match self.apply_execution(execution) {
                Ok(()) => {},
                Err(e) => return Err(e),
            }
            proof {
                lemma_reduce_wf(v, opposite, best_price, 0, traded);
            }
            self.record(Event::Executed(execution));
            remaining = remaining - traded;
            proof {
                assert(execution_items(executions) == ex0.push(execution));
            }
        }
        let mut resting_order_id = None;
        if remaining > 0 {
            let order = Order {
                id: request.id,
                participant_id: request.participant_id,
                side: request.side,
                price: request.price,
                quantity: remaining,
            };
            self.insert_resting_order(order);
            self.record(Event::Accepted(order));
            resting_order_id = Some(request.id);
        }
        Ok(SubmissionOutcome { executions, resting_order_id, unfilled_quantity: remaining })
    }

    /// Executes a market order against the best available liquidity until the requested size is filled or the book is empty.
    pub fn submit_market(&mut self, request: MarketOrderRequest) -> (r: Result<
        SubmissionOutcome,
        OrderBookError,
    >)
        requires
            old(self).wf(),
            old(self)@.resting < execution_capacity(),
        ensures
            final(self).wf(),
            final(self)@ == submit_view(old(self)@, market_taker(request), request.quantity).0,
            outcome_matches(r, submit_view(old(self)@, market_taker(request), request.quantity).1),
            replays_to_itself(old(self)@) ==> replays_to_itself(final(self)@),
            uncrossed(old(self)@) ==> uncrossed(final(self)@),
    {
        let ghost v0 = self@;
        let ghost t = market_taker(request);
        proof {
            self.lemma_wf_view();
            if replays_to_itself(v0) {
                law_submission_preserves_replay(v0, t, request.quantity);
            }
            if uncrossed(v0) {
                law_submission_keeps_uncrossed(v0, t, request.quantity);
            }
        }
        match self.validate_request(request.id, request.quantity) {
            Ok(()) => {},
            Err(e) => return Err(e),
        }
        let mut remaining = request.quantity;
        let mut executions = ExecutionVec::new();
        let opposite = request.side.opposite();
        while remaining > 0
            invariant
                self.wf(),
                t == market_taker(request),
                v0 == old(self)@,
                replays_to_itself(v0) ==> replays_to_itself(submit_view(v0, t, request.quantity).0),
                uncrossed(v0) ==> uncrossed(submit_view(v0, t, request.quantity).0),
                opposite == flip(request.side),
                request.quantity > 0,
                !v0.indexed.contains(request.id),
                fill(self@, t, remaining, execution_items(executions)) == fill(
                    v0,
                    t,
                    request.quantity,
                    Seq::empty(),
                ),
                self@.inserted == v0.inserted,
                v0.resting < execution_capacity(),
                remaining > 0 ==> execution_items(executions).len() + self@.resting <= v0.resting,
            ensures
                self.wf(),
                fill(self@, t, remaining, execution_items(executions)) == (Fill::Done {
                    view: self@,
                    executions: execution_items(executions),
                    remaining,
                }),
                fill(self@, t, remaining, execution_items(executions)) == fill(
                    v0,
                    t,
                    request.quantity,
                    Seq::empty(),
                ),
            decreases remaining,
        {
            let ghost v = self@;
            let ghost ex0 = execution_items(executions);
            let best_price = match self.best_price_for(opposite) {
                Some(price) => price,
                None => break,
            };
            proof {
                assert(is_best(levels(v, opposite), opposite, best_price));
            }
            let resting = match self.peek_front(opposite, best_price) {
                Some(order) => order,
                None => {
                    self.remove_level_if_empty(opposite, best_price);
                    continue;
                },
            };
            if resting.participant_id == request.participant_id {
                proof {
                    assert(fill(self@, t, remaining, execution_items(executions)) == (Fill::SelfTrade {
                        view: self@,
                        resting_order_id: resting.id,
                    }));
                }
                return Err(
                    OrderBookError::SelfTrade {
                        resting_order_id: resting.id,
                        incoming_order_id: request.id,
                    },
                );
            }
            proof {
                lemma_order_facts(v, opposite, best_price, 0);
                lemma_find(v, resting.id, opposite, best_price, 0);
            }
            let traded = if remaining <= resting.quantity {
                remaining
            } else {
                resting.quantity
            };
            let execution = Execution::new(resting.id, request.id, best_price, traded);
            executions.push(execution);
            match self.apply_execution(execution) {
                Ok(()) => {},
                Err(e) => return Err(e),
            }
            proof {
                lemma_reduce_wf(v, opposite, best_price, 0, traded);
            }
            self.record(Event::Executed(execution));
            remaining = remaining - traded;
            proof {
                assert(execution_items(executions) == ex0.push(execution));
            }
        }
        Ok(SubmissionOutcome { executions, resting_order_id: None, unfilled_quantity: remaining })
    }

    /// Removes the level at `price` from `side` once nothing rests there.
    fn remove_level_if_empty(&mut self, side: Side, price: Price)
        ensures
            final(self).side_map(side) == (if old(self).side_map(side).contains_key(price)
                && old(self).side_map(side)[price].total_volume == 0 {
                old(self).side_map(side).remove(price)
            } else {
                old(self).side_map(side)
            }),
            final(self).side_map(flip(side)) == old(self).side_map(flip(side)),
            final(self).order_index@ == old(self).order_index@,
            final(self).event_log@ == old(self).event_log@,
            final(self).live_orders == old(self).live_orders,
            final(self).inserted == old(self).inserted,
    {
        let should_remove = match self.book_side(side).get(&price) {
            Some(level) => level.total_volume == 0,
            None => false,
        };
        if should_remove {
            let _ = self.take_level(side, price);
        }
    }
}

} // verus!
