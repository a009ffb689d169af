use lob_engine::{
    CancelledOrder, Event, Execution, MarketOrderRequest, NewOrderRequest, Order, OrderBook,
    OrderBookError, Side,
};

fn limit(id: u64, participant_id: u32, side: Side, price: u64, quantity: u64) -> NewOrderRequest {
    NewOrderRequest { id, participant_id, side, price, quantity }
}

fn market(id: u64, participant_id: u32, side: Side, quantity: u64) -> MarketOrderRequest {
    MarketOrderRequest { id, participant_id, side, quantity }
}

#[test]
fn replaying_the_log_rebuilds_the_book() {
    let mut book = OrderBook::default();
    book.submit_limit(limit(1, 1, Side::Ask, 100, 5)).unwrap();
    book.submit_limit(limit(2, 2, Side::Ask, 101, 7)).unwrap();
    book.submit_limit(limit(3, 3, Side::Bid, 98, 4)).unwrap();
    book.submit_limit(limit(4, 4, Side::Bid, 100, 8)).unwrap();
    book.submit_market(market(5, 5, Side::Bid, 2)).unwrap();
    book.cancel(3).unwrap();
    book.submit_limit(limit(6, 6, Side::Bid, 97, 1)).unwrap();

    let rebuilt = OrderBook::replay(book.event_log().to_vec()).expect("replay should succeed");
    assert_eq!(rebuilt.best_bid(), book.best_bid());
    assert_eq!(rebuilt.best_ask(), book.best_ask());
    assert_eq!(rebuilt.total_resting_orders(), book.total_resting_orders());
    assert_eq!(rebuilt.event_log(), book.event_log());
    assert_eq!(book.best_bid(), Some((100, 3)));
    assert_eq!(book.best_ask(), Some((101, 5)));
    assert_eq!(book.total_resting_orders(), 3);
}

#[test]
fn event_log_records_each_state_change() {
    let mut book = OrderBook::default();
    book.submit_limit(limit(1, 1, Side::Ask, 100, 5)).unwrap();
    book.submit_limit(limit(2, 2, Side::Bid, 100, 7)).unwrap();
    book.cancel(2).unwrap();
    assert_eq!(
        book.event_log(),
        &[
            Event::Accepted(Order { id: 1, participant_id: 1, side: Side::Ask, price: 100, quantity: 5 }),
            Event::Executed(Execution::new(1, 2, 100, 5)),
            Event::Accepted(Order { id: 2, participant_id: 2, side: Side::Bid, price: 100, quantity: 2 }),
            Event::Cancelled(CancelledOrder { id: 2, participant_id: 2, side: Side::Bid, price: 100, quantity: 2 }),
        ]
    );
}

#[test]
fn executions_plus_unfilled_add_up_to_the_quantity() {
    let mut book = OrderBook::default();
    book.submit_limit(limit(1, 1, Side::Bid, 100, 3)).unwrap();
    book.submit_limit(limit(2, 2, Side::Bid, 99, 4)).unwrap();
    book.submit_limit(limit(3, 3, Side::Bid, 98, 5)).unwrap();
    let out = book.submit_limit(limit(4, 4, Side::Ask, 99, 10)).unwrap();
    let filled: u64 = out.executions.as_slice().iter().map(|e| e.quantity).sum();
    assert_eq!(filled + out.unfilled_quantity, 10);
    assert_eq!(
        out.executions.as_slice(),
        &[Execution::new(1, 4, 100, 3), Execution::new(2, 4, 99, 4)]
    );
    assert_eq!(out.unfilled_quantity, 3);
    assert_eq!(out.resting_order_id, Some(4));
    // the rested remainder does not cross what is left on the other side
    assert_eq!(book.best_bid(), Some((98, 5)));
    assert_eq!(book.best_ask(), Some((99, 3)));
}

#[test]
fn limit_price_bounds_every_execution() {
    let mut book = OrderBook::default();
    book.submit_limit(limit(1, 1, Side::Ask, 100, 2)).unwrap();
    book.submit_limit(limit(2, 2, Side::Ask, 105, 2)).unwrap();
    let out = book.submit_limit(limit(3, 3, Side::Bid, 102, 5)).unwrap();
    assert_eq!(out.executions.as_slice(), &[Execution::new(1, 3, 100, 2)]);
    assert!(out.executions.as_slice().iter().all(|e| e.price <= 102 && e.taker_order_id == 3));
    assert_eq!(out.unfilled_quantity, 3);
    assert_eq!(book.best_bid(), Some((102, 3)));
    assert_eq!(book.best_ask(), Some((105, 2)));
}

#[test]
fn market_order_never_rests() {
    let mut book = OrderBook::default();
    book.submit_limit(limit(1, 1, Side::Ask, 100, 2)).unwrap();
    let out = book.submit_market(market(2, 2, Side::Bid, 5)).unwrap();
    assert_eq!(out.resting_order_id, None);
    assert_eq!(out.unfilled_quantity, 3);
    assert_eq!(book.best_bid(), None);
    assert_eq!(book.best_ask(), None);
    assert_eq!(book.total_resting_orders(), 0);
}

#[test]
fn market_order_on_empty_book_fills_nothing() {
    let mut book = OrderBook::default();
    let out = book.submit_market(market(1, 1, Side::Ask, 4)).unwrap();
    assert!(out.executions.as_slice().is_empty());
    assert_eq!(out.unfilled_quantity, 4);
    assert_eq!(out.resting_order_id, None);
    assert!(book.event_log().is_empty());
}

#[test]
fn cancelling_twice_reports_unknown_order() {
    let mut book = OrderBook::default();
    book.submit_limit(limit(1, 1, Side::Bid, 100, 2)).unwrap();
    let first = book.cancel(1).unwrap();
    assert_eq!(first, CancelledOrder { id: 1, participant_id: 1, side: Side::Bid, price: 100, quantity: 2 });
    assert_eq!(book.cancel(1), Err(OrderBookError::UnknownOrder(1)));
}

#[test]
fn cancel_in_the_middle_of_a_level_keeps_fifo() {
    let mut book = OrderBook::default();
    book.submit_limit(limit(1, 1, Side::Ask, 100, 1)).unwrap();
    book.submit_limit(limit(2, 2, Side::Ask, 100, 2)).unwrap();
    book.submit_limit(limit(3, 3, Side::Ask, 100, 3)).unwrap();
    book.cancel(2).unwrap();
    assert_eq!(book.best_ask(), Some((100, 4)));
    let out = book.submit_limit(limit(4, 4, Side::Bid, 100, 4)).unwrap();
    assert_eq!(
        out.executions.as_slice(),
        &[Execution::new(1, 4, 100, 1), Execution::new(3, 4, 100, 3)]
    );
    assert_eq!(book.best_ask(), None);
    assert_eq!(book.total_resting_orders(), 0);
}

#[test]
fn zero_quantity_is_rejected_without_change() {
    let mut book = OrderBook::default();
    assert_eq!(book.submit_limit(limit(1, 1, Side::Bid, 100, 0)), Err(OrderBookError::InvalidQuantity));
    assert_eq!(book.submit_market(market(2, 1, Side::Bid, 0)), Err(OrderBookError::InvalidQuantity));
    assert!(book.event_log().is_empty());
    assert_eq!(book.total_resting_orders(), 0);
}

#[test]
fn duplicate_live_id_is_rejected_without_change() {
    let mut book = OrderBook::default();
    book.submit_limit(limit(1, 1, Side::Bid, 100, 2)).unwrap();
    assert_eq!(
        book.submit_limit(limit(1, 2, Side::Ask, 90, 2)),
        Err(OrderBookError::DuplicateOrderId(1))
    );
    assert_eq!(
        book.submit_market(market(1, 2, Side::Ask, 2)),
        Err(OrderBookError::DuplicateOrderId(1))
    );
    assert_eq!(book.best_bid(), Some((100, 2)));
    assert_eq!(book.event_log().len(), 1);
}

#[test]
fn filled_order_id_can_be_used_again() {
    let mut book = OrderBook::default();
    book.submit_limit(limit(1, 1, Side::Bid, 100, 2)).unwrap();
    book.submit_limit(limit(2, 2, Side::Ask, 100, 2)).unwrap();
    assert_eq!(book.total_resting_orders(), 0);
    let out = book.submit_limit(limit(1, 3, Side::Ask, 101, 1)).unwrap();
    assert_eq!(out.resting_order_id, Some(1));
}

#[test]
fn self_trade_after_partial_fill_keeps_earlier_executions() {
    let mut book = OrderBook::default();
    book.submit_limit(limit(1, 1, Side::Ask, 100, 2)).unwrap();
    book.submit_limit(limit(2, 9, Side::Ask, 101, 2)).unwrap();
    let err = book.submit_limit(limit(3, 9, Side::Bid, 101, 5)).unwrap_err();
    assert_eq!(err, OrderBookError::SelfTrade { resting_order_id: 2, incoming_order_id: 3 });
    assert_eq!(book.best_ask(), Some((101, 2)));
    assert_eq!(book.best_bid(), None);
    assert_eq!(book.event_log().last(), Some(&Event::Executed(Execution::new(1, 3, 100, 2))));
}

#[test]
fn market_self_trade_is_rejected() {
    let mut book = OrderBook::default();
    book.submit_limit(limit(1, 4, Side::Bid, 100, 2)).unwrap();
    assert_eq!(
        book.submit_market(market(2, 4, Side::Ask, 1)),
        Err(OrderBookError::SelfTrade { resting_order_id: 1, incoming_order_id: 2 })
    );
    assert_eq!(book.best_bid(), Some((100, 2)));
}

#[test]
fn best_prices_pick_highest_bid_and_lowest_ask() {
    let mut book = OrderBook::default();
    book.submit_limit(limit(1, 1, Side::Bid, 95, 1)).unwrap();
    book.submit_limit(limit(2, 1, Side::Bid, 97, 2)).unwrap();
    book.submit_limit(limit(3, 1, Side::Bid, 96, 3)).unwrap();
    book.submit_limit(limit(4, 2, Side::Ask, 110, 4)).unwrap();
    book.submit_limit(limit(5, 2, Side::Ask, 108, 5)).unwrap();
    book.submit_limit(limit(6, 2, Side::Ask, 109, 6)).unwrap();
    book.submit_limit(limit(7, 2, Side::Bid, 97, 7)).unwrap();
    assert_eq!(book.best_bid(), Some((97, 9)));
    assert_eq!(book.best_ask(), Some((108, 5)));
}

#[test]
fn apply_rejects_inconsistent_events() {
    let mut book = OrderBook::default();
    assert_eq!(
        book.apply(Event::Accepted(Order { id: 1, participant_id: 1, side: Side::Ask, price: 10, quantity: 0 })),
        Err(OrderBookError::InvalidQuantity)
    );
    assert_eq!(
        book.apply(Event::Executed(Execution::new(9, 1, 10, 1))),
        Err(OrderBookError::ReplayInvariantBroken)
    );
    book.apply(Event::Accepted(Order { id: 1, participant_id: 1, side: Side::Ask, price: 10, quantity: 3 }))
        .unwrap();
    assert_eq!(
        book.apply(Event::Accepted(Order { id: 1, participant_id: 2, side: Side::Bid, price: 9, quantity: 3 })),
        Err(OrderBookError::DuplicateOrderId(1))
    );
    assert_eq!(
        book.apply(Event::Executed(Execution::new(1, 2, 11, 1))),
        Err(OrderBookError::ReplayInvariantBroken)
    );
    assert_eq!(
        book.apply(Event::Executed(Execution::new(1, 2, 10, 4))),
        Err(OrderBookError::ReplayInvariantBroken)
    );
    book.apply(Event::Executed(Execution::new(1, 2, 10, 1))).unwrap();
    assert_eq!(book.best_ask(), Some((10, 2)));
    // apply does not log
    assert!(book.event_log().is_empty());
}

#[test]
fn replay_stops_at_the_first_bad_event() {
    let events = vec![
        Event::Accepted(Order { id: 1, participant_id: 1, side: Side::Bid, price: 50, quantity: 2 }),
        Event::Cancelled(CancelledOrder { id: 1, participant_id: 1, side: Side::Bid, price: 50, quantity: 5 }),
    ];
    assert!(matches!(OrderBook::replay(events), Err(OrderBookError::ReplayInvariantBroken)));
    let events = vec![Event::Cancelled(CancelledOrder { id: 4, participant_id: 1, side: Side::Bid, price: 50, quantity: 5 })];
    assert!(matches!(OrderBook::replay(events), Err(OrderBookError::ReplayInvariantBroken)));
}

#[test]
fn opposite_side_flips() {
    assert_eq!(Side::Bid.opposite(), Side::Ask);
    assert_eq!(Side::Ask.opposite(), Side::Bid);
}

#[test]
fn execution_new_keeps_fields() {
    let e = Execution::new(1, 2, 3, 4);
    assert_eq!(e, Execution { maker_order_id: 1, taker_order_id: 2, price: 3, quantity: 4 });
}

#[test]
fn executions_keep_more_than_inline_capacity() {
    let mut book = OrderBook::default();
    for id in 1..=6u64 {
        book.submit_limit(limit(id, 1, Side::Ask, 100 + id, 1)).unwrap();
    }
    let out = book.submit_limit(limit(10, 2, Side::Bid, 200, 6)).unwrap();
    let expected: Vec<Execution> = (1..=6u64).map(|id| Execution::new(id, 10, 100 + id, 1)).collect();
    assert_eq!(out.executions.as_slice(), expected.as_slice());
    assert_eq!(out.clone(), out);
}

#[test]
fn partially_filled_order_keeps_its_remaining_quantity() {
    let mut book = OrderBook::default();
    book.submit_limit(limit(1, 1, Side::Ask, 100, 5)).unwrap();
    book.submit_limit(limit(2, 2, Side::Ask, 100, 7)).unwrap();
    book.submit_limit(limit(3, 3, Side::Bid, 100, 8)).unwrap();
    let cancelled = book.cancel(2).unwrap();
    assert_eq!(cancelled.quantity, 4);
    assert_eq!(book.best_ask(), None);
}

#[test]
fn book_stays_uncrossed_after_submissions() {
    let mut book = OrderBook::default();
    book.submit_limit(limit(1, 1, Side::Ask, 100, 5)).unwrap();
    book.submit_limit(limit(2, 2, Side::Bid, 99, 5)).unwrap();
    book.submit_limit(limit(3, 3, Side::Bid, 101, 8)).unwrap();
    let (bid, _) = book.best_bid().unwrap();
    assert_eq!(bid, 101);
    assert_eq!(book.best_ask(), None);
    book.submit_limit(limit(4, 4, Side::Ask, 100, 1)).unwrap();
    book.submit_limit(limit(5, 5, Side::Ask, 102, 1)).unwrap();
    let (bid, bid_qty) = book.best_bid().unwrap();
    let (ask, _) = book.best_ask().unwrap();
    assert!(bid < ask);
    assert_eq!((bid, bid_qty), (101, 2));
    assert_eq!(ask, 102);
}

#[test]
fn apply_cancel_with_wrong_quantity_unindexes_the_order() {
    let mut book = OrderBook::default();
    book.submit_limit(limit(1, 1, Side::Bid, 50, 2)).unwrap();
    assert_eq!(
        book.apply(Event::Cancelled(CancelledOrder { id: 1, participant_id: 1, side: Side::Bid, price: 50, quantity: 5 })),
        Err(OrderBookError::ReplayInvariantBroken)
    );
    // the order still rests, but it can no longer be reached by id
    assert_eq!(book.best_bid(), Some((50, 2)));
    assert_eq!(book.total_resting_orders(), 1);
}

#[test]
fn executions_follow_price_then_time_priority() {
    let mut book = OrderBook::default();
    book.submit_limit(limit(1, 1, Side::Ask, 101, 2)).unwrap();
    book.submit_limit(limit(2, 2, Side::Ask, 100, 3)).unwrap();
    book.submit_limit(limit(3, 3, Side::Ask, 100, 4)).unwrap();
    book.submit_limit(limit(4, 4, Side::Ask, 102, 6)).unwrap();
    let out = book.submit_market(market(5, 5, Side::Bid, 8)).unwrap();
    assert_eq!(
        out.executions.as_slice(),
        &[
            Execution::new(2, 5, 100, 3),
            Execution::new(3, 5, 100, 4),
            Execution::new(1, 5, 101, 1),
        ]
    );
    assert_eq!(out.executions.len(), 3);
    assert_eq!(out.unfilled_quantity, 0);
    // two orders taken whole, the last one partly
    assert_eq!(book.total_resting_orders(), 2);
    assert_eq!(book.best_ask(), Some((101, 1)));
}

#[test]
fn sell_side_meets_bids_highest_first() {
    let mut book = OrderBook::default();
    book.submit_limit(limit(1, 1, Side::Bid, 97, 5)).unwrap();
    book.submit_limit(limit(2, 2, Side::Bid, 99, 1)).unwrap();
    book.submit_limit(limit(3, 3, Side::Bid, 98, 2)).unwrap();
    let out = book.submit_limit(limit(4, 4, Side::Ask, 97, 4)).unwrap();
    assert_eq!(
        out.executions.as_slice(),
        &[
            Execution::new(2, 4, 99, 1),
            Execution::new(3, 4, 98, 2),
            Execution::new(1, 4, 97, 1),
        ]
    );
    assert_eq!(out.resting_order_id, None);
    assert_eq!(book.best_bid(), Some((97, 4)));
}

#[test]
fn limit_order_trades_what_its_limit_reaches() {
    let mut book = OrderBook::default();
    book.submit_limit(limit(1, 1, Side::Ask, 100, 3)).unwrap();
    book.submit_limit(limit(2, 2, Side::Ask, 101, 4)).unwrap();
    book.submit_limit(limit(3, 3, Side::Ask, 105, 5)).unwrap();
    let out = book.submit_limit(limit(4, 4, Side::Bid, 101, 10)).unwrap();
    let filled: u64 = out.executions.as_slice().iter().map(|e| e.quantity).sum();
    assert_eq!(filled, 7);
    assert_eq!(out.unfilled_quantity, 3);
    assert_eq!(out.resting_order_id, Some(4));
    assert_eq!(book.best_bid(), Some((101, 3)));
    assert_eq!(book.best_ask(), Some((105, 5)));

    let out = book.submit_limit(limit(5, 5, Side::Bid, 110, 2)).unwrap();
    let filled: u64 = out.executions.as_slice().iter().map(|e| e.quantity).sum();
    assert_eq!(filled, 2);
    assert_eq!(out.resting_order_id, None);
    assert_eq!(book.best_ask(), Some((105, 3)));
}

#[test]
fn books_built_by_calls_never_cross() {
    let mut book = OrderBook::default();
    let check = |book: &OrderBook| {
        if let (Some((bid, _)), Some((ask, _))) = (book.best_bid(), book.best_ask()) {
            assert!(bid < ask);
        }
    };
    book.submit_limit(limit(1, 1, Side::Bid, 100, 5)).unwrap();
    check(&book);
    book.submit_limit(limit(2, 2, Side::Ask, 102, 5)).unwrap();
    check(&book);
    book.submit_limit(limit(3, 3, Side::Ask, 99, 2)).unwrap();
    check(&book);
    book.cancel(1).unwrap();
    check(&book);
    book.submit_limit(limit(4, 4, Side::Bid, 103, 9)).unwrap();
    check(&book);
    book.submit_market(market(5, 5, Side::Ask, 1)).unwrap();
    check(&book);
    assert_eq!(book.cancel(1), Err(OrderBookError::UnknownOrder(1)));
    check(&book);
    assert_eq!(book.best_bid(), Some((103, 3)));
    assert_eq!(book.best_ask(), None);
}
