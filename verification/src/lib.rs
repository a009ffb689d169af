//! A limit order book for one instrument: price-time priority matching, self-trade
//! prevention, cancellation by id through an index, and event-sourced replay.

mod book;
pub mod laws;
pub mod level_seq;
pub mod model;
pub mod price_sum;
pub mod priority;
pub mod types;
pub mod view_lemmas;

pub use book::{OrderBook, PriceLevel};
pub use types::{
    CancelledOrder, Event, Execution, ExecutionVec, MarketOrderRequest, NewOrderRequest, Order,
    OrderBookError, OrderId, ParticipantId, Price, Quantity, Side, SubmissionOutcome,
};
