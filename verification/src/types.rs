use smallvec::SmallVec;
use vstd::prelude::*;

verus! {

pub type Price = u64;

pub type Quantity = u64;

pub type OrderId = u64;

pub type ParticipantId = u32;

#[derive(Debug, Clone, Copy, PartialEq, Eq, Hash, Structural)]
pub enum Side {
    Bid,
    Ask,
}

/// The side on the other half of the book.
pub open spec fn flip(side: Side) -> Side {
    match side {
        Side::Bid => Side::Ask,
        Side::Ask => Side::Bid,
    }
}

impl Side {
    pub fn opposite(self) -> (r: Self)
        ensures
            r == flip(self),
    {
        match self {
            Self::Bid => Self::Ask,
            Self::Ask => Self::Bid,
        }
    }
}

#[derive(Debug, Clone, Copy, PartialEq, Eq, Structural)]
pub struct Order {
    pub id: OrderId,
    pub participant_id: ParticipantId,
    pub side: Side,
    pub price: Price,
    pub quantity: Quantity,
}

#[derive(Debug, Clone, Copy, PartialEq, Eq, Structural)]
pub struct NewOrderRequest {
    pub id: OrderId,
    pub participant_id: ParticipantId,
    pub side: Side,
    pub price: Price,
    pub quantity: Quantity,
}

#[derive(Debug, Clone, Copy, PartialEq, Eq, Structural)]
pub struct MarketOrderRequest {
    pub id: OrderId,
    pub participant_id: ParticipantId,
    pub side: Side,
    pub quantity: Quantity,
}

#[derive(Debug, Clone, Copy, PartialEq, Eq, Structural)]
pub struct Execution {
    pub maker_order_id: OrderId,
    pub taker_order_id: OrderId,
    pub price: Price,
    pub quantity: Quantity,
}

impl Execution {
    pub fn new(
        maker_order_id: OrderId,
        taker_order_id: OrderId,
        price: Price,
        quantity: Quantity,
    ) -> (r: Self)
        ensures
            r == (Execution { maker_order_id, taker_order_id, price, quantity }),
    {
        Self { maker_order_id, taker_order_id, price, quantity }
    }
}

#[derive(Debug, Clone, Copy, PartialEq, Eq, Structural)]
pub struct CancelledOrder {
    pub id: OrderId,
    pub participant_id: ParticipantId,
    pub side: Side,
    pub price: Price,
    pub quantity: Quantity,
}

#[derive(Debug, Clone, Copy, PartialEq, Eq, Structural)]
pub enum Event {
    Accepted(Order),
    Executed(Execution),
    Cancelled(CancelledOrder),
}

#[derive(Debug, Clone, Copy, PartialEq, Eq, Structural)]
pub enum OrderBookError {
    DuplicateOrderId(OrderId),
    InvalidQuantity,
    UnknownOrder(OrderId),
    SelfTrade { resting_order_id: OrderId, incoming_order_id: OrderId },
    ReplayInvariantBroken,
}

/// The executions of one submission, held in a `smallvec::SmallVec<[Execution; 4]>` so that
/// the common case of a few fills needs no allocation. The vector is hidden from the
/// verifier; `execution_items` names what it holds, and each method below states what the
/// `SmallVec` method it calls does to that sequence.
#[verifier::external_body]
#[derive(Debug, PartialEq, Eq)]
pub struct ExecutionVec {
    inner: SmallVec<[Execution; 4]>,
}

/// What the `SmallVec` inside an `ExecutionVec` holds, in order.
pub uninterp spec fn execution_items(v: ExecutionVec) -> Seq<Execution>;

/// The largest number of executions an `ExecutionVec` is asked to hold: below this
/// bound the vector's growth never overflows its capacity arithmetic.
pub open spec fn execution_capacity() -> nat {
    (isize::MAX as nat) / 64
}

impl ExecutionVec {
    /// Calls `SmallVec::new`, which yields an empty vector.
    #[verifier::external_body]
    pub(crate) fn new() -> (v: Self)
        ensures
            execution_items(v) == Seq::<Execution>::empty(),
    {
        ExecutionVec { inner: SmallVec::new() }
    }

    /// Calls `SmallVec::push`, which appends the item at the end. The bound on the length
    /// keeps the doubled capacity, in bytes, below `isize::MAX`, where the push would panic.
    #[verifier::external_body]
    pub(crate) fn push(&mut self, value: Execution)
        requires
            execution_items(*old(self)).len() < execution_capacity(),
        ensures
            execution_items(*final(self)) == execution_items(*old(self)).push(value),
    {
        self.inner.push(value)
    }

    /// Calls `SmallVec::as_slice`: the items held, in order.
    #[verifier::external_body]
    pub fn as_slice(&self) -> (r: &[Execution])
        ensures
            r@ == execution_items(*self),
    {
        self.inner.as_slice()
    }
}

impl ExecutionVec {
    /// The number of executions held.
    pub fn len(&self) -> (r: usize)
        ensures
            r == execution_items(*self).len(),
    {
        self.as_slice().len()
    }

    /// Whether no execution is held.
    pub fn is_empty(&self) -> (r: bool)
        ensures
            r == (execution_items(*self).len() == 0),
    {
        self.len() == 0
    }
}

impl Clone for ExecutionVec {
    /// Calls `SmallVec::clone`, which copies the items in order.
    #[verifier::external_body]
    fn clone(&self) -> (r: Self)
        ensures
            execution_items(r) == execution_items(*self),
    {
        ExecutionVec { inner: self.inner.clone() }
    }
}

#[derive(Debug, Clone, PartialEq, Eq)]
pub struct SubmissionOutcome {
    pub executions: ExecutionVec,
    pub resting_order_id: Option<OrderId>,
    pub unfilled_quantity: Quantity,
}

} // verus!
