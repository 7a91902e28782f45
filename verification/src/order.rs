//! Orders and trades: the values that pass between the book and its callers.

use vstd::prelude::*;
use uuid::Uuid;
use crate::decimal::Amount;

verus! {

/// An order identifier. The book only carries it from an order to the trades
/// that the order takes part in; it never looks inside.
#[verifier::external_type_specification]
#[verifier::external_body]
pub struct ExUuid(Uuid);

/// The kind of an order. Only limit orders, which carry a price, can trade
/// or rest in the book.
#[derive(Clone, Copy, Debug, PartialEq, Eq, Structural)]
pub enum OrderType {
    Limit,
    Market,
}

/// The side of an order. It is also the side of the book that the order
/// rests on: buy orders are bids, sell orders are asks.
#[derive(Clone, Copy, Debug, PartialEq, Eq, Structural)]
pub enum Side {
    Buy,
    Sell,
}

impl Side {
    /// The side that an order of this side trades against.
    pub open spec fn opposite(self) -> Side {
        match self {
            Side::Buy => Side::Sell,
            Side::Sell => Side::Buy,
        }
    }
}

/// A point in time: whole seconds since the Unix epoch and the nanoseconds
/// within the second.
#[derive(Clone, Copy, Debug, PartialEq, Eq, Structural)]
pub struct Timestamp {
    pub seconds: i64,
    pub nanoseconds: u32,
}

/// An order as its submitter built it. While it rests in the book only its
/// quantity changes.
#[derive(Clone, Copy, Debug)]
pub struct Order {
    pub id: Uuid,
    pub order_type: OrderType,
    pub side: Side,
    pub price: Option<Amount>,
    pub quantity: Amount,
    pub timestamp: Timestamp,
}

impl Order {
    /// The same order with another remaining quantity.
    pub open spec fn with_quantity(self, quantity: Amount) -> Order {
        Order { quantity, ..self }
    }

    /// The amounts that the order carries are well formed.
    pub open spec fn wf(self) -> bool {
        &&& self.quantity.wf()
        &&& self.price matches Some(p) ==> p.wf()
    }

    /// The order carries a limit price and a positive quantity, so it can
    /// rest in the book.
    pub open spec fn can_rest(self) -> bool {
        &&& self.wf()
        &&& self.price is Some
        &&& self.quantity.units() > 0
    }
}

/// What a submitter hands in: an order without its identifier and its
/// creation time, which are given to it when it is received.
#[derive(Clone, Copy, Debug)]
pub struct CreateOrderPayload {
    pub order_type: OrderType,
    pub side: Side,
    pub price: Option<Amount>,
    pub quantity: Amount,
}

impl CreateOrderPayload {
    /// The order that the payload describes, under the identifier `id` and
    /// created at `timestamp`.
    pub fn into_order(self, id: Uuid, timestamp: Timestamp) -> (order: Order)
        ensures
            order == (Order {
                id,
                order_type: self.order_type,
                side: self.side,
                price: self.price,
                quantity: self.quantity,
                timestamp,
            }),
    {
        Order {
            id,
            order_type: self.order_type,
            side: self.side,
            price: self.price,
            quantity: self.quantity,
            timestamp,
        }
    }
}

/// One execution, without the moment it happened: who traded, at what price
/// and how much.
pub ghost struct Fill {
    pub maker_order_id: Uuid,
    pub taker_order_id: Uuid,
    pub price: Amount,
    pub quantity: Amount,
}

/// The record of one execution between a resting order (the maker) and an
/// incoming order (the taker).
#[derive(Clone, Copy, Debug)]
pub struct Trade {
    pub maker_order_id: Uuid,
    pub taker_order_id: Uuid,
    pub price: Amount,
    pub quantity: Amount,
    pub timestamp: Timestamp,
}

impl View for Trade {
    type V = Fill;

    open spec fn view(&self) -> Fill {
        Fill {
            maker_order_id: self.maker_order_id,
            taker_order_id: self.taker_order_id,
            price: self.price,
            quantity: self.quantity,
        }
    }
}

/// The fills that a sequence of trades records, in the same order.
pub open spec fn fills_of(trades: Seq<Trade>) -> Seq<Fill> {
    Seq::new(trades.len(), |i: int| trades[i]@)
}

/// The time now: `chrono`'s `Utc::now`, split into its seconds
/// (`DateTime::timestamp`) and nanoseconds
/// (`DateTime::timestamp_subsec_nanos`). The clock decides the result, so
/// nothing is stated of it. `Utc::now` panics where the system clock stands
/// before 1970.
#[verifier::external_body]
pub(crate) fn now() -> Timestamp {
    let t = chrono::Utc::now();
    Timestamp { seconds: t.timestamp(), nanoseconds: t.timestamp_subsec_nanos() }
}

} // verus!
