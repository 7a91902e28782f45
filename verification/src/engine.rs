//! The order book: two sides of resting orders, and the operations that
//! insert an order, look for a crossing and match an incoming order.

use vstd::prelude::*;
use vstd::string::*;
use crate::arbitrage::{advisory, advisory_message, crosses};
use crate::book::{has_priority, inserted, levels_wf, BookSide, Level};
use crate::decimal::Amount;
use crate::laws::lemma_match_keeps_book_uncrossed;
use crate::order::{fills_of, Fill, Order, Side, Trade};
use crate::sweep::sweep;

verus! {

/// The book as a mathematical value: the levels of both sides, best first.
pub ghost struct Book {
    pub bids: Seq<Level>,
    pub asks: Seq<Level>,
}

impl Book {
    /// The book in which no order rests.
    pub open spec fn empty() -> Book {
        Book { bids: Seq::empty(), asks: Seq::empty() }
    }

    /// Bids hold buy orders and rank from the highest price down; asks hold
    /// sell orders and rank from the lowest price up; see [`levels_wf`].
    pub open spec fn wf(self) -> bool {
        &&& levels_wf(self.bids, Side::Buy)
        &&& levels_wf(self.asks, Side::Sell)
    }

    /// The levels on which the orders of `side` rest.
    pub open spec fn side(self, side: Side) -> Seq<Level> {
        match side {
            Side::Buy => self.bids,
            Side::Sell => self.asks,
        }
    }

    /// The book with other levels on `side`.
    pub open spec fn with_side(self, side: Side, levels: Seq<Level>) -> Book {
        match side {
            Side::Buy => Book { bids: levels, asks: self.asks },
            Side::Sell => Book { bids: self.bids, asks: levels },
        }
    }

    /// Both sides hold orders and the best bid is not below the best ask.
    pub open spec fn crossed(self) -> bool {
        &&& self.bids.len() > 0
        &&& self.asks.len() > 0
        &&& self.bids[0].price.units() >= self.asks[0].price.units()
    }
}

/// The book after `order` was handed in to rest: an order that can rest
/// joins its side, any other order leaves the book as it was.
pub open spec fn added(book: Book, order: Order) -> Book {
    if order.can_rest() {
        book.with_side(order.side, inserted(book.side(order.side), order.side, order))
    } else {
        book
    }
}

/// The book after each of `orders` was handed in to rest, in turn.
pub open spec fn added_all(book: Book, orders: Seq<Order>) -> Book
    decreases orders.len(),
{
    if orders.len() == 0 {
        book
    } else {
        added(added_all(book, orders.drop_last()), orders.last())
    }
}

/// What matching an incoming order does.
pub ghost struct MatchOutcome {
    /// The book afterwards.
    pub book: Book,
    /// The executions, earliest first.
    pub fills: Seq<Fill>,
}

/// Matching the incoming order `taker` against `book`. An order without a
/// limit price is not matched. A limit order sweeps the opposite side, and
/// what it has left afterwards comes to rest on its own side at its own
/// limit price.
pub open spec fn matched(book: Book, taker: Order) -> MatchOutcome {
    match taker.price {
        None => MatchOutcome { book, fills: Seq::empty() },
        Some(limit) => {
            let against = taker.side.opposite();
            let swept = sweep(book.side(against), against, taker.id, limit, taker.quantity);
            MatchOutcome {
                book: added(
                    book.with_side(against, swept.levels),
                    taker.with_quantity(swept.remaining),
                ),
                fills: swept.fills,
            }
        },
    }
}

/// The book after each of `takers` was matched against it, in turn.
pub open spec fn matched_all(book: Book, takers: Seq<Order>) -> Book
    decreases takers.len(),
{
    if takers.len() == 0 {
        book
    } else {
        matched(matched_all(book, takers.drop_last()), takers.last()).book
    }
}

/// One thing done to a book: an order is let to rest, or it is matched.
pub ghost enum Step {
    Rest(Order),
    Match(Order),
}

impl Step {
    /// The order that the step hands in.
    pub open spec fn order(self) -> Order {
        match self {
            Step::Rest(order) => order,
            Step::Match(order) => order,
        }
    }
}

/// The book after each of `steps` was taken, in turn.
pub open spec fn after_steps(book: Book, steps: Seq<Step>) -> Book
    decreases steps.len(),
{
    if steps.len() == 0 {
        book
    } else {
        let earlier = after_steps(book, steps.drop_last());
        match steps.last() {
            Step::Rest(order) => added(earlier, order),
            Step::Match(order) => matched(earlier, order).book,
        }
    }
}

/// What the incoming order `taker` has left after it was matched against
/// `book`; it is this quantity that comes to rest, where it is positive.
pub open spec fn remainder(book: Book, taker: Order) -> Amount {
    match taker.price {
        None => taker.quantity,
        Some(limit) => {
            let against = taker.side.opposite();
            sweep(book.side(against), against, taker.id, limit, taker.quantity).remaining
        },
    }
}

/// Why a submitted order was turned away.
#[derive(Clone, Copy, Debug, PartialEq, Eq, Structural)]
pub enum MatchError {
    /// The order carries no limit price; only limit orders are matched.
    UnsupportedOrder,
}

impl MatchError {
    /// The reason in words.
    pub fn message(&self) -> (r: String)
        ensures
            r@ == "Market orders not yet implemented."@,
    {
        String::from_str("Market orders not yet implemented.")
    }
}

/// What became of a submitted limit order.
pub struct Submission {
    /// The advisory, where the order crossed the best opposite price as it
    /// came in.
    pub advisory: Option<String>,
    /// The trades that the order made, earliest first.
    pub trades: Vec<Trade>,
}

/// A limit-order book for one instrument.
pub struct OrderBook {
    pub(crate) bids: BookSide,
    pub(crate) asks: BookSide,
}

impl View for OrderBook {
    type V = Book;

    open(crate) spec fn view(&self) -> Book {
        Book { bids: self.bids@, asks: self.asks@ }
    }
}

impl OrderBook {
    /// Every book that executable code holds is well formed.
    #[verifier::type_invariant]
    pub open(crate) spec fn wf(&self) -> bool {
        self@.wf()
    }

    /// An empty book.
    pub fn new() -> (r: OrderBook)
        ensures
            r@ == Book::empty(),
            r@.wf(),
    {
        OrderBook { bids: BookSide::new(), asks: BookSide::new() }
    }

    /// The buy side, best (highest) price first.
    pub fn bids(&self) -> (r: &BookSide)
        ensures
            r@ == self@.bids,
            levels_wf(r@, Side::Buy),
    {
        proof {
            use_type_invariant(self);
        }
        &self.bids
    }

    /// The sell side, best (lowest) price first.
    pub fn asks(&self) -> (r: &BookSide)
        ensures
            r@ == self@.asks,
            levels_wf(r@, Side::Sell),
    {
        proof {
            use_type_invariant(self);
        }
        &self.asks
    }

    /// Takes the buy side out of the book, to work on it; it is put back by
    /// assignment.
    fn take_bids(&mut self) -> (r: BookSide)
        ensures
            r@ == old(self)@.bids,
            levels_wf(r@, Side::Buy),
            final(self)@ == (Book { bids: Seq::empty(), asks: old(self)@.asks }),
    {
        proof {
            use_type_invariant(&*self);
        }
        let mut bids = BookSide::new();
        std::mem::swap(&mut self.bids, &mut bids);
        bids
    }

    /// Takes the sell side out of the book, to work on it; it is put back by
    /// assignment.
    fn take_asks(&mut self) -> (r: BookSide)
        ensures
            r@ == old(self)@.asks,
            levels_wf(r@, Side::Sell),
            final(self)@ == (Book { bids: old(self)@.bids, asks: Seq::empty() }),
    {
        proof {
            use_type_invariant(&*self);
        }
        let mut asks = BookSide::new();
        std::mem::swap(&mut self.asks, &mut asks);
        asks
    }

    /// Lets `order` rest in the book without matching it: at the end of the
    /// queue of its price on its side. An order without a price or without a
    /// positive quantity does not rest, and the book stays as it was.
    pub fn add_order(&mut self, order: Order)
        ensures
            final(self)@ == added(old(self)@, order),
            final(self)@.wf(),
    {
        proof {
            use_type_invariant(&*self);
            use_type_invariant(&order.quantity);
        }
        match order.price {
            Some(price) => {
                proof {
                    use_type_invariant(&price);
                }
                if order.quantity.is_positive() {
                    match order.side {
                        Side::Buy => {
                            let mut bids = self.take_bids();
                            bids.insert(Side::Buy, order);
                            self.bids = bids;
                        },
                        Side::Sell => {
                            let mut asks = self.take_asks();
                            asks.insert(Side::Sell, order);
                            self.asks = asks;
                        },
                    }
                }
            },
            None => {},
        }
    }

    /// Tells whether `new_order` crosses the best price of the opposite side,
    /// and if so returns the advisory that says by how much. The book is only
    /// read.
    pub fn detect_arbitrage(&self, new_order: &Order) -> (r: Option<String>)
        ensures
            r is Some <==> crosses(self@.side(new_order.side.opposite()), *new_order),
            r matches Some(message) ==> message@ == advisory(
                new_order.side,
                new_order.price->0,
                self@.side(new_order.side.opposite())[0].price,
            ),
    {
        let price = match new_order.price {
            Some(price) => price,
            None => {
                return None;
            },
        };
        let best = match new_order.side {
            Side::Buy => self.asks.best_price(),
            Side::Sell => self.bids.best_price(),
        };
        match best {
            Some(best) => {
                if has_priority(new_order.side, &price, &best) {
                    Some(advisory_message(new_order.side, &price, &best))
                } else {
                    None
                }
            },
            None => None,
        }
    }

    /// Takes in a submitted order: looks for a crossing against the book as
    /// it stands, then matches the order. An order without a limit price is
    /// turned away, and the book stays as it was.
    pub fn submit(&mut self, order: Order) -> (r: Result<Submission, MatchError>)
        ensures
            match r {
                Ok(done) => {
                    &&& order.price is Some
                    &&& done.advisory is Some <==> crosses(
                        old(self)@.side(order.side.opposite()),
                        order,
                    )
                    &&& done.advisory matches Some(message) ==> message@ == advisory(
                        order.side,
                        order.price->0,
                        old(self)@.side(order.side.opposite())[0].price,
                    )
                    &&& fills_of(done.trades@) == matched(old(self)@, order).fills
                    &&& final(self)@ == matched(old(self)@, order).book
                },
                Err(e) => {
                    &&& e == MatchError::UnsupportedOrder
                    &&& order.price is None
                    &&& final(self)@ == old(self)@
                },
            },
            final(self)@.wf(),
            !old(self)@.crossed() ==> !final(self)@.crossed(),
    {
        proof {
            use_type_invariant(&*self);
        }
        if order.price.is_none() {
            return Err(MatchError::UnsupportedOrder);
        }
        let advisory = self.detect_arbitrage(&order);
        let trades = self.match_order(order);
        Ok(Submission { advisory, trades })
    }

    /// Matches the incoming order against the opposite side of the book and
    /// returns the trades in the order in which they were made; what the
    /// order has left afterwards comes to rest. An order without a limit
    /// price makes no trade and leaves the book as it was. Each trade is
    /// stamped with the time at which it was made.
    pub fn match_order(&mut self, taker_order: Order) -> (trades: Vec<Trade>)
        ensures
            final(self)@ == matched(old(self)@, taker_order).book,
            fills_of(trades@) == matched(old(self)@, taker_order).fills,
            final(self)@.wf(),
            !old(self)@.crossed() ==> !final(self)@.crossed(),
    {
        proof {
            use_type_invariant(&*self);
            use_type_invariant(&taker_order.quantity);
        }
        let mut trades: Vec<Trade> = Vec::new();
        assert(fills_of(trades@) =~= Seq::<Fill>::empty());
        let limit = match taker_order.price {
            Some(limit) => limit,
            None => {
                return trades;
            },
        };
        proof {
            use_type_invariant(&limit);
            if !self@.crossed() {
                lemma_match_keeps_book_uncrossed(self@, taker_order);
            }
        }
        let left = match taker_order.side {
            Side::Buy => {
                let mut asks = self.take_asks();
                let left = asks.sweep(
                    Side::Sell,
                    taker_order.id,
                    limit,
                    taker_order.quantity,
                    &mut trades,
                );
                self.asks = asks;
                left
            },
            Side::Sell => {
                let mut bids = self.take_bids();
                let left = bids.sweep(
                    Side::Buy,
                    taker_order.id,
                    limit,
                    taker_order.quantity,
                    &mut trades,
                );
                self.bids = bids;
                left
            },
        };
        self.add_order(
            Order {
                id: taker_order.id,
                order_type: taker_order.order_type,
                side: taker_order.side,
                price: taker_order.price,
                quantity: left,
                timestamp: taker_order.timestamp,
            },
        );
        trades
    }
}

} // verus!
