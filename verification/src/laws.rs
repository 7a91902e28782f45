//! The laws of the book: what holds of every book and of every match.

use vstd::prelude::*;
use crate::arbitrage::crosses;
use crate::book::{better, inserted, lemma_inserted_wf, level_wf, rests_at, Level};
use crate::engine::{
    added, added_all, after_steps, matched, matched_all, remainder, Book, Step,
};
use crate::lemmas::{
    fills_maker, lemma_sweep_at_scale_is_exact, lemma_sweep_conserves, lemma_sweep_fills,
    lemma_sweep_keeps_order, lemma_sweep_levels, lemma_sweep_trades, makers,
    quantities_fit_scale, resting_units, sweep_is_exact, traded_units,
};
use crate::order::{Order, Side};
use crate::sweep::{admits, fill_of, sweep};

verus! {

/// Every subtraction that matching `taker` against `book` makes is exact.
pub open spec fn match_is_exact(book: Book, taker: Order) -> bool {
    taker.price matches Some(limit) ==> sweep_is_exact(
        book.side(taker.side.opposite()),
        taker.side.opposite(),
        taker.id,
        limit,
        taker.quantity,
    )
}

/// An order that is handed in to rest leaves a well-formed book well formed.
pub proof fn lemma_added_keeps_book_well_formed(book: Book, order: Order)
    requires
        book.wf(),
    ensures
        added(book, order).wf(),
{
    if order.can_rest() {
        lemma_inserted_wf(book.side(order.side), order.side, order);
    }
}

/// What it is for a book to be well formed, spelled out: no level is empty;
/// each order of a level is of the level's side, carries the level's price
/// and has a positive quantity; and the levels of a side stand in strict
/// priority order, bids from the highest price down and asks from the lowest
/// price up.
pub proof fn lemma_well_formed_book_is_ordered(book: Book)
    requires
        book.wf(),
    ensures
        forall|i: int, k: int|
            0 <= i < book.bids.len() && 0 <= k < book.bids[i].orders.len() ==> {
                let order = #[trigger] book.bids[i].orders[k];
                &&& order.side == Side::Buy
                &&& order.price is Some
                &&& order.price->0.units() == book.bids[i].price.units()
                &&& order.quantity.units() > 0
            },
        forall|i: int, k: int|
            0 <= i < book.asks.len() && 0 <= k < book.asks[i].orders.len() ==> {
                let order = #[trigger] book.asks[i].orders[k];
                &&& order.side == Side::Sell
                &&& order.price is Some
                &&& order.price->0.units() == book.asks[i].price.units()
                &&& order.quantity.units() > 0
            },
        forall|i: int| 0 <= i < book.bids.len() ==> (#[trigger] book.bids[i]).orders.len() > 0,
        forall|i: int| 0 <= i < book.asks.len() ==> (#[trigger] book.asks[i]).orders.len() > 0,
        forall|i: int, j: int|
            0 <= i < j < book.bids.len() ==> (#[trigger] book.bids[i]).price.units() > (
            #[trigger] book.bids[j]).price.units(),
        forall|i: int, j: int|
            0 <= i < j < book.asks.len() ==> (#[trigger] book.asks[i]).price.units() < (
            #[trigger] book.asks[j]).price.units(),
{
    assert forall|i: int, k: int|
        0 <= i < book.bids.len() && 0 <= k < book.bids[i].orders.len() implies {
        let order = #[trigger] book.bids[i].orders[k];
        &&& order.side == Side::Buy
        &&& order.price is Some
        &&& order.price->0.units() == book.bids[i].price.units()
        &&& order.quantity.units() > 0
    } by {
        assert(level_wf(book.bids[i], Side::Buy));
        assert(rests_at(book.bids[i].orders[k], Side::Buy, book.bids[i].price));
    }
    assert forall|i: int, k: int|
        0 <= i < book.asks.len() && 0 <= k < book.asks[i].orders.len() implies {
        let order = #[trigger] book.asks[i].orders[k];
        &&& order.side == Side::Sell
        &&& order.price is Some
        &&& order.price->0.units() == book.asks[i].price.units()
        &&& order.quantity.units() > 0
    } by {
        assert(level_wf(book.asks[i], Side::Sell));
        assert(rests_at(book.asks[i].orders[k], Side::Sell, book.asks[i].price));
    }
    assert forall|i: int| 0 <= i < book.bids.len() implies (#[trigger] book.bids[i]).orders.len()
        > 0 by {
        assert(level_wf(book.bids[i], Side::Buy));
    }
    assert forall|i: int| 0 <= i < book.asks.len() implies (#[trigger] book.asks[i]).orders.len()
        > 0 by {
        assert(level_wf(book.asks[i], Side::Sell));
    }
}

/// Whatever orders are handed in to rest, and in whatever order, the book
/// that results from an empty book is well formed at every point; what that
/// says of its levels, [`lemma_well_formed_book_is_ordered`] spells out.
pub proof fn lemma_inserted_orders_keep_levels(orders: Seq<Order>)
    ensures
        added_all(Book::empty(), orders).wf(),
    decreases orders.len(),
{
    if orders.len() > 0 {
        lemma_inserted_orders_keep_levels(orders.drop_last());
        lemma_added_keeps_book_well_formed(
            added_all(Book::empty(), orders.drop_last()),
            orders.last(),
        );
    }
}

/// Matching leaves a well-formed book well formed.
pub proof fn lemma_match_keeps_book_well_formed(book: Book, taker: Order)
    requires
        book.wf(),
        taker.wf(),
    ensures
        matched(book, taker).book.wf(),
{
    match taker.price {
        None => {},
        Some(limit) => {
            let against = taker.side.opposite();
            lemma_sweep_levels(book.side(against), against, taker.id, limit, taker.quantity);
            let swept = sweep(book.side(against), against, taker.id, limit, taker.quantity);
            lemma_added_keeps_book_well_formed(
                book.with_side(against, swept.levels),
                taker.with_quantity(swept.remaining),
            );
        },
    }
}

/// Whatever is done to a book, from empty, and in whatever order, be it
/// letting an order rest or matching one, the book is well formed.
pub proof fn lemma_book_stays_well_formed(steps: Seq<Step>)
    requires
        forall|k: int| 0 <= k < steps.len() ==> (#[trigger] steps[k]).order().wf(),
    ensures
        after_steps(Book::empty(), steps).wf(),
    decreases steps.len(),
{
    if steps.len() > 0 {
        let earlier = steps.drop_last();
        assert forall|k: int| 0 <= k < earlier.len() implies (
        #[trigger] earlier[k]).order().wf() by {
            assert(earlier[k] == steps[k]);
        }
        lemma_book_stays_well_formed(earlier);
        let book = after_steps(Book::empty(), earlier);
        assert(steps.last() == steps[steps.len() - 1]);
        match steps.last() {
            Step::Rest(order) => {
                lemma_added_keeps_book_well_formed(book, order);
            },
            Step::Match(order) => {
                lemma_match_keeps_book_well_formed(book, order);
            },
        }
    }
}

/// The trades of a match go through the resting orders of the opposite side
/// in price-time priority, from the first: one trade per maker, which names
/// the maker and the taker and has a positive quantity that is no more than
/// the maker had before the match; and every trade but the last takes its
/// maker whole. So no maker trades more than it had.
pub proof fn lemma_trades_follow_priority(book: Book, taker: Order)
    requires
        book.wf(),
        taker.wf(),
    ensures
        ({
            let fills = matched(book, taker).fills;
            let queue = makers(book.side(taker.side.opposite()));
            &&& fills.len() <= queue.len()
            &&& forall|k: int|
                0 <= k < fills.len() ==> fills_maker(#[trigger] fills[k], queue[k], taker.id)
            &&& forall|k: int|
                0 <= k < fills.len() - 1 ==> (#[trigger] fills[k]).quantity == queue[k].quantity
        }),
{
    match taker.price {
        None => {},
        Some(limit) => {
            let against = taker.side.opposite();
            lemma_sweep_fills(book.side(against), against, taker.id, limit, taker.quantity);
        },
    }
}

/// A match takes makers off the head of the priority order of the opposite
/// side and leaves the rest as they were, in their order. With `gone` the
/// number of makers that left the book: the match made `gone` trades, or
/// one more; the makers that stay are those that stood from place `gone`
/// on; none of them has changed but, at most, the first in its quantity,
/// and the first has not changed either unless it took part in the last
/// trade.
pub proof fn lemma_match_keeps_resting_orders(book: Book, taker: Order)
    requires
        book.wf(),
        taker.wf(),
    ensures
        ({
            let out = matched(book, taker);
            let against = taker.side.opposite();
            let before = makers(book.side(against));
            let after = makers(out.book.side(against));
            let gone = before.len() - after.len();
            &&& 0 <= gone <= out.fills.len() <= gone + 1
            &&& forall|i: int| 1 <= i < after.len() ==> #[trigger] after[i] == before[i + gone]
            &&& after.len() > 0 ==> after[0] == before[gone].with_quantity(after[0].quantity)
            &&& after.len() > 0 && out.fills.len() == gone ==> after[0] == before[gone]
        }),
{
    match taker.price {
        None => {},
        Some(limit) => {
            let against = taker.side.opposite();
            lemma_sweep_keeps_order(book.side(against), against, taker.id, limit, taker.quantity);
        },
    }
}

/// Each trade is made at the resting price of its maker, whatever the
/// limit of the taker; and that price is no worse for the taker than its
/// limit: a buyer pays no more, a seller gets no less.
pub proof fn lemma_trade_price_is_maker_price(book: Book, taker: Order)
    requires
        book.wf(),
        taker.wf(),
    ensures
        ({
            let fills = matched(book, taker).fills;
            let queue = makers(book.side(taker.side.opposite()));
            &&& fills.len() <= queue.len()
            &&& forall|k: int|
                0 <= k < fills.len() ==> {
                    &&& (#[trigger] fills[k]).price == queue[k].price->0
                    &&& taker.side == Side::Buy ==> fills[k].price.units()
                        <= taker.price->0.units()
                    &&& taker.side == Side::Sell ==> fills[k].price.units()
                        >= taker.price->0.units()
                }
        }),
{
    match taker.price {
        None => {},
        Some(limit) => {
            let against = taker.side.opposite();
            lemma_sweep_fills(book.side(against), against, taker.id, limit, taker.quantity);
            let fills = matched(book, taker).fills;
            let queue = makers(book.side(against));
            assert forall|k: int| 0 <= k < fills.len() implies {
                &&& (#[trigger] fills[k]).price == queue[k].price->0
                &&& taker.side == Side::Buy ==> fills[k].price.units() <= limit.units()
                &&& taker.side == Side::Sell ==> fills[k].price.units() >= limit.units()
            } by {
                assert(fills_maker(fills[k], queue[k], taker.id));
                assert(admits(against, limit, fills[k].price));
            }
        },
    }
}

/// Where every subtraction of the match is exact, quantity is conserved:
/// the taker has left exactly what it had less the sum of what was traded,
/// and the opposite side holds exactly what it held less that sum.
pub proof fn lemma_exact_match_conserves_quantity(book: Book, taker: Order)
    requires
        book.wf(),
        taker.wf(),
        match_is_exact(book, taker),
    ensures
        ({
            let after = matched(book, taker);
            let against = taker.side.opposite();
            &&& remainder(book, taker).units() == taker.quantity.units() - traded_units(
                after.fills,
            )
            &&& resting_units(makers(after.book.side(against))) == resting_units(
                makers(book.side(against)),
            ) - traded_units(after.fills)
        }),
{
    match taker.price {
        None => {},
        Some(limit) => {
            let against = taker.side.opposite();
            lemma_sweep_conserves(book.side(against), against, taker.id, limit, taker.quantity);
        },
    }
}

/// Where all quantities, those that rest on the opposite side and that of
/// the taker, can be written at one scale, every subtraction of the match
/// is exact, so that quantity is conserved as
/// [`lemma_exact_match_conserves_quantity`] says. This is so where all
/// quantities are written at the same scale, and where, for some number of
/// digits `d`, none has more than `d` digits after the point and each is
/// below `2^96 / 10^d`.
pub proof fn lemma_quantities_at_one_scale_match_exactly(book: Book, taker: Order, scale: nat)
    requires
        book.wf(),
        taker.wf(),
        quantities_fit_scale(book.side(taker.side.opposite()), taker.quantity, scale),
    ensures
        match_is_exact(book, taker),
{
    match taker.price {
        None => {},
        Some(limit) => {
            let against = taker.side.opposite();
            lemma_sweep_at_scale_is_exact(
                book.side(against),
                against,
                taker.id,
                limit,
                taker.quantity,
                scale,
            );
        },
    }
}

/// The best price of a side after an order has come to rest on it: the
/// order's price where that has priority over the best price there was, or
/// where there was none, and else the best price there was.
pub proof fn lemma_inserted_best(levels: Seq<Level>, side: Side, order: Order)
    requires
        order.price is Some,
    ensures
        inserted(levels, side, order).len() > 0,
        inserted(levels, side, order)[0].price.units() == if levels.len() > 0 && !better(
            side,
            order.price->0.units(),
            levels[0].price.units(),
        ) {
            levels[0].price.units()
        } else {
            order.price->0.units()
        },
{
}

/// A match adds no crossing. The taker itself never comes to rest across
/// what is left of the opposite side; so the book is crossed after a match
/// exactly where the best order that already rested on the taker's own side
/// stands across the best of what the match has left of the opposite side.
pub proof fn lemma_match_adds_no_crossing(book: Book, taker: Order)
    requires
        book.wf(),
        taker.wf(),
    ensures
        ({
            let against = taker.side.opposite();
            let own = book.side(taker.side);
            let left = matched(book, taker).book.side(against);
            matched(book, taker).book.crossed() <==> {
                &&& own.len() > 0
                &&& left.len() > 0
                &&& !better(against, own[0].price.units(), left[0].price.units())
            }
        }),
{
    match taker.price {
        None => {},
        Some(limit) => {
            let against = taker.side.opposite();
            let levels = book.side(against);
            lemma_sweep_levels(levels, against, taker.id, limit, taker.quantity);
            let swept = sweep(levels, against, taker.id, limit, taker.quantity);
            let rest = taker.with_quantity(swept.remaining);
            let own = book.side(taker.side);
            if rest.can_rest() {
                lemma_inserted_best(own, taker.side, rest);
            }
        },
    }
}

/// A book that is not crossed is not crossed after a match: where both
/// sides hold orders afterwards, the best bid is strictly below the best
/// ask.
pub proof fn lemma_match_keeps_book_uncrossed(book: Book, taker: Order)
    requires
        book.wf(),
        taker.wf(),
        !book.crossed(),
    ensures
        !matched(book, taker).book.crossed(),
{
    match taker.price {
        None => {},
        Some(limit) => {
            let against = taker.side.opposite();
            let levels = book.side(against);
            lemma_sweep_levels(levels, against, taker.id, limit, taker.quantity);
            let swept = sweep(levels, against, taker.id, limit, taker.quantity);
            let rest = taker.with_quantity(swept.remaining);
            let own = book.side(taker.side);
            let after = matched(book, taker).book;
            let gone = levels.len() - swept.levels.len();
            if swept.levels.len() > 0 {
                assert(swept.levels[0].price == levels[gone].price);
                if gone > 0 {
                    assert(better(against, levels[0].price.units(), levels[gone].price.units()));
                }
                if rest.can_rest() {
                    lemma_inserted_best(own, taker.side, rest);
                }
            }
        },
    }
}

/// A book that only ever matched incoming orders, from empty, is well formed
/// and never crossed: whatever orders came in, and in whatever order, the
/// best bid stands strictly below the best ask where both sides hold orders.
pub proof fn lemma_matches_never_cross_the_book(takers: Seq<Order>)
    requires
        forall|k: int| 0 <= k < takers.len() ==> (#[trigger] takers[k]).wf(),
    ensures
        matched_all(Book::empty(), takers).wf(),
        !matched_all(Book::empty(), takers).crossed(),
    decreases takers.len(),
{
    if takers.len() > 0 {
        let earlier = takers.drop_last();
        assert forall|k: int| 0 <= k < earlier.len() implies (#[trigger] earlier[k]).wf() by {
            assert(earlier[k] == takers[k]);
        }
        lemma_matches_never_cross_the_book(earlier);
        let book = matched_all(Book::empty(), earlier);
        assert(takers.last() == takers[takers.len() - 1]);
        lemma_match_keeps_book_well_formed(book, takers.last());
        lemma_match_keeps_book_uncrossed(book, takers.last());
    }
}

/// An order with a positive quantity that crosses the best price of the
/// opposite side trades when it is matched: its first trade is with the
/// oldest order of the best opposite level, at that order's price.
pub proof fn lemma_crossing_order_trades(book: Book, taker: Order)
    requires
        book.wf(),
        taker.wf(),
        taker.quantity.units() > 0,
        crosses(book.side(taker.side.opposite()), taker),
    ensures
        matched(book, taker).fills.len() > 0,
        matched(book, taker).fills[0] == fill_of(
            book.side(taker.side.opposite())[0].orders[0],
            taker.id,
            taker.quantity,
        ),
{
    let against = taker.side.opposite();
    lemma_sweep_trades(book.side(against), against, taker.id, taker.price->0, taker.quantity);
}

} // verus!
