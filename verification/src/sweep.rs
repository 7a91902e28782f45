//! Matching an incoming order against one side of the book, under strict
//! price-time priority: what the outcome is, and the code that produces it.

use vstd::prelude::*;
use uuid::Uuid;
use crate::book::{
    better, has_priority, lemma_rest_wf, level_wf, levels_wf, rests_at, BookSide, Level,
};
use crate::decimal::{lemma_minus_self, Amount};
use crate::order::{fills_of, now, Fill, Order, Side, Trade};

verus! {

/// The outcome of matching against the queue of one level.
pub ghost struct QueueOutcome {
    /// The orders that still rest at the level, oldest first.
    pub orders: Seq<Order>,
    /// The executions, earliest first.
    pub fills: Seq<Fill>,
    /// What the incoming order has left.
    pub remaining: Amount,
}

/// The outcome of matching against one side of the book.
pub ghost struct SweepOutcome {
    /// The levels that the side still has, best first.
    pub levels: Seq<Level>,
    /// The executions, earliest first.
    pub fills: Seq<Fill>,
    /// What the incoming order has left.
    pub remaining: Amount,
}

/// The execution of an incoming order that has `remaining` left against the
/// resting order `maker`: at the maker's price, for the smaller of the two
/// quantities.
pub open spec fn fill_of(maker: Order, taker_id: Uuid, remaining: Amount) -> Fill {
    Fill {
        maker_order_id: maker.id,
        taker_order_id: taker_id,
        price: maker.price->0,
        quantity: remaining.smaller(maker.quantity),
    }
}

/// Matching an incoming order that has `remaining` left against a queue, in
/// arrival order. Each maker trades the smaller of the two quantities; a
/// maker that has nothing left leaves the queue; matching stops when the
/// incoming order has nothing left.
pub open spec fn fill_queue(orders: Seq<Order>, taker_id: Uuid, remaining: Amount) -> QueueOutcome
    decreases orders.len(),
{
    if orders.len() == 0 || remaining.units() <= 0 {
        QueueOutcome { orders, fills: Seq::empty(), remaining }
    } else {
        let maker = orders[0];
        let quantity = remaining.smaller(maker.quantity);
        let left = maker.quantity.minus(quantity);
        let rest = fill_queue(orders.drop_first(), taker_id, remaining.minus(quantity));
        QueueOutcome {
            orders: if left.units() > 0 {
                seq![maker.with_quantity(left)] + rest.orders
            } else {
                rest.orders
            },
            fills: seq![fill_of(maker, taker_id, remaining)] + rest.fills,
            remaining: rest.remaining,
        }
    }
}

/// The `limit` of an incoming order admits a level of the opposite side
/// `side` at `price`: the level's price is no worse than the limit.
pub open spec fn admits(side: Side, limit: Amount, price: Amount) -> bool {
    !better(side, limit.units(), price.units())
}

/// Matching an incoming order with the given limit price against the levels
/// of the opposite side, which is the `side` of the book, best level first.
/// It stops at the first level that the limit does not admit, or when the
/// incoming order has nothing left. A level left empty leaves the side.
pub open spec fn sweep(
    levels: Seq<Level>,
    side: Side,
    taker_id: Uuid,
    limit: Amount,
    remaining: Amount,
) -> SweepOutcome
    decreases levels.len(),
{
    if levels.len() == 0 || remaining.units() <= 0 || !admits(side, limit, levels[0].price) {
        SweepOutcome { levels, fills: Seq::empty(), remaining }
    } else {
        let first = fill_queue(levels[0].orders, taker_id, remaining);
        let rest = sweep(levels.drop_first(), side, taker_id, limit, first.remaining);
        SweepOutcome {
            levels: if first.orders.len() > 0 {
                seq![Level { price: levels[0].price, orders: first.orders }] + rest.levels
            } else {
                rest.levels
            },
            fills: first.fills + rest.fills,
            remaining: rest.remaining,
        }
    }
}

/// A maker that keeps a positive quantity has exhausted the incoming order.
pub proof fn lemma_partial_fill_exhausts_taker(maker: Amount, remaining: Amount)
    requires
        maker.wf(),
        remaining.wf(),
        maker.minus(remaining.smaller(maker)).units() > 0,
    ensures
        remaining.smaller(maker) == remaining,
        remaining.minus(remaining.smaller(maker)).units() == 0,
{
    lemma_minus_self(maker);
    lemma_minus_self(remaining);
}

impl BookSide {
    /// Matches an incoming order that has `remaining` left against the queue
    /// of the best level, and records the trades.
    fn fill_best(
        &mut self,
        side: Side,
        taker_id: Uuid,
        remaining: Amount,
        trades: &mut Vec<Trade>,
    ) -> (left: Amount)
        requires
            levels_wf(old(self)@, side),
            old(self)@.len() > 0,
        ensures
            left == fill_queue(old(self)@[0].orders, taker_id, remaining).remaining,
            fills_of(final(trades)@) == fills_of(old(trades)@) + fill_queue(
                old(self)@[0].orders,
                taker_id,
                remaining,
            ).fills,
            final(self)@.len() == old(self)@.len(),
            final(self)@ == old(self)@.update(
                0,
                Level {
                    price: old(self)@[0].price,
                    orders: fill_queue(old(self)@[0].orders, taker_id, remaining).orders,
                },
            ),
            forall|k: int|
                0 <= k < final(self)@[0].orders.len() ==> rests_at(
                    #[trigger] final(self)@[0].orders[k],
                    side,
                    old(self)@[0].price,
                ),
            final(self)@[0].orders.len() > 0 ==> left.units() <= 0,
    {
        let ghost queue = self@[0].orders;
        let ghost price = self@[0].price;
        let ghost before = fills_of(trades@);
        let ghost whole = fill_queue(queue, taker_id, remaining);
        let mut remaining = remaining;
        assert(level_wf(self@[0], side));
        while self.levels[0].orders.len() > 0 && remaining.is_positive()
            invariant
                self.levels.len() == old(self).levels.len(),
                self.levels.len() > 0,
                self.levels@[0].price == price,
                forall|i: int|
                    1 <= i < self.levels.len() ==> self.levels@[i] == old(self).levels@[i],
                forall|k: int|
                    0 <= k < self@[0].orders.len() ==> rests_at(
                        #[trigger] self@[0].orders[k],
                        side,
                        price,
                    ),
                whole.remaining == fill_queue(self@[0].orders, taker_id, remaining).remaining,
                whole.orders == fill_queue(self@[0].orders, taker_id, remaining).orders,
                before + whole.fills == fills_of(trades@) + fill_queue(
                    self@[0].orders,
                    taker_id,
                    remaining,
                ).fills,
            ensures
                self.levels.len() == old(self).levels.len(),
                self.levels.len() > 0,
                self.levels@[0].price == price,
                forall|i: int|
                    1 <= i < self.levels.len() ==> self.levels@[i] == old(self).levels@[i],
                forall|k: int|
                    0 <= k < self@[0].orders.len() ==> rests_at(
                        #[trigger] self@[0].orders[k],
                        side,
                        price,
                    ),
                whole.remaining == remaining,
                whole.orders == self@[0].orders,
                before + whole.fills == fills_of(trades@),
                self@[0].orders.len() > 0 ==> remaining.units() <= 0,
            decreases self.levels[0].orders.len(),
        {
            let ghost orders = self@[0].orders;
            let ghost taken = fills_of(trades@);
            let ghost had = remaining;
            let maker = self.levels[0].orders[0];
            assert(maker == orders[0]);
            assert(rests_at(orders[0], side, price));
            proof {
                use_type_invariant(&remaining);
            }
            let quantity = remaining.min(maker.quantity);
            let maker_left = maker.quantity.subtract(quantity);
            let timestamp = now();
            trades.push(
                Trade {
                    maker_order_id: maker.id,
                    taker_order_id: taker_id,
                    price: maker.price.unwrap(),
                    quantity,
                    timestamp,
                },
            );
            remaining = remaining.subtract(quantity);
            proof {
                use_type_invariant(&maker_left);
                assert(fills_of(trades@) =~= taken + seq![fill_of(maker, taker_id, had)]);
            }
            let ghost rest = fill_queue(orders.drop_first(), taker_id, remaining);
            if maker_left.is_positive() {
                self.levels[0].orders[0].quantity = maker_left;
                proof {
                    lemma_partial_fill_exhausts_taker(maker.quantity, had);
                    assert(rest.orders == orders.drop_first());
                    assert(rest.fills == Seq::<Fill>::empty());
                    assert(self@[0].orders =~= seq![maker.with_quantity(maker_left)]
                        + orders.drop_first());
                    assert(self.levels[0].orders@[0] == maker.with_quantity(maker_left));
                    assert forall|k: int| 0 <= k < self@[0].orders.len() implies rests_at(
                        #[trigger] self@[0].orders[k],
                        side,
                        price,
                    ) by {
                        if k > 0 {
                            assert(self@[0].orders[k] == orders[k]);
                        }
                    }
                    assert(before + whole.fills =~= fills_of(trades@));
                }
                break ;
            } else {
                self.levels[0].orders.remove(0);
                proof {
                    assert(self@[0].orders =~= orders.drop_first());
                    assert forall|k: int| 0 <= k < self@[0].orders.len() implies rests_at(
                        #[trigger] self@[0].orders[k],
                        side,
                        price,
                    ) by {
                        assert(self@[0].orders[k] == orders[k + 1]);
                    }
                    assert(taken + (seq![fill_of(maker, taker_id, had)] + rest.fills) =~= (taken
                        + seq![fill_of(maker, taker_id, had)]) + rest.fills);
                }
            }
        }
        assert(self@ =~= old(self)@.update(0, Level { price, orders: self@[0].orders }));
        remaining
    }

    /// Matches an incoming order with the given limit price, of which
    /// `remaining` is left, against this side, which is the `side` of the
    /// book; records the trades and returns what the order has left.
    pub(crate) fn sweep(
        &mut self,
        side: Side,
        taker_id: Uuid,
        limit: Amount,
        remaining: Amount,
        trades: &mut Vec<Trade>,
    ) -> (left: Amount)
        requires
            levels_wf(old(self)@, side),
        ensures
            levels_wf(final(self)@, side),
            final(self)@ == sweep(old(self)@, side, taker_id, limit, remaining).levels,
            fills_of(final(trades)@) == fills_of(old(trades)@) + sweep(
                old(self)@,
                side,
                taker_id,
                limit,
                remaining,
            ).fills,
            left == sweep(old(self)@, side, taker_id, limit, remaining).remaining,
    {
        let ghost before = fills_of(trades@);
        let ghost whole = sweep(self@, side, taker_id, limit, remaining);
        let mut remaining = remaining;
        while self.levels.len() > 0 && remaining.is_positive() && !has_priority(
            side,
            &limit,
            &self.levels[0].price,
        )
            invariant
                levels_wf(self@, side),
                whole.levels == sweep(self@, side, taker_id, limit, remaining).levels,
                whole.remaining == sweep(self@, side, taker_id, limit, remaining).remaining,
                before + whole.fills == fills_of(trades@) + sweep(
                    self@,
                    side,
                    taker_id,
                    limit,
                    remaining,
                ).fills,
            ensures
                levels_wf(self@, side),
                whole.levels == self@,
                whole.remaining == remaining,
                before + whole.fills == fills_of(trades@),
            decreases self.levels.len(),
        {
            let ghost levels = self@;
            let ghost taken = fills_of(trades@);
            let ghost first = fill_queue(levels[0].orders, taker_id, remaining);
            let ghost had = remaining;
            remaining = self.fill_best(side, taker_id, remaining, trades);
            let ghost rest = sweep(levels.drop_first(), side, taker_id, limit, remaining);
            let ghost step = sweep(levels, side, taker_id, limit, had);
            proof {
                assert(remaining == first.remaining);
                assert(self@[0].orders == first.orders);
                assert(step.fills == first.fills + rest.fills);
                assert(step.remaining == rest.remaining);
                assert(fills_of(trades@) == taken + first.fills);
                assert(taken + (first.fills + rest.fills) =~= (taken + first.fills) + rest.fills);
                assert forall|i: int| 1 <= i < levels.len() implies self@[i] == levels[i] by {}
            }
            if self.levels[0].orders.len() == 0 {
                self.levels.remove(0);
                proof {
                    assert(self@ =~= levels.drop_first());
                    assert(step.levels == rest.levels);
                    lemma_rest_wf(levels, side);
                }
            } else {
                proof {
                    assert(remaining.units() <= 0);
                    assert(rest.levels == levels.drop_first());
                    assert(rest.fills == Seq::<Fill>::empty());
                    assert(rest.remaining == remaining);
                    assert(step.levels == seq![
                        Level { price: levels[0].price, orders: first.orders },
                    ] + levels.drop_first());
                    assert(self@ =~= seq![Level { price: levels[0].price, orders: first.orders }]
                        + levels.drop_first());
                    assert(level_wf(self@[0], side)) by {
                        assert(level_wf(levels[0], side));
                    }
                    assert forall|i: int| 0 <= i < self@.len() implies level_wf(
                        #[trigger] self@[i],
                        side,
                    ) by {
                        if i > 0 {
                            assert(self@[i] == levels[i]);
                        }
                    }
                    assert forall|i: int, j: int| 0 <= i < j < self@.len() implies better(
                        side,
                        (#[trigger] self@[i]).price.units(),
                        (#[trigger] self@[j]).price.units(),
                    ) by {
                        assert(self@[i].price == levels[i].price);
                        assert(self@[j].price == levels[j].price);
                    }
                    assert(before + whole.fills =~= fills_of(trades@));
                }
                break ;
            }
        }
        remaining
    }
}

} // verus!
