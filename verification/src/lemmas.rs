//! What holds of matching against a queue and against a side: which makers
//! trade, in which order and for how much, and what is left afterwards. The
//! laws of the book are proved from these.

use vstd::prelude::*;
use uuid::Uuid;
use crate::book::{better, lemma_rest_wf, level_wf, levels_wf, rests_at, Level};
use crate::decimal::{
    difference_fits, lemma_difference_at_scale, lemma_minus_exact, lemma_minus_self,
    lemma_minus_wf, Amount,
};
use crate::order::{Fill, Order, Side};
use crate::sweep::{admits, fill_of, fill_queue, sweep};

verus! {

/// `fill` is an execution of the incoming order `taker_id` against `maker`:
/// it names both orders, its price is the maker's own price, and its
/// quantity is positive and no more than the maker had.
pub open spec fn fills_maker(fill: Fill, maker: Order, taker_id: Uuid) -> bool {
    &&& fill.maker_order_id == maker.id
    &&& fill.taker_order_id == taker_id
    &&& fill.price == maker.price->0
    &&& 0 < fill.quantity.units() <= maker.quantity.units()
}

/// The resting orders of a side in the order in which an incoming order
/// meets them: level by level, best first, and oldest first within a level.
pub open spec fn makers(levels: Seq<Level>) -> Seq<Order>
    decreases levels.len(),
{
    if levels.len() == 0 {
        Seq::empty()
    } else {
        levels[0].orders + makers(levels.drop_first())
    }
}

/// The sum of the quantities of the fills, in units of `10^-28`.
pub open spec fn traded_units(fills: Seq<Fill>) -> int
    decreases fills.len(),
{
    if fills.len() == 0 {
        0
    } else {
        fills[0].quantity.units() + traded_units(fills.drop_first())
    }
}

/// The sum of the quantities of the orders, in units of `10^-28`.
pub open spec fn resting_units(orders: Seq<Order>) -> int
    decreases orders.len(),
{
    if orders.len() == 0 {
        0
    } else {
        orders[0].quantity.units() + resting_units(orders.drop_first())
    }
}

/// Every subtraction that matching against the queue makes is exact: the
/// difference fits at the larger of the two scales.
pub open spec fn queue_is_exact(orders: Seq<Order>, remaining: Amount) -> bool
    decreases orders.len(),
{
    if orders.len() == 0 || remaining.units() <= 0 {
        true
    } else {
        let quantity = remaining.smaller(orders[0].quantity);
        &&& difference_fits(remaining@, quantity@)
        &&& difference_fits(orders[0].quantity@, quantity@)
        &&& queue_is_exact(orders.drop_first(), remaining.minus(quantity))
    }
}

/// Every subtraction that matching against the side makes is exact.
pub open spec fn sweep_is_exact(
    levels: Seq<Level>,
    side: Side,
    taker_id: Uuid,
    limit: Amount,
    remaining: Amount,
) -> bool
    decreases levels.len(),
{
    if levels.len() == 0 || remaining.units() <= 0 || !admits(side, limit, levels[0].price) {
        true
    } else {
        &&& queue_is_exact(levels[0].orders, remaining)
        &&& sweep_is_exact(
            levels.drop_first(),
            side,
            taker_id,
            limit,
            fill_queue(levels[0].orders, taker_id, remaining).remaining,
        )
    }
}

/// The sum over two runs of fills is the sum of the two sums.
pub proof fn lemma_traded_units_add(a: Seq<Fill>, b: Seq<Fill>)
    ensures
        traded_units(a + b) == traded_units(a) + traded_units(b),
    decreases a.len(),
{
    if a.len() == 0 {
        assert(a + b =~= b);
    } else {
        assert((a + b).drop_first() =~= a.drop_first() + b);
        lemma_traded_units_add(a.drop_first(), b);
    }
}

/// The sum over two runs of orders is the sum of the two sums.
pub proof fn lemma_resting_units_add(a: Seq<Order>, b: Seq<Order>)
    ensures
        resting_units(a + b) == resting_units(a) + resting_units(b),
    decreases a.len(),
{
    if a.len() == 0 {
        assert(a + b =~= b);
    } else {
        assert((a + b).drop_first() =~= a.drop_first() + b);
        lemma_resting_units_add(a.drop_first(), b);
    }
}

/// Matching against a queue. The fills go down the queue from its head, one
/// per maker, each at the maker's price; every fill but the last takes its
/// maker whole. Where the incoming order has something left, it has taken
/// the whole queue. What stays in the queue still rests at the level's
/// price.
pub proof fn lemma_fill_queue(
    orders: Seq<Order>,
    side: Side,
    price: Amount,
    taker_id: Uuid,
    remaining: Amount,
)
    requires
        forall|k: int| 0 <= k < orders.len() ==> rests_at(#[trigger] orders[k], side, price),
        remaining.wf(),
    ensures
        ({
            let out = fill_queue(orders, taker_id, remaining);
            &&& out.remaining.wf()
            &&& out.fills.len() <= orders.len()
            &&& out.orders.len() <= orders.len()
            &&& remaining.units() > 0 && orders.len() > 0 ==> out.fills.len() > 0
            &&& remaining.units() <= 0 ==> out.fills.len() == 0
            &&& forall|k: int|
                0 <= k < out.fills.len() ==> fills_maker(
                    #[trigger] out.fills[k],
                    orders[k],
                    taker_id,
                )
            &&& forall|k: int|
                0 <= k < out.fills.len() - 1 ==> (#[trigger] out.fills[k]).quantity
                    == orders[k].quantity
            &&& out.remaining.units() > 0 ==> {
                &&& out.orders.len() == 0
                &&& out.fills.len() == orders.len()
                &&& forall|k: int|
                    0 <= k < orders.len() ==> (#[trigger] out.fills[k]).quantity
                        == orders[k].quantity
            }
            &&& forall|k: int|
                0 <= k < out.orders.len() ==> rests_at(#[trigger] out.orders[k], side, price)
        }),
    decreases orders.len(),
{
    let out = fill_queue(orders, taker_id, remaining);
    if orders.len() == 0 || remaining.units() <= 0 {
    } else {
        let maker = orders[0];
        assert(rests_at(maker, side, price));
        let quantity = remaining.smaller(maker.quantity);
        let left = maker.quantity.minus(quantity);
        let next = remaining.minus(quantity);
        let tail = orders.drop_first();
        let rest = fill_queue(tail, taker_id, next);
        lemma_minus_wf(maker.quantity, quantity);
        lemma_minus_wf(remaining, quantity);
        lemma_minus_self(maker.quantity);
        lemma_minus_self(remaining);
        assert forall|k: int| 0 <= k < tail.len() implies rests_at(
            #[trigger] tail[k],
            side,
            price,
        ) by {
            assert(tail[k] == orders[k + 1]);
        }
        lemma_fill_queue(tail, side, price, taker_id, next);
        let first = fill_of(maker, taker_id, remaining);
        assert(out.fills == seq![first] + rest.fills);
        assert(fills_maker(first, maker, taker_id));
        assert forall|k: int| 0 <= k < out.fills.len() implies fills_maker(
            #[trigger] out.fills[k],
            orders[k],
            taker_id,
        ) by {
            if k > 0 {
                assert(out.fills[k] == rest.fills[k - 1]);
                assert(orders[k] == tail[k - 1]);
            }
        }
        if quantity == maker.quantity {
            // The maker is taken whole and leaves the queue.
            assert(left.units() == 0);
            assert(out.orders == rest.orders);
        } else {
            // The incoming order is exhausted.
            assert(quantity == remaining);
            assert(next.units() == 0);
            assert(rest.fills.len() == 0);
            assert(rest.orders == tail);
        }
        assert forall|k: int| 0 <= k < out.fills.len() - 1 implies (#[trigger] out.fills[k]).quantity
            == orders[k].quantity by {
            if k > 0 {
                assert(out.fills[k] == rest.fills[k - 1]);
                assert(orders[k] == tail[k - 1]);
            }
        }
        if out.remaining.units() > 0 {
            assert(quantity == maker.quantity);
            assert forall|k: int| 0 <= k < orders.len() implies (#[trigger] out.fills[k]).quantity
                == orders[k].quantity by {
                if k > 0 {
                    assert(out.fills[k] == rest.fills[k - 1]);
                    assert(orders[k] == tail[k - 1]);
                }
            }
        }
        assert forall|k: int| 0 <= k < out.orders.len() implies rests_at(
            #[trigger] out.orders[k],
            side,
            price,
        ) by {
            if left.units() > 0 {
                if k > 0 {
                    assert(out.orders[k] == rest.orders[k - 1]);
                }
            }
        }
    }
}

/// Matching against a queue takes makers off its head and leaves the rest
/// in their order. With `gone` the number of makers that left: there are
/// `gone` fills, or one more; the orders that stay are those that stood from
/// place `gone` on, unchanged but for the quantity of the first; and the
/// first is unchanged too unless it traded.
pub proof fn lemma_fill_queue_keeps_order(
    orders: Seq<Order>,
    side: Side,
    price: Amount,
    taker_id: Uuid,
    remaining: Amount,
)
    requires
        forall|k: int| 0 <= k < orders.len() ==> rests_at(#[trigger] orders[k], side, price),
        remaining.wf(),
    ensures
        ({
            let out = fill_queue(orders, taker_id, remaining);
            let gone = orders.len() - out.orders.len();
            &&& 0 <= gone <= out.fills.len() <= gone + 1
            &&& forall|i: int|
                1 <= i < out.orders.len() ==> #[trigger] out.orders[i] == orders[i + gone]
            &&& out.orders.len() > 0 ==> out.orders[0] == orders[gone].with_quantity(
                out.orders[0].quantity,
            )
            &&& out.orders.len() > 0 && out.fills.len() == gone ==> out.orders[0] == orders[gone]
        }),
    decreases orders.len(),
{
    let out = fill_queue(orders, taker_id, remaining);
    if orders.len() == 0 || remaining.units() <= 0 {
    } else {
        let maker = orders[0];
        assert(rests_at(maker, side, price));
        let quantity = remaining.smaller(maker.quantity);
        let left = maker.quantity.minus(quantity);
        let next = remaining.minus(quantity);
        let tail = orders.drop_first();
        let rest = fill_queue(tail, taker_id, next);
        lemma_minus_wf(remaining, quantity);
        lemma_minus_self(maker.quantity);
        lemma_minus_self(remaining);
        assert forall|k: int| 0 <= k < tail.len() implies rests_at(
            #[trigger] tail[k],
            side,
            price,
        ) by {
            assert(tail[k] == orders[k + 1]);
        }
        lemma_fill_queue_keeps_order(tail, side, price, taker_id, next);
        let rest_gone = tail.len() - rest.orders.len();
        assert(out.fills.len() == 1 + rest.fills.len());
        if left.units() > 0 {
            assert(quantity == remaining);
            assert(rest.orders == tail);
            assert(rest.fills.len() == 0);
            assert(out.orders == seq![maker.with_quantity(left)] + tail);
            assert forall|i: int| 1 <= i < out.orders.len() implies #[trigger] out.orders[i]
                == orders[i] by {
                assert(out.orders[i] == tail[i - 1]);
            }
        } else {
            assert(out.orders == rest.orders);
            assert forall|i: int| 1 <= i < out.orders.len() implies #[trigger] out.orders[i]
                == orders[i + rest_gone + 1] by {
                assert(rest.orders[i] == tail[i + rest_gone]);
                assert(tail[i + rest_gone] == orders[i + rest_gone + 1]);
            }
            if out.orders.len() > 0 {
                assert(tail[rest_gone] == orders[rest_gone + 1]);
            }
        }
    }
}

/// Where every subtraction is exact, matching against a queue moves
/// quantity without loss: the incoming order has left what it had less what
/// was traded, and so has the queue.
pub proof fn lemma_fill_queue_conserves(
    orders: Seq<Order>,
    side: Side,
    price: Amount,
    taker_id: Uuid,
    remaining: Amount,
)
    requires
        forall|k: int| 0 <= k < orders.len() ==> rests_at(#[trigger] orders[k], side, price),
        remaining.wf(),
        queue_is_exact(orders, remaining),
    ensures
        ({
            let out = fill_queue(orders, taker_id, remaining);
            &&& out.remaining.units() == remaining.units() - traded_units(out.fills)
            &&& resting_units(out.orders) == resting_units(orders) - traded_units(out.fills)
        }),
    decreases orders.len(),
{
    let out = fill_queue(orders, taker_id, remaining);
    if orders.len() == 0 || remaining.units() <= 0 {
    } else {
        let maker = orders[0];
        assert(rests_at(maker, side, price));
        let quantity = remaining.smaller(maker.quantity);
        let left = maker.quantity.minus(quantity);
        let next = remaining.minus(quantity);
        let tail = orders.drop_first();
        let rest = fill_queue(tail, taker_id, next);
        lemma_minus_exact(maker.quantity, quantity);
        lemma_minus_exact(remaining, quantity);
        assert forall|k: int| 0 <= k < tail.len() implies rests_at(
            #[trigger] tail[k],
            side,
            price,
        ) by {
            assert(tail[k] == orders[k + 1]);
        }
        lemma_fill_queue_conserves(tail, side, price, taker_id, next);
        let first = fill_of(maker, taker_id, remaining);
        assert(out.fills.drop_first() =~= rest.fills);
        assert(traded_units(out.fills) == quantity.units() + traded_units(rest.fills));
        if left.units() > 0 {
            assert(out.orders.drop_first() =~= rest.orders);
            assert(out.orders[0].quantity == left);
        } else {
            assert(left.units() == 0);
        }
    }
}

/// Matching against a side: what becomes of the levels. The levels that are
/// left are well formed; they are the last of the levels that there were,
/// each at its old price. Where the incoming order has something left, the
/// limit admits none of them: the best of them, if there is one, is beyond
/// the limit.
pub proof fn lemma_sweep_levels(
    levels: Seq<Level>,
    side: Side,
    taker_id: Uuid,
    limit: Amount,
    remaining: Amount,
)
    requires
        levels_wf(levels, side),
        remaining.wf(),
    ensures
        ({
            let out = sweep(levels, side, taker_id, limit, remaining);
            let gone = levels.len() - out.levels.len();
            &&& out.remaining.wf()
            &&& levels_wf(out.levels, side)
            &&& gone >= 0
            &&& forall|i: int|
                0 <= i < out.levels.len() ==> (#[trigger] out.levels[i]).price == levels[i
                    + gone].price
            &&& out.remaining.units() > 0 && out.levels.len() > 0 ==> !admits(
                side,
                limit,
                out.levels[0].price,
            )
        }),
    decreases levels.len(),
{
    let out = sweep(levels, side, taker_id, limit, remaining);
    if levels.len() == 0 || remaining.units() <= 0 || !admits(side, limit, levels[0].price) {
    } else {
        let tail = levels.drop_first();
        let first = fill_queue(levels[0].orders, taker_id, remaining);
        let rest = sweep(tail, side, taker_id, limit, first.remaining);
        assert(level_wf(levels[0], side));
        lemma_fill_queue(levels[0].orders, side, levels[0].price, taker_id, remaining);
        lemma_rest_wf(levels, side);
        lemma_sweep_levels(tail, side, taker_id, limit, first.remaining);
        let rest_gone = tail.len() - rest.levels.len();
        if first.orders.len() > 0 {
            let level = Level { price: levels[0].price, orders: first.orders };
            assert(rest.levels == tail);
            assert(out.levels == seq![level] + tail);
            assert(level_wf(level, side));
            assert forall|i: int| 0 <= i < out.levels.len() implies level_wf(
                #[trigger] out.levels[i],
                side,
            ) by {
                if i > 0 {
                    assert(out.levels[i] == levels[i]);
                }
            }
            assert forall|i: int| 0 <= i < out.levels.len() implies (#[trigger] out.levels[i]).price
                == levels[i].price by {
                if i > 0 {
                    assert(out.levels[i] == levels[i]);
                }
            }
            assert forall|i: int, j: int| 0 <= i < j < out.levels.len() implies better(
                side,
                (#[trigger] out.levels[i]).price.units(),
                (#[trigger] out.levels[j]).price.units(),
            ) by {
                assert(out.levels[i].price == levels[i].price);
                assert(out.levels[j].price == levels[j].price);
            }
        } else {
            assert(out.levels == rest.levels);
            assert forall|i: int| 0 <= i < out.levels.len() implies (#[trigger] out.levels[i]).price
                == levels[i + rest_gone + 1].price by {
                assert(rest.levels[i].price == tail[i + rest_gone].price);
                assert(tail[i + rest_gone] == levels[i + rest_gone + 1]);
            }
        }
    }
}

/// Matching against a side: which makers trade. The fills go through the
/// makers in priority order from the first, one per maker, each at the
/// maker's own price, which the limit admits; every fill but the last takes
/// its maker whole.
pub proof fn lemma_sweep_fills(
    levels: Seq<Level>,
    side: Side,
    taker_id: Uuid,
    limit: Amount,
    remaining: Amount,
)
    requires
        levels_wf(levels, side),
        remaining.wf(),
    ensures
        ({
            let out = sweep(levels, side, taker_id, limit, remaining);
            let queue = makers(levels);
            &&& out.fills.len() <= queue.len()
            &&& remaining.units() <= 0 ==> out.fills.len() == 0
            &&& forall|k: int|
                0 <= k < out.fills.len() ==> {
                    &&& fills_maker(#[trigger] out.fills[k], queue[k], taker_id)
                    &&& admits(side, limit, out.fills[k].price)
                }
            &&& forall|k: int|
                0 <= k < out.fills.len() - 1 ==> (#[trigger] out.fills[k]).quantity
                    == queue[k].quantity
        }),
    decreases levels.len(),
{
    let out = sweep(levels, side, taker_id, limit, remaining);
    let queue = makers(levels);
    if levels.len() == 0 || remaining.units() <= 0 || !admits(side, limit, levels[0].price) {
    } else {
        let tail = levels.drop_first();
        let orders = levels[0].orders;
        let first = fill_queue(orders, taker_id, remaining);
        let rest = sweep(tail, side, taker_id, limit, first.remaining);
        assert(level_wf(levels[0], side));
        lemma_fill_queue(orders, side, levels[0].price, taker_id, remaining);
        lemma_rest_wf(levels, side);
        lemma_sweep_fills(tail, side, taker_id, limit, first.remaining);
        assert(queue == orders + makers(tail));
        assert(out.fills == first.fills + rest.fills);
        if rest.fills.len() > 0 {
            assert(first.remaining.units() > 0);
            assert(first.fills.len() == orders.len());
        }
        assert forall|k: int| 0 <= k < out.fills.len() implies {
            &&& fills_maker(#[trigger] out.fills[k], queue[k], taker_id)
            &&& admits(side, limit, out.fills[k].price)
        } by {
            if k < first.fills.len() {
                assert(out.fills[k] == first.fills[k]);
                assert(queue[k] == orders[k]);
                assert(rests_at(orders[k], side, levels[0].price));
            } else {
                let m = first.fills.len() as int;
                assert(out.fills[k] == rest.fills[k - m]);
                assert(queue[k] == makers(tail)[k - m]);
            }
        }
        assert forall|k: int| 0 <= k < out.fills.len() - 1 implies (#[trigger] out.fills[k]).quantity
            == queue[k].quantity by {
            if k < first.fills.len() {
                assert(out.fills[k] == first.fills[k]);
                assert(queue[k] == orders[k]);
            } else {
                let m = first.fills.len() as int;
                assert(out.fills[k] == rest.fills[k - m]);
                assert(queue[k] == makers(tail)[k - m]);
            }
        }
    }
}

/// The makers of a side whose best level is `level`.
pub proof fn lemma_makers_of(level: Level, rest: Seq<Level>)
    ensures
        makers(seq![level] + rest) == level.orders + makers(rest),
{
    let levels = seq![level] + rest;
    assert(levels[0] == level);
    assert(levels.drop_first() =~= rest);
}

/// Matching against a side takes makers off the head of the priority order
/// and leaves the rest in their order. With `gone` the number of makers that
/// left: there are `gone` fills, or one more; the makers that stay are those
/// that stood from place `gone` on, unchanged but for the quantity of the
/// first; and the first is unchanged too unless it traded.
pub proof fn lemma_sweep_keeps_order(
    levels: Seq<Level>,
    side: Side,
    taker_id: Uuid,
    limit: Amount,
    remaining: Amount,
)
    requires
        levels_wf(levels, side),
        remaining.wf(),
    ensures
        ({
            let out = sweep(levels, side, taker_id, limit, remaining);
            let before = makers(levels);
            let after = makers(out.levels);
            let gone = before.len() - after.len();
            &&& 0 <= gone <= out.fills.len() <= gone + 1
            &&& forall|i: int| 1 <= i < after.len() ==> #[trigger] after[i] == before[i + gone]
            &&& after.len() > 0 ==> after[0] == before[gone].with_quantity(after[0].quantity)
            &&& after.len() > 0 && out.fills.len() == gone ==> after[0] == before[gone]
        }),
    decreases levels.len(),
{
    let out = sweep(levels, side, taker_id, limit, remaining);
    let before = makers(levels);
    let after = makers(out.levels);
    if levels.len() == 0 || remaining.units() <= 0 || !admits(side, limit, levels[0].price) {
    } else {
        let tail = levels.drop_first();
        let orders = levels[0].orders;
        let first = fill_queue(orders, taker_id, remaining);
        let rest = sweep(tail, side, taker_id, limit, first.remaining);
        assert(level_wf(levels[0], side));
        lemma_fill_queue(orders, side, levels[0].price, taker_id, remaining);
        lemma_fill_queue_keeps_order(orders, side, levels[0].price, taker_id, remaining);
        lemma_rest_wf(levels, side);
        lemma_sweep_keeps_order(tail, side, taker_id, limit, first.remaining);
        let queue_gone = orders.len() - first.orders.len();
        assert(before == orders + makers(tail));
        assert(out.fills == first.fills + rest.fills);
        if first.orders.len() > 0 {
            let level = Level { price: levels[0].price, orders: first.orders };
            assert(rest.levels == tail);
            assert(rest.fills.len() == 0);
            lemma_makers_of(level, tail);
            assert(after == first.orders + makers(tail));
            assert forall|i: int| 1 <= i < after.len() implies #[trigger] after[i] == before[i
                + queue_gone] by {
                if i < first.orders.len() {
                    assert(after[i] == first.orders[i]);
                    assert(before[i + queue_gone] == orders[i + queue_gone]);
                } else {
                    assert(after[i] == makers(tail)[i - first.orders.len()]);
                    assert(before[i + queue_gone] == makers(tail)[i + queue_gone - orders.len()]);
                }
            }
            assert(after[0] == first.orders[0]);
            assert(before[queue_gone] == orders[queue_gone]);
        } else {
            assert(out.levels == rest.levels);
            assert(first.fills.len() == orders.len());
            let rest_gone = makers(tail).len() - after.len();
            assert forall|i: int| 1 <= i < after.len() implies #[trigger] after[i] == before[i
                + rest_gone + orders.len()] by {
                assert(after[i] == makers(tail)[i + rest_gone]);
                assert(before[i + rest_gone + orders.len()] == makers(tail)[i + rest_gone]);
            }
            if after.len() > 0 {
                assert(before[rest_gone + orders.len()] == makers(tail)[rest_gone]);
            }
        }
    }
}

/// An incoming order with a positive quantity and a limit that admits the
/// best level trades, and first with the oldest order of that level.
pub proof fn lemma_sweep_trades(
    levels: Seq<Level>,
    side: Side,
    taker_id: Uuid,
    limit: Amount,
    remaining: Amount,
)
    requires
        levels_wf(levels, side),
        remaining.wf(),
        remaining.units() > 0,
        levels.len() > 0,
        admits(side, limit, levels[0].price),
    ensures
        sweep(levels, side, taker_id, limit, remaining).fills.len() > 0,
        sweep(levels, side, taker_id, limit, remaining).fills[0] == fill_of(
            levels[0].orders[0],
            taker_id,
            remaining,
        ),
{
    let orders = levels[0].orders;
    assert(level_wf(levels[0], side));
    lemma_fill_queue(orders, side, levels[0].price, taker_id, remaining);
    let first = fill_queue(orders, taker_id, remaining);
    assert(first.fills[0] == fill_of(orders[0], taker_id, remaining));
}

/// Where every subtraction is exact, matching against a side leaves the
/// incoming order with what it had less what was traded.
pub proof fn lemma_sweep_conserves(
    levels: Seq<Level>,
    side: Side,
    taker_id: Uuid,
    limit: Amount,
    remaining: Amount,
)
    requires
        levels_wf(levels, side),
        remaining.wf(),
        sweep_is_exact(levels, side, taker_id, limit, remaining),
    ensures
        ({
            let out = sweep(levels, side, taker_id, limit, remaining);
            &&& out.remaining.units() == remaining.units() - traded_units(out.fills)
            &&& resting_units(makers(out.levels)) == resting_units(makers(levels)) - traded_units(
                out.fills,
            )
        }),
    decreases levels.len(),
{
    let out = sweep(levels, side, taker_id, limit, remaining);
    if levels.len() == 0 || remaining.units() <= 0 || !admits(side, limit, levels[0].price) {
    } else {
        let tail = levels.drop_first();
        let orders = levels[0].orders;
        let first = fill_queue(orders, taker_id, remaining);
        let rest = sweep(tail, side, taker_id, limit, first.remaining);
        assert(level_wf(levels[0], side));
        lemma_fill_queue(orders, side, levels[0].price, taker_id, remaining);
        lemma_fill_queue_conserves(orders, side, levels[0].price, taker_id, remaining);
        lemma_rest_wf(levels, side);
        lemma_sweep_conserves(tail, side, taker_id, limit, first.remaining);
        lemma_traded_units_add(first.fills, rest.fills);
        lemma_resting_units_add(orders, makers(tail));
        if first.orders.len() > 0 {
            let level = Level { price: levels[0].price, orders: first.orders };
            assert(out.levels.drop_first() =~= rest.levels);
            assert(makers(out.levels) == first.orders + makers(rest.levels));
            lemma_resting_units_add(first.orders, makers(rest.levels));
        } else {
            assert(resting_units(first.orders) == 0);
        }
    }
}

/// All quantities, those that rest on the levels and `quantity`, can be
/// written at the scale `scale`: none has more digits after the point, and
/// the mantissa of each at that scale fits in 96 bits.
pub open spec fn quantities_fit_scale(levels: Seq<Level>, quantity: Amount, scale: nat) -> bool {
    &&& quantity@.fits_scale(scale)
    &&& forall|i: int, k: int|
        0 <= i < levels.len() && 0 <= k < levels[i].orders.len() ==> (
        #[trigger] levels[i].orders[k]).quantity@.fits_scale(scale)
}

/// Matching against a queue whose quantities can all be written at one
/// scale, as can the incoming quantity, is exact; and what is left of the
/// incoming quantity can be written at that scale too.
pub proof fn lemma_queue_at_scale_is_exact(
    orders: Seq<Order>,
    side: Side,
    price: Amount,
    taker_id: Uuid,
    remaining: Amount,
    scale: nat,
)
    requires
        forall|k: int| 0 <= k < orders.len() ==> rests_at(#[trigger] orders[k], side, price),
        forall|k: int|
            0 <= k < orders.len() ==> (#[trigger] orders[k]).quantity@.fits_scale(scale),
        remaining.wf(),
        remaining@.fits_scale(scale),
    ensures
        queue_is_exact(orders, remaining),
        fill_queue(orders, taker_id, remaining).remaining@.fits_scale(scale),
        fill_queue(orders, taker_id, remaining).remaining.wf(),
    decreases orders.len(),
{
    if orders.len() == 0 || remaining.units() <= 0 {
    } else {
        let maker = orders[0];
        assert(rests_at(maker, side, price));
        let quantity = remaining.smaller(maker.quantity);
        let tail = orders.drop_first();
        lemma_difference_at_scale(remaining@, quantity@, scale);
        lemma_difference_at_scale(maker.quantity@, quantity@, scale);
        lemma_minus_exact(remaining, quantity);
        let next = remaining.minus(quantity);
        assert(next@.fits_scale(scale));
        assert forall|k: int| 0 <= k < tail.len() implies rests_at(
            #[trigger] tail[k],
            side,
            price,
        ) by {
            assert(tail[k] == orders[k + 1]);
        }
        assert forall|k: int| 0 <= k < tail.len() implies (#[trigger] tail[k]).quantity@.fits_scale(
            scale,
        ) by {
            assert(tail[k] == orders[k + 1]);
        }
        lemma_queue_at_scale_is_exact(tail, side, price, taker_id, next, scale);
    }
}

/// Where all quantities, those of the resting orders and that of the
/// incoming order, can be written at one scale, every subtraction that
/// matching against the side makes is exact.
pub proof fn lemma_sweep_at_scale_is_exact(
    levels: Seq<Level>,
    side: Side,
    taker_id: Uuid,
    limit: Amount,
    remaining: Amount,
    scale: nat,
)
    requires
        levels_wf(levels, side),
        remaining.wf(),
        quantities_fit_scale(levels, remaining, scale),
    ensures
        sweep_is_exact(levels, side, taker_id, limit, remaining),
    decreases levels.len(),
{
    if levels.len() == 0 || remaining.units() <= 0 || !admits(side, limit, levels[0].price) {
    } else {
        let orders = levels[0].orders;
        let tail = levels.drop_first();
        assert(level_wf(levels[0], side));
        assert forall|k: int| 0 <= k < orders.len() implies (#[trigger] orders[k]).quantity@.fits_scale(
            scale,
        ) by {
            assert(levels[0].orders[k].quantity@.fits_scale(scale));
        }
        lemma_queue_at_scale_is_exact(orders, side, levels[0].price, taker_id, remaining, scale);
        let next = fill_queue(orders, taker_id, remaining).remaining;
        lemma_rest_wf(levels, side);
        assert forall|i: int, k: int|
            0 <= i < tail.len() && 0 <= k < tail[i].orders.len() implies (
        #[trigger] tail[i].orders[k]).quantity@.fits_scale(scale) by {
            assert(tail[i] == levels[i + 1]);
            assert(levels[i + 1].orders[k].quantity@.fits_scale(scale));
        }
        lemma_sweep_at_scale_is_exact(tail, side, taker_id, limit, next, scale);
    }
}

} // verus!
