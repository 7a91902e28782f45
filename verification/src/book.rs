//! One side of the book: price levels in priority order, each a queue of
//! resting orders in arrival order.

use vstd::prelude::*;
use crate::decimal::Amount;
use crate::order::{Order, Side};

verus! {

/// A price level as a mathematical value: its price and the orders resting
/// at it, oldest first.
pub ghost struct Level {
    pub price: Amount,
    pub orders: Seq<Order>,
}

/// On the `side` of the book, the price of `p` units has priority over the
/// price of `q` units: bids rank from the highest price down, asks from the
/// lowest price up.
pub open spec fn better(side: Side, p: int, q: int) -> bool {
    match side {
        Side::Buy => p > q,
        Side::Sell => p < q,
    }
}

/// `order` may rest at a level of `side` whose price is `price`: it is of
/// that side, carries that very price (at whatever scale) and has a positive
/// quantity left.
pub open spec fn rests_at(order: Order, side: Side, price: Amount) -> bool {
    &&& order.wf()
    &&& order.side == side
    &&& order.price matches Some(p) && p.units() == price.units()
    &&& order.quantity.units() > 0
}

/// A level is never empty, and all its orders rest at its price.
pub open spec fn level_wf(level: Level, side: Side) -> bool {
    &&& level.price.wf()
    &&& level.orders.len() > 0
    &&& forall|k: int|
        0 <= k < level.orders.len() ==> rests_at(#[trigger] level.orders[k], side, level.price)
}

/// The levels of one side: each well formed, and in strict priority order,
/// so that no two levels have the same price.
pub open spec fn levels_wf(levels: Seq<Level>, side: Side) -> bool {
    &&& forall|i: int| 0 <= i < levels.len() ==> level_wf(#[trigger] levels[i], side)
    &&& forall|i: int, j: int|
        0 <= i < j < levels.len() ==> better(
            side,
            (#[trigger] levels[i]).price.units(),
            (#[trigger] levels[j]).price.units(),
        )
}

/// Well-formed levels stay well formed without their best level.
pub proof fn lemma_rest_wf(levels: Seq<Level>, side: Side)
    requires
        levels_wf(levels, side),
        levels.len() > 0,
    ensures
        levels_wf(levels.drop_first(), side),
{
    let rest = levels.drop_first();
    assert forall|i: int| 0 <= i < rest.len() implies level_wf(#[trigger] rest[i], side) by {
        assert(rest[i] == levels[i + 1]);
    }
    assert forall|i: int, j: int| 0 <= i < j < rest.len() implies better(
        side,
        (#[trigger] rest[i]).price.units(),
        (#[trigger] rest[j]).price.units(),
    ) by {
        assert(rest[i] == levels[i + 1]);
        assert(rest[j] == levels[j + 1]);
    }
}

/// The level that a first order opens.
pub open spec fn opened(order: Order) -> Level {
    Level { price: order.price->0, orders: seq![order] }
}

/// The level with one more order at the end of its queue.
pub open spec fn joined(level: Level, order: Order) -> Level {
    Level { price: level.price, orders: level.orders.push(order) }
}

/// The levels after `order` has come to rest: it joins the end of the queue
/// at the level of its price, or opens a new level at the place that its
/// price has in the priority order.
pub open spec fn inserted(levels: Seq<Level>, side: Side, order: Order) -> Seq<Level>
    decreases levels.len(),
{
    let price = order.price->0;
    if levels.len() == 0 {
        seq![opened(order)]
    } else if levels[0].price.units() == price.units() {
        seq![joined(levels[0], order)] + levels.drop_first()
    } else if better(side, price.units(), levels[0].price.units()) {
        seq![opened(order)] + levels
    } else {
        seq![levels[0]] + inserted(levels.drop_first(), side, order)
    }
}

/// Where the first `i` levels have priority over the order's price and the
/// level at `i`, if there is one, has not, the order comes to rest at `i`.
pub proof fn lemma_inserted_at(levels: Seq<Level>, side: Side, order: Order, i: int)
    requires
        0 <= i <= levels.len(),
        order.price is Some,
        forall|j: int|
            0 <= j < i ==> better(
                side,
                (#[trigger] levels[j]).price.units(),
                order.price->0.units(),
            ),
        i < levels.len() ==> !better(side, levels[i].price.units(), order.price->0.units()),
    ensures
        inserted(levels, side, order) == if i < levels.len() && levels[i].price.units()
            == order.price->0.units() {
            levels.update(i, joined(levels[i], order))
        } else {
            levels.insert(i, opened(order))
        },
    decreases i,
{
    let price = order.price->0;
    if i == 0 {
        if levels.len() == 0 {
            assert(levels.insert(0, opened(order)) =~= seq![opened(order)]);
        } else if levels[0].price.units() == price.units() {
            assert(levels.update(0, joined(levels[0], order)) =~= seq![joined(levels[0], order)]
                + levels.drop_first());
        } else {
            assert(levels.insert(0, opened(order)) =~= seq![opened(order)] + levels);
        }
    } else {
        let rest = levels.drop_first();
        assert(better(side, levels[0].price.units(), price.units()));
        assert forall|j: int| 0 <= j < i - 1 implies better(
            side,
            (#[trigger] rest[j]).price.units(),
            price.units(),
        ) by {
            assert(rest[j] == levels[j + 1]);
        }
        lemma_inserted_at(rest, side, order, i - 1);
        if i < levels.len() && levels[i].price.units() == price.units() {
            assert(levels.update(i, joined(levels[i], order)) =~= seq![levels[0]] + rest.update(
                i - 1,
                joined(rest[i - 1], order),
            ));
        } else {
            assert(levels.insert(i, opened(order)) =~= seq![levels[0]] + rest.insert(
                i - 1,
                opened(order),
            ));
        }
    }
}

/// The place at which an order of the given price comes to rest: the number
/// of levels that have priority over it.
pub open spec fn rank(levels: Seq<Level>, side: Side, price: Amount) -> int
    decreases levels.len(),
{
    if levels.len() == 0 || !better(side, levels[0].price.units(), price.units()) {
        0
    } else {
        1 + rank(levels.drop_first(), side, price)
    }
}

/// The rank splits well-formed levels in two: those before it have priority
/// over the price, those from it on have not.
pub proof fn lemma_rank(levels: Seq<Level>, side: Side, price: Amount)
    requires
        levels_wf(levels, side),
    ensures
        0 <= rank(levels, side, price) <= levels.len(),
        forall|j: int|
            0 <= j < rank(levels, side, price) ==> better(
                side,
                (#[trigger] levels[j]).price.units(),
                price.units(),
            ),
        forall|j: int|
            rank(levels, side, price) <= j < levels.len() ==> !better(
                side,
                (#[trigger] levels[j]).price.units(),
                price.units(),
            ),
    decreases levels.len(),
{
    if levels.len() == 0 {
    } else if !better(side, levels[0].price.units(), price.units()) {
        assert forall|j: int| 0 <= j < levels.len() implies !better(
            side,
            (#[trigger] levels[j]).price.units(),
            price.units(),
        ) by {
            if j > 0 {
                assert(better(side, levels[0].price.units(), levels[j].price.units()));
            }
        }
    } else {
        let rest = levels.drop_first();
        lemma_rest_wf(levels, side);
        lemma_rank(rest, side, price);
        let r = rank(rest, side, price);
        assert forall|j: int| 0 <= j < r + 1 implies better(
            side,
            (#[trigger] levels[j]).price.units(),
            price.units(),
        ) by {
            if j > 0 {
                assert(levels[j] == rest[j - 1]);
            }
        }
        assert forall|j: int| r + 1 <= j < levels.len() implies !better(
            side,
            (#[trigger] levels[j]).price.units(),
            price.units(),
        ) by {
            assert(levels[j] == rest[j - 1]);
        }
    }
}

/// An order that can rest leaves the levels of its side well formed.
pub proof fn lemma_inserted_wf(levels: Seq<Level>, side: Side, order: Order)
    requires
        levels_wf(levels, side),
        order.side == side,
        order.can_rest(),
    ensures
        levels_wf(inserted(levels, side, order), side),
{
    let price = order.price->0;
    lemma_rank(levels, side, price);
    let i = rank(levels, side, price);
    lemma_inserted_at(levels, side, order, i);
    let after = inserted(levels, side, order);
    if i < levels.len() && levels[i].price.units() == price.units() {
        let level = joined(levels[i], order);
        assert(after == levels.update(i, level));
        assert(level_wf(level, side)) by {
            assert forall|k: int| 0 <= k < level.orders.len() implies rests_at(
                #[trigger] level.orders[k],
                side,
                level.price,
            ) by {
                if k < levels[i].orders.len() {
                    assert(level.orders[k] == levels[i].orders[k]);
                }
            }
        }
        assert forall|a: int| 0 <= a < after.len() implies level_wf(#[trigger] after[a], side) by {
            if a != i {
                assert(after[a] == levels[a]);
            }
        }
        assert forall|a: int, b: int| 0 <= a < b < after.len() implies better(
            side,
            (#[trigger] after[a]).price.units(),
            (#[trigger] after[b]).price.units(),
        ) by {
            assert(after[a].price == levels[a].price);
            assert(after[b].price == levels[b].price);
        }
    } else {
        let level = opened(order);
        assert(after == levels.insert(i, level));
        assert(level_wf(level, side));
        assert forall|a: int| 0 <= a < after.len() implies level_wf(#[trigger] after[a], side) by {
            if a < i {
                assert(after[a] == levels[a]);
            } else if a > i {
                assert(after[a] == levels[a - 1]);
            }
        }
        assert forall|a: int, b: int| 0 <= a < b < after.len() implies better(
            side,
            (#[trigger] after[a]).price.units(),
            (#[trigger] after[b]).price.units(),
        ) by {
            let x = if a < i { a } else { a - 1 };
            let y = if b < i { b } else { b - 1 };
            if a != i {
                assert(after[a] == levels[x]);
            }
            if b != i {
                assert(after[b] == levels[y]);
            }
            if b == i {
                assert(better(side, levels[x].price.units(), price.units()));
            } else if a == i {
                assert(!better(side, levels[y].price.units(), price.units()));
                assert(levels[y].price.units() != price.units());
            } else {
                assert(better(side, levels[x].price.units(), levels[y].price.units()));
            }
        }
    }
}

/// A price level: the queue of the orders that rest at one price.
pub struct PriceLevel {
    pub(crate) price: Amount,
    pub(crate) orders: Vec<Order>,
}

impl View for PriceLevel {
    type V = Level;

    open(crate) spec fn view(&self) -> Level {
        Level { price: self.price, orders: self.orders@ }
    }
}

impl PriceLevel {
    /// The price that every order of the level carries.
    pub fn price(&self) -> (r: Amount)
        ensures
            r == self@.price,
    {
        self.price
    }

    /// The resting orders, oldest first.
    pub fn orders(&self) -> (r: &Vec<Order>)
        ensures
            r@ == self@.orders,
    {
        &self.orders
    }
}

/// The levels that a vector of price levels holds.
pub open spec fn levels_of(levels: Seq<PriceLevel>) -> Seq<Level> {
    Seq::new(levels.len(), |i: int| levels[i]@)
}

/// One side of the book: its price levels, best price first.
pub struct BookSide {
    pub(crate) levels: Vec<PriceLevel>,
}

impl View for BookSide {
    type V = Seq<Level>;

    open(crate) spec fn view(&self) -> Seq<Level> {
        levels_of(self.levels@)
    }
}

impl BookSide {
    /// A side without levels.
    pub(crate) fn new() -> (r: BookSide)
        ensures
            r@ == Seq::<Level>::empty(),
    {
        let r = BookSide { levels: Vec::new() };
        assert(r@ =~= Seq::<Level>::empty());
        r
    }

    /// The number of price levels.
    pub fn len(&self) -> (r: usize)
        ensures
            r == self@.len(),
    {
        self.levels.len()
    }

    /// Whether no order rests on this side.
    pub fn is_empty(&self) -> (r: bool)
        ensures
            r == (self@.len() == 0),
    {
        self.levels.len() == 0
    }

    /// The level at place `i` of the priority order; place 0 is the best.
    pub fn level(&self, i: usize) -> (r: Option<&PriceLevel>)
        ensures
            r is Some <==> i < self@.len(),
            r matches Some(level) ==> level@ == self@[i as int],
    {
        if i < self.levels.len() {
            Some(&self.levels[i])
        } else {
            None
        }
    }

    /// The best price of the side, if any order rests on it.
    pub fn best_price(&self) -> (r: Option<Amount>)
        ensures
            r is Some <==> self@.len() > 0,
            r matches Some(p) ==> p == self@[0].price,
    {
        if self.levels.len() > 0 {
            Some(self.levels[0].price)
        } else {
            None
        }
    }

    /// The queue of the orders that rest at `price`, compared as a number:
    /// that of the first level with this price, if there is one.
    pub fn get(&self, price: &Amount) -> (r: Option<&Vec<Order>>)
        ensures
            match r {
                Some(orders) => exists|i: int|
                    {
                        &&& 0 <= i < self@.len()
                        &&& (#[trigger] self@[i]).price.units() == price.units()
                        &&& orders@ == self@[i].orders
                        &&& forall|j: int|
                            0 <= j < i ==> (#[trigger] self@[j]).price.units() != price.units()
                    },
                None => forall|i: int|
                    0 <= i < self@.len() ==> (#[trigger] self@[i]).price.units() != price.units(),
            },
    {
        let mut i: usize = 0;
        while i < self.levels.len()
            invariant
                i <= self.levels.len(),
                forall|j: int| 0 <= j < i ==> (#[trigger] self@[j]).price.units() != price.units(),
            decreases self.levels.len() - i,
        {
            if self.levels[i].price.same_value(price) {
                assert(self@[i as int].orders == self.levels[i as int].orders@);
                return Some(&self.levels[i].orders);
            }
            i += 1;
        }
        None
    }

    /// Lets `order` come to rest on this side, which is the `side` of the
    /// book.
    pub(crate) fn insert(&mut self, side: Side, order: Order)
        requires
            levels_wf(old(self)@, side),
            order.side == side,
            order.can_rest(),
        ensures
            final(self)@ == inserted(old(self)@, side, order),
            levels_wf(final(self)@, side),
    {
        let price = order.price.unwrap();
        let mut i: usize = 0;
        while i < self.levels.len() && has_priority(side, &self.levels[i].price, &price)
            invariant
                i <= self.levels.len(),
                self.levels == old(self).levels,
                forall|j: int|
                    0 <= j < i ==> better(side, (#[trigger] self@[j]).price.units(), price.units()),
            decreases self.levels.len() - i,
        {
            i += 1;
        }
        proof {
            lemma_inserted_at(old(self)@, side, order, i as int);
            lemma_inserted_wf(old(self)@, side, order);
        }
        if i < self.levels.len() && self.levels[i].price.same_value(&price) {
            self.levels[i].orders.push(order);
            assert(self@ =~= old(self)@.update(i as int, joined(old(self)@[i as int], order)));
        } else {
            let mut orders: Vec<Order> = Vec::new();
            orders.push(order);
            let level = PriceLevel { price, orders };
            assert(level@ == opened(order));
            self.levels.insert(i, level);
            assert(self@ =~= old(self)@.insert(i as int, opened(order)));
        }
    }
}

/// Whether, on the `side` of the book, price `p` has priority over price `q`.
pub fn has_priority(side: Side, p: &Amount, q: &Amount) -> (r: bool)
    ensures
        r == better(side, p.units(), q.units()),
{
    match side {
        Side::Buy => q.lt(p),
        Side::Sell => p.lt(q),
    }
}

} // verus!
