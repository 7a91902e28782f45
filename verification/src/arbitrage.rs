//! The advisory that tells, before matching, that an incoming order crosses
//! the best price of the opposite side.

use vstd::prelude::*;
use vstd::string::*;
use crate::book::{better, Level};
use crate::decimal::{decimal_text, Amount};
use crate::order::{Order, Side};

verus! {

/// An incoming order crosses the opposite side, whose levels are `against`,
/// best first: it carries a limit price, the opposite side is not empty, and
/// the limit is strictly beyond the best opposite price (a buy limit above
/// the best ask, a sell limit below the best bid).
pub open spec fn crosses(against: Seq<Level>, order: Order) -> bool {
    &&& order.price is Some
    &&& against.len() > 0
    &&& better(order.side, order.price->0.units(), against[0].price.units())
}

/// The text of the advisory for an incoming order of the given side and
/// limit price that crosses the best opposite price `best`.
pub open spec fn advisory(side: Side, price: Amount, best: Amount) -> Seq<char> {
    match side {
        Side::Buy => "Arbitrage: Incoming BUY order at "@ + decimal_text(price@)
            + " is higher than best ASK of "@ + decimal_text(best@)
            + ". Opportunity to buy at "@ + decimal_text(best@) + " and sell at "@
            + decimal_text(price@) + "."@,
        Side::Sell => "Arbitrage: Incoming SELL order at "@ + decimal_text(price@)
            + " is lower than best BID of "@ + decimal_text(best@)
            + ". Opportunity to buy at "@ + decimal_text(price@) + " and sell at "@
            + decimal_text(best@) + "."@,
    }
}

/// Writes the advisory for an incoming order of the given side and limit
/// price that crosses the best opposite price `best`.
pub fn advisory_message(side: Side, price: &Amount, best: &Amount) -> (r: String)
    ensures
        r@ == advisory(side, *price, *best),
{
    let price_text = price.text();
    let best_text = best.text();
    match side {
        Side::Buy => {
            let mut r = String::from_str("Arbitrage: Incoming BUY order at ");
            r.append(price_text.as_str());
            r.append(" is higher than best ASK of ");
            r.append(best_text.as_str());
            r.append(". Opportunity to buy at ");
            r.append(best_text.as_str());
            r.append(" and sell at ");
            r.append(price_text.as_str());
            r.append(".");
            r
        },
        Side::Sell => {
            let mut r = String::from_str("Arbitrage: Incoming SELL order at ");
            r.append(price_text.as_str());
            r.append(" is lower than best BID of ");
            r.append(best_text.as_str());
            r.append(". Opportunity to buy at ");
            r.append(price_text.as_str());
            r.append(" and sell at ");
            r.append(best_text.as_str());
            r.append(".");
            r
        },
    }
}

} // verus!
