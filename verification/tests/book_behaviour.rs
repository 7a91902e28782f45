use std::str::FromStr;

use matching_engine::{
    Amount, BookSide, CreateOrderPayload, MatchError, Order, OrderBook, OrderType, Side,
    Timestamp, Trade,
};
use rust_decimal::Decimal;
use uuid::Uuid;

fn dec(text: &str) -> Amount {
    let d = Decimal::from_str(text).unwrap();
    Amount::new(d.mantissa(), d.scale()).unwrap()
}

fn number(a: Amount) -> Decimal {
    Decimal::from_i128_with_scale(a.mantissa(), a.scale())
}

fn limit(id: u128, side: Side, price: &str, quantity: &str) -> Order {
    Order {
        id: Uuid::from_u128(id),
        order_type: OrderType::Limit,
        side,
        price: Some(dec(price)),
        quantity: dec(quantity),
        timestamp: Timestamp { seconds: 1_700_000_000, nanoseconds: 0 },
    }
}

fn market(id: u128, side: Side, quantity: &str) -> Order {
    Order {
        id: Uuid::from_u128(id),
        order_type: OrderType::Market,
        side,
        price: None,
        quantity: dec(quantity),
        timestamp: Timestamp { seconds: 1_700_000_000, nanoseconds: 0 },
    }
}

fn prices(side: &BookSide) -> Vec<Decimal> {
    let mut out = Vec::new();
    let mut i = 0;
    while let Some(level) = side.level(i) {
        out.push(number(level.price()));
        i += 1;
    }
    out
}

fn ids(side: &BookSide, price: &str) -> Vec<u128> {
    side.get(&dec(price)).unwrap().iter().map(|o| o.id.as_u128()).collect()
}

fn total(trades: &[Trade]) -> Decimal {
    trades.iter().map(|t| number(t.quantity)).sum()
}

fn is_crossed(book: &OrderBook) -> bool {
    match (book.bids().best_price(), book.asks().best_price()) {
        (Some(bid), Some(ask)) => !bid.lt(&ask),
        _ => false,
    }
}

#[test]
fn levels_hold_one_price_and_stand_in_priority_order() {
    let mut book = OrderBook::new();
    let asks = ["103", "101.5", "102", "101.50", "100.25", "102.0"];
    let bids = ["99", "97.5", "98", "99.00", "96", "98.0"];
    for (i, p) in asks.iter().enumerate() {
        book.add_order(limit(i as u128, Side::Sell, p, "1"));
    }
    for (i, p) in bids.iter().enumerate() {
        book.add_order(limit(100 + i as u128, Side::Buy, p, "1"));
    }
    let ask_prices = prices(book.asks());
    let bid_prices = prices(book.bids());
    assert_eq!(
        ask_prices,
        vec![
            Decimal::from_str("100.25").unwrap(),
            Decimal::from_str("101.5").unwrap(),
            Decimal::from_str("102").unwrap(),
            Decimal::from_str("103").unwrap()
        ]
    );
    assert_eq!(
        bid_prices,
        vec![
            Decimal::from_str("99").unwrap(),
            Decimal::from_str("98").unwrap(),
            Decimal::from_str("97.5").unwrap(),
            Decimal::from_str("96").unwrap()
        ]
    );
    for w in ask_prices.windows(2) {
        assert!(w[0] < w[1]);
    }
    for w in bid_prices.windows(2) {
        assert!(w[0] > w[1]);
    }
    let mut i = 0;
    while let Some(level) = book.asks().level(i) {
        assert!(!level.orders().is_empty());
        for o in level.orders() {
            assert_eq!(o.side, Side::Sell);
            assert_eq!(number(o.price.unwrap()), number(level.price()));
        }
        i += 1;
    }
    assert_eq!(i, 4);
    let mut i = 0;
    while let Some(level) = book.bids().level(i) {
        assert!(!level.orders().is_empty());
        for o in level.orders() {
            assert_eq!(o.side, Side::Buy);
            assert_eq!(number(o.price.unwrap()), number(level.price()));
        }
        i += 1;
    }
    assert_eq!(i, 4);
}

#[test]
fn a_price_at_another_scale_joins_the_same_level_at_its_end() {
    let mut book = OrderBook::new();
    book.add_order(limit(1, Side::Sell, "101.5", "1"));
    book.add_order(limit(2, Side::Sell, "102", "1"));
    book.add_order(limit(3, Side::Sell, "101.50", "1"));
    book.add_order(limit(4, Side::Sell, "101.500", "1"));
    assert_eq!(book.asks().len(), 2);
    assert_eq!(ids(book.asks(), "101.5"), vec![1, 3, 4]);
    assert_eq!(ids(book.asks(), "101.5000"), vec![1, 3, 4]);
    assert_eq!(ids(book.asks(), "102"), vec![2]);
    // The level keeps the price as its first order wrote it.
    let best = book.asks().best_price().unwrap();
    assert_eq!(best.mantissa(), 1015);
    assert_eq!(best.scale(), 1);
    assert!(book.asks().get(&dec("101")).is_none());
    assert!(book.bids().get(&dec("101.5")).is_none());
}

#[test]
fn makers_trade_in_arrival_order_within_a_level() {
    let mut book = OrderBook::new();
    book.add_order(limit(1, Side::Sell, "100", "4"));
    book.add_order(limit(2, Side::Sell, "100", "4"));
    book.add_order(limit(3, Side::Sell, "100", "4"));
    let trades = book.match_order(limit(9, Side::Buy, "100", "6"));
    assert_eq!(trades.len(), 2);
    assert_eq!(trades[0].maker_order_id, Uuid::from_u128(1));
    assert_eq!(trades[0].taker_order_id, Uuid::from_u128(9));
    assert_eq!(trades[0].quantity, dec("4"));
    assert_eq!(trades[1].maker_order_id, Uuid::from_u128(2));
    assert_eq!(trades[1].taker_order_id, Uuid::from_u128(9));
    assert_eq!(trades[1].quantity, dec("2"));
    assert_eq!(ids(book.asks(), "100"), vec![2, 3]);
    let queue = book.asks().get(&dec("100")).unwrap();
    assert_eq!(queue[0].quantity, dec("2"));
    assert_eq!(queue[1].quantity, dec("4"));
    assert!(book.bids().is_empty());
}

#[test]
fn traded_quantities_add_up_exactly() {
    let mut book = OrderBook::new();
    book.add_order(limit(1, Side::Sell, "100.0", "1.25"));
    book.add_order(limit(2, Side::Sell, "100.0", "0.005"));
    book.add_order(limit(3, Side::Sell, "100.5", "3"));
    book.add_order(limit(4, Side::Sell, "101", "2.5"));
    book.add_order(limit(5, Side::Sell, "102", "7"));
    let before = [
        Decimal::from_str("1.25").unwrap(),
        Decimal::from_str("0.005").unwrap(),
        Decimal::from_str("3").unwrap(),
        Decimal::from_str("2.5").unwrap(),
    ];
    let initial = Decimal::from_str("10.0001").unwrap();
    let trades = book.match_order(limit(9, Side::Buy, "101", "10.0001"));
    assert_eq!(trades.len(), 4);
    for (k, t) in trades.iter().enumerate() {
        assert_eq!(t.maker_order_id, Uuid::from_u128(k as u128 + 1));
        assert!(number(t.quantity) > Decimal::ZERO);
        assert!(number(t.quantity) <= before[k]);
    }
    assert_eq!(total(&trades), Decimal::from_str("6.755").unwrap());
    // What is left rests as a bid at the taker's own limit.
    let rest = book.bids().get(&dec("101")).unwrap();
    assert_eq!(rest.len(), 1);
    assert_eq!(rest[0].id, Uuid::from_u128(9));
    assert_eq!(number(rest[0].quantity), Decimal::from_str("3.2451").unwrap());
    assert_eq!(number(rest[0].quantity), initial - total(&trades));
    assert_eq!(rest[0].quantity.mantissa(), 32451);
    assert_eq!(rest[0].quantity.scale(), 4);
    assert_eq!(prices(book.asks()), vec![Decimal::from_str("102").unwrap()]);
}

#[test]
fn a_partly_filled_maker_keeps_the_exact_difference() {
    let mut book = OrderBook::new();
    book.add_order(limit(1, Side::Buy, "50", "10.00"));
    let trades = book.match_order(limit(2, Side::Sell, "50", "2.5"));
    assert_eq!(trades.len(), 1);
    assert_eq!(trades[0].quantity.mantissa(), 25);
    assert_eq!(trades[0].quantity.scale(), 1);
    let left = book.bids().get(&dec("50")).unwrap()[0].quantity;
    assert_eq!(left.mantissa(), 750);
    assert_eq!(left.scale(), 2);
    assert!(book.asks().is_empty());
}

#[test]
fn trades_are_made_at_the_makers_price() {
    let mut book = OrderBook::new();
    book.add_order(limit(1, Side::Sell, "100", "5"));
    book.add_order(limit(2, Side::Sell, "102.5", "5"));
    let trades = book.match_order(limit(9, Side::Buy, "105", "8"));
    assert_eq!(trades.len(), 2);
    assert_eq!(trades[0].price, dec("100"));
    assert_eq!(trades[1].price, dec("102.5"));
    for t in &trades {
        assert!(t.price.lt(&dec("105")));
    }

    let mut book = OrderBook::new();
    book.add_order(limit(1, Side::Buy, "100", "5"));
    book.add_order(limit(2, Side::Buy, "97.5", "5"));
    let trades = book.match_order(limit(9, Side::Sell, "95", "8"));
    assert_eq!(trades.len(), 2);
    assert_eq!(trades[0].price, dec("100"));
    assert_eq!(trades[0].quantity, dec("5"));
    assert_eq!(trades[1].price, dec("97.5"));
    assert_eq!(trades[1].quantity, dec("3"));
    for t in &trades {
        assert!(dec("95").lt(&t.price));
    }
}

#[test]
fn the_trade_price_keeps_the_scale_of_the_makers_price() {
    let mut book = OrderBook::new();
    book.add_order(limit(1, Side::Sell, "100.00", "5"));
    let trades = book.match_order(limit(9, Side::Buy, "100", "5"));
    assert_eq!(trades.len(), 1);
    assert_eq!(trades[0].price.mantissa(), 10000);
    assert_eq!(trades[0].price.scale(), 2);
}

#[test]
fn a_sell_taker_sweeps_bids_from_the_highest_price_down() {
    let mut book = OrderBook::new();
    book.add_order(limit(1, Side::Buy, "99", "1"));
    book.add_order(limit(2, Side::Buy, "101", "1"));
    book.add_order(limit(3, Side::Buy, "100", "1"));
    book.add_order(limit(4, Side::Buy, "98", "1"));
    let trades = book.match_order(limit(9, Side::Sell, "99", "5"));
    let makers: Vec<u128> = trades.iter().map(|t| t.maker_order_id.as_u128()).collect();
    assert_eq!(makers, vec![2, 3, 1]);
    assert_eq!(prices(book.bids()), vec![Decimal::from_str("98").unwrap()]);
    let rest = book.asks().get(&dec("99")).unwrap();
    assert_eq!(rest[0].quantity, dec("2"));
    assert_eq!(rest[0].id, Uuid::from_u128(9));
    assert_eq!(rest[0].side, Side::Sell);
    assert!(!is_crossed(&book));
}

#[test]
fn the_sweep_stops_at_the_first_level_beyond_the_limit() {
    let mut book = OrderBook::new();
    book.add_order(limit(1, Side::Sell, "100", "1"));
    book.add_order(limit(2, Side::Sell, "101", "1"));
    book.add_order(limit(3, Side::Sell, "102", "1"));
    let trades = book.match_order(limit(9, Side::Buy, "101", "10"));
    assert_eq!(trades.len(), 2);
    assert_eq!(prices(book.asks()), vec![Decimal::from_str("102").unwrap()]);
    assert_eq!(book.asks().get(&dec("102")).unwrap()[0].quantity, dec("1"));
    assert_eq!(book.bids().get(&dec("101")).unwrap()[0].quantity, dec("8"));
}

#[test]
fn a_match_leaves_no_crossed_book() {
    let mut book = OrderBook::new();
    let submissions = [
        (Side::Sell, "101", "5"),
        (Side::Buy, "99", "5"),
        (Side::Buy, "101", "2"),
        (Side::Sell, "98", "9"),
        (Side::Buy, "100", "1"),
        (Side::Sell, "100", "1"),
        (Side::Buy, "103", "20"),
        (Side::Sell, "90", "3"),
        (Side::Sell, "103", "30"),
    ];
    for (i, (side, price, quantity)) in submissions.iter().enumerate() {
        book.match_order(limit(i as u128, *side, price, quantity));
        assert!(!is_crossed(&book));
    }
    assert!(book.bids().is_empty());
    assert_eq!(book.asks().get(&dec("103")).unwrap()[0].quantity, dec("20"));
}

#[test]
fn a_book_crossed_by_insertion_stays_as_it_is_until_matched_against() {
    let mut book = OrderBook::new();
    book.add_order(limit(1, Side::Buy, "101", "1"));
    book.add_order(limit(2, Side::Sell, "100", "1"));
    assert!(is_crossed(&book));
    let trades = book.match_order(limit(3, Side::Buy, "50", "1"));
    assert!(trades.is_empty());
    assert!(is_crossed(&book));
}

#[test]
fn no_match_leaves_both_orders_unchanged() {
    let mut book = OrderBook::new();
    book.add_order(limit(1, Side::Sell, "101", "10"));
    let trades = book.match_order(limit(2, Side::Buy, "100", "10"));
    assert!(trades.is_empty());
    assert_eq!(book.asks().len(), 1);
    assert_eq!(book.bids().len(), 1);
    let ask = book.asks().get(&dec("101")).unwrap();
    assert_eq!(ask.len(), 1);
    assert_eq!(ask[0].id, Uuid::from_u128(1));
    assert_eq!(ask[0].quantity, dec("10"));
    let bid = book.bids().get(&dec("100")).unwrap();
    assert_eq!(bid.len(), 1);
    assert_eq!(bid[0].id, Uuid::from_u128(2));
    assert_eq!(bid[0].quantity, dec("10"));
    assert_eq!(bid[0].order_type, OrderType::Limit);
    assert_eq!(bid[0].timestamp, Timestamp { seconds: 1_700_000_000, nanoseconds: 0 });
}

#[test]
fn a_crossing_sell_is_announced_and_then_trades_at_the_bid() {
    let mut book = OrderBook::new();
    book.add_order(limit(1, Side::Buy, "101", "10"));
    let incoming = limit(2, Side::Sell, "100", "5");
    let advisory = book.detect_arbitrage(&incoming);
    assert_eq!(
        advisory.unwrap(),
        "Arbitrage: Incoming SELL order at 100 is lower than best BID of 101. \
         Opportunity to buy at 100 and sell at 101."
    );
    let trades = book.match_order(incoming);
    assert_eq!(trades.len(), 1);
    assert_eq!(trades[0].price, dec("101"));
    assert_eq!(trades[0].quantity, dec("5"));
    assert_eq!(book.bids().get(&dec("101")).unwrap()[0].quantity, dec("5"));
    assert!(book.asks().is_empty());
}

#[test]
fn the_advisory_prints_each_price_at_its_own_scale() {
    let mut book = OrderBook::new();
    book.add_order(limit(1, Side::Sell, "99.50", "10"));
    book.add_order(limit(2, Side::Sell, "99.5", "10"));
    book.add_order(limit(3, Side::Sell, "101", "10"));
    let incoming = limit(4, Side::Buy, "100.125", "5");
    assert_eq!(
        book.detect_arbitrage(&incoming).unwrap(),
        "Arbitrage: Incoming BUY order at 100.125 is higher than best ASK of 99.50. \
         Opportunity to buy at 99.50 and sell at 100.125."
    );
}

#[test]
fn a_limit_at_the_best_price_trades_without_an_advisory() {
    let mut book = OrderBook::new();
    book.add_order(limit(1, Side::Sell, "100", "10"));
    book.add_order(limit(2, Side::Buy, "90", "10"));
    assert!(book.detect_arbitrage(&limit(3, Side::Buy, "100.0", "1")).is_none());
    assert!(book.detect_arbitrage(&limit(3, Side::Sell, "90.0", "1")).is_none());
    assert!(book.detect_arbitrage(&limit(3, Side::Buy, "99", "1")).is_none());
    assert!(book.detect_arbitrage(&limit(3, Side::Sell, "91", "1")).is_none());
    assert!(book.detect_arbitrage(&limit(3, Side::Buy, "100.01", "1")).is_some());
    assert!(book.detect_arbitrage(&limit(3, Side::Sell, "89.99", "1")).is_some());
    assert_eq!(book.match_order(limit(3, Side::Buy, "100.0", "1")).len(), 1);
}

#[test]
fn detection_reads_the_book_only() {
    let mut book = OrderBook::new();
    book.add_order(limit(1, Side::Sell, "100", "10"));
    let incoming = limit(2, Side::Buy, "105", "4");
    assert!(book.detect_arbitrage(&incoming).is_some());
    assert!(book.detect_arbitrage(&incoming).is_some());
    assert!(book.bids().is_empty());
    assert_eq!(book.asks().len(), 1);
    assert_eq!(book.asks().get(&dec("100")).unwrap()[0].quantity, dec("10"));
}

#[test]
fn no_advisory_against_an_empty_side() {
    let mut book = OrderBook::new();
    assert!(book.detect_arbitrage(&limit(1, Side::Buy, "100", "1")).is_none());
    assert!(book.detect_arbitrage(&limit(1, Side::Sell, "100", "1")).is_none());
    book.add_order(limit(2, Side::Buy, "100", "1"));
    // A buy order looks at the asks, which are still empty.
    assert!(book.detect_arbitrage(&limit(3, Side::Buy, "200", "1")).is_none());
}

#[test]
fn an_order_without_a_price_is_not_matched_and_does_not_rest() {
    let mut book = OrderBook::new();
    book.add_order(limit(1, Side::Sell, "100", "10"));
    let incoming = market(2, Side::Buy, "5");
    assert!(book.detect_arbitrage(&incoming).is_none());
    let trades = book.match_order(incoming);
    assert!(trades.is_empty());
    assert!(book.bids().is_empty());
    assert_eq!(book.asks().get(&dec("100")).unwrap()[0].quantity, dec("10"));
    book.add_order(market(3, Side::Sell, "5"));
    book.add_order(market(4, Side::Buy, "5"));
    assert!(book.bids().is_empty());
    assert_eq!(book.asks().len(), 1);
    assert_eq!(book.asks().get(&dec("100")).unwrap().len(), 1);
}

#[test]
fn submitting_an_order_without_a_price_is_an_error() {
    let mut book = OrderBook::new();
    book.add_order(limit(1, Side::Sell, "100", "10"));
    let r = book.submit(market(2, Side::Buy, "5"));
    assert_eq!(r.err(), Some(MatchError::UnsupportedOrder));
    assert_eq!(MatchError::UnsupportedOrder.message(), "Market orders not yet implemented.");
    assert!(book.bids().is_empty());
    assert_eq!(book.asks().get(&dec("100")).unwrap()[0].quantity, dec("10"));
}

#[test]
fn submitting_looks_for_a_crossing_before_it_matches() {
    let mut book = OrderBook::new();
    book.add_order(limit(1, Side::Sell, "100", "10"));
    let done = book.submit(limit(2, Side::Buy, "101", "10")).unwrap();
    // After the match the asks are empty; the advisory was made before.
    assert_eq!(
        done.advisory.unwrap(),
        "Arbitrage: Incoming BUY order at 101 is higher than best ASK of 100. \
         Opportunity to buy at 100 and sell at 101."
    );
    assert_eq!(done.trades.len(), 1);
    assert_eq!(done.trades[0].price, dec("100"));
    assert!(book.asks().is_empty());
    assert!(book.bids().is_empty());
    let done = book.submit(limit(3, Side::Buy, "101", "10")).unwrap();
    assert!(done.advisory.is_none());
    assert!(done.trades.is_empty());
    assert_eq!(book.bids().get(&dec("101")).unwrap()[0].quantity, dec("10"));
}

#[test]
fn an_order_without_a_positive_quantity_neither_trades_nor_rests() {
    let mut book = OrderBook::new();
    book.add_order(limit(1, Side::Sell, "100", "10"));
    book.add_order(limit(2, Side::Sell, "99", "0"));
    book.add_order(limit(3, Side::Buy, "98", "0.00"));
    book.add_order(limit(4, Side::Buy, "98", "-1"));
    assert_eq!(book.asks().len(), 1);
    assert!(book.bids().is_empty());
    assert!(book.match_order(limit(5, Side::Buy, "100", "0")).is_empty());
    assert!(book.match_order(limit(6, Side::Buy, "100", "-3")).is_empty());
    assert!(book.bids().is_empty());
    assert_eq!(book.asks().get(&dec("100")).unwrap()[0].quantity, dec("10"));
}

#[test]
fn equal_quantities_at_different_scales_fill_each_other_whole() {
    let mut book = OrderBook::new();
    book.add_order(limit(1, Side::Sell, "100", "10.00"));
    let trades = book.match_order(limit(2, Side::Buy, "100", "10"));
    assert_eq!(trades.len(), 1);
    assert_eq!(trades[0].quantity.mantissa(), 10);
    assert_eq!(trades[0].quantity.scale(), 0);
    assert!(book.asks().is_empty());
    assert!(book.bids().is_empty());
}

#[test]
fn a_difference_that_does_not_fit_is_rounded_by_the_decimal_arithmetic() {
    // 70000000000000000000000000000 - 0.5 has thirty digits, one more than a
    // mantissa holds, so the remainder is rounded to the nearest whole.
    let mut book = OrderBook::new();
    book.add_order(limit(1, Side::Sell, "100", "0.5"));
    let trades = book.match_order(limit(2, Side::Buy, "100", "70000000000000000000000000000"));
    assert_eq!(trades.len(), 1);
    assert_eq!(trades[0].quantity, dec("0.5"));
    assert!(book.asks().is_empty());
    let rest = book.bids().get(&dec("100")).unwrap()[0].quantity;
    assert_eq!(rest.mantissa(), 70000000000000000000000000000);
    assert_eq!(rest.scale(), 0);
}

#[test]
fn each_trade_is_stamped_when_it_is_made() {
    let before = chrono::Utc::now().timestamp();
    let mut book = OrderBook::new();
    book.add_order(limit(1, Side::Sell, "100", "1"));
    book.add_order(limit(2, Side::Sell, "100", "1"));
    let trades = book.match_order(limit(3, Side::Buy, "100", "2"));
    let after = chrono::Utc::now().timestamp();
    assert_eq!(trades.len(), 2);
    for t in &trades {
        assert!(before <= t.timestamp.seconds && t.timestamp.seconds <= after);
        assert!(t.timestamp.nanoseconds < 2_000_000_000);
        assert!(t.timestamp.seconds > 1_700_000_000);
    }
}

#[test]
fn a_payload_becomes_an_order_under_the_given_identifier() {
    let payload = CreateOrderPayload {
        order_type: OrderType::Limit,
        side: Side::Sell,
        price: Some(dec("12.5")),
        quantity: dec("3"),
    };
    let ts = Timestamp { seconds: 42, nanoseconds: 7 };
    let order = payload.into_order(Uuid::from_u128(77), ts);
    assert_eq!(order.id, Uuid::from_u128(77));
    assert_eq!(order.order_type, OrderType::Limit);
    assert_eq!(order.side, Side::Sell);
    assert_eq!(order.price, Some(dec("12.5")));
    assert_eq!(order.quantity, dec("3"));
    assert_eq!(order.timestamp, ts);
}

#[test]
fn a_new_book_is_empty() {
    let book = OrderBook::new();
    assert!(book.bids().is_empty());
    assert!(book.asks().is_empty());
    assert_eq!(book.bids().len(), 0);
    assert_eq!(book.asks().len(), 0);
    assert!(book.bids().best_price().is_none());
    assert!(book.asks().level(0).is_none());
    assert!(book.asks().get(&dec("1")).is_none());
}

#[test]
fn a_match_adds_no_crossing_and_may_take_one_away() {
    // Crossed by insertion: best bid 101 against best ask 100.
    let mut book = OrderBook::new();
    book.add_order(limit(1, Side::Buy, "101", "1"));
    book.add_order(limit(2, Side::Sell, "100", "1"));
    book.add_order(limit(3, Side::Sell, "102", "1"));
    assert!(is_crossed(&book));
    // The match takes the ask at 100 away; the bid at 101 stands below 102.
    let trades = book.match_order(limit(4, Side::Buy, "100", "1"));
    assert_eq!(trades.len(), 1);
    assert!(!is_crossed(&book));
    assert_eq!(prices(book.asks()), vec![Decimal::from_str("102").unwrap()]);
    assert_eq!(prices(book.bids()), vec![Decimal::from_str("101").unwrap()]);

    // The taker's remainder rests strictly on its own side of what is left.
    let mut book = OrderBook::new();
    book.add_order(limit(1, Side::Sell, "100", "1"));
    book.add_order(limit(2, Side::Sell, "103", "1"));
    let trades = book.match_order(limit(3, Side::Buy, "102", "5"));
    assert_eq!(trades.len(), 1);
    assert_eq!(prices(book.bids()), vec![Decimal::from_str("102").unwrap()]);
    assert_eq!(prices(book.asks()), vec![Decimal::from_str("103").unwrap()]);
    assert!(!is_crossed(&book));
}
