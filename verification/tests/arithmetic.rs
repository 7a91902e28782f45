use matching_engine::{Amount, Order, OrderBook, OrderType, Side, Timestamp};
use uuid::Uuid;

const LIMIT: i128 = 1 << 96;

struct Numbers(u64);

impl Numbers {
    fn next(&mut self) -> u64 {
        self.0 = self.0.wrapping_mul(6364136223846793005).wrapping_add(1442695040888963407);
        self.0 >> 11
    }

    // A positive mantissa of up to `bits` bits.
    fn mantissa(&mut self, bits: u32) -> i128 {
        let hi = self.next() as i128;
        let lo = self.next() as i128;
        let m = ((hi << 53) | lo) & ((1i128 << bits) - 1);
        if m == 0 {
            1
        } else {
            m
        }
    }

    fn scale(&mut self) -> u32 {
        (self.next() % 29) as u32
    }
}

fn pow10(n: u32) -> i128 {
    10i128.pow(n)
}

// The mantissa of `m / 10^scale` at the scale `to`, unless it leaves `i128`.
fn rescaled(m: i128, scale: u32, to: u32) -> Option<i128> {
    m.checked_mul(pow10(to - scale))
}

// Whether a < b as numbers; both are positive.
fn less(a: (i128, u32), b: (i128, u32)) -> bool {
    let s = a.1.max(b.1);
    match (rescaled(a.0, a.1, s), rescaled(b.0, b.1, s)) {
        (Some(x), Some(y)) => x < y,
        // Only the operand with the smaller scale is multiplied, and the
        // product left `i128` while the other operand is below 2^96.
        (None, Some(_)) => false,
        (Some(_), None) => true,
        (None, None) => unreachable!(),
    }
}

fn order(id: u128, side: Side, quantity: Amount) -> Order {
    Order {
        id: Uuid::from_u128(id),
        order_type: OrderType::Limit,
        side,
        price: Some(Amount::new(1, 0).unwrap()),
        quantity,
        timestamp: Timestamp { seconds: 0, nanoseconds: 0 },
    }
}

// What is left of the larger of two quantities after they have traded.
fn left_after_trade(maker: (i128, u32), taker: (i128, u32)) -> ((i128, u32), bool) {
    let mut book = OrderBook::new();
    book.add_order(order(1, Side::Sell, Amount::new(maker.0, maker.1).unwrap()));
    let trades = book.match_order(order(2, Side::Buy, Amount::new(taker.0, taker.1).unwrap()));
    assert_eq!(trades.len(), 1);
    let (side, rests_as_maker) = if book.asks().is_empty() {
        (book.bids(), false)
    } else {
        (book.asks(), true)
    };
    let left = side.level(0).unwrap().orders()[0].quantity;
    ((left.mantissa(), left.scale()), rests_as_maker)
}

#[test]
fn comparison_agrees_with_exact_arithmetic() {
    let mut numbers = Numbers(7);
    let mut seen_less = 0;
    let mut seen_not_less = 0;
    for round in 0..3000 {
        let bits = [20, 31, 40, 63, 80, 96][round % 6];
        let other = [20, 31, 40, 63, 80, 96][(round / 6) % 6];
        let a = (numbers.mantissa(bits), numbers.scale());
        let b = (numbers.mantissa(other), numbers.scale());
        let x = Amount::new(a.0, a.1).unwrap();
        let y = Amount::new(b.0, b.1).unwrap();
        assert_eq!(x.lt(&y), less(a, b), "{:?} < {:?}", a, b);
        assert_eq!(y.lt(&x), less(b, a), "{:?} < {:?}", b, a);
        assert_eq!(x == y, !less(a, b) && !less(b, a));
        if less(a, b) {
            seen_less += 1;
        } else {
            seen_not_less += 1;
        }
    }
    assert!(seen_less > 500 && seen_not_less > 500);
}

#[test]
fn a_difference_that_fits_is_exact_at_the_larger_scale() {
    let mut numbers = Numbers(11);
    let mut fitting = 0;
    let mut at_different_scales = 0;
    let mut beyond_64_bits = 0;
    for round in 0..6000 {
        let bits = [20, 31, 40, 63, 80, 96][round % 6];
        let other = [20, 31, 40, 63, 80, 96][(round / 6) % 6];
        let near = round % 5 == 0;
        let a = (numbers.mantissa(bits), numbers.scale());
        let b = if near {
            (numbers.mantissa(other), a.1.saturating_sub((numbers.next() % 4) as u32))
        } else {
            (numbers.mantissa(other), numbers.scale())
        };
        if !less(a, b) && !less(b, a) {
            continue;
        }
        let (large, small) = if less(a, b) { (b, a) } else { (a, b) };
        let s = large.1.max(small.1);
        let exact = match (rescaled(large.0, large.1, s), rescaled(small.0, small.1, s)) {
            (Some(x), Some(y)) if x - y < LIMIT => Some(x - y),
            _ => None,
        };
        let Some(exact) = exact else {
            continue;
        };
        // Once with the larger quantity resting and once with it incoming.
        let (left, rests_as_maker) = left_after_trade(large, small);
        assert!(rests_as_maker);
        assert_eq!(left, (exact, s), "{:?} - {:?}", large, small);
        let (left, rests_as_maker) = left_after_trade(small, large);
        assert!(!rests_as_maker);
        assert_eq!(left, (exact, s), "{:?} - {:?}", large, small);
        fitting += 1;
        if large.1 != small.1 {
            at_different_scales += 1;
        }
        if large.0 >= 1 << 64 || exact >= 1 << 64 {
            beyond_64_bits += 1;
        }
    }
    assert!(fitting > 1000);
    assert!(at_different_scales > 500);
    assert!(beyond_64_bits > 100);
}

#[test]
fn a_larger_quantity_at_the_larger_scale_always_leaves_an_exact_difference() {
    let limit = LIMIT - 1;
    let cases = [
        ((limit, 28), (1, 0)),
        ((limit, 28), (7, 0)),
        ((limit, 5), (limit - 1, 5)),
        ((limit, 3), (1, 3)),
        ((limit, 10), (79228162514264337, 0)),
        ((10_000_000_000, 10), (1, 0)),
        ((10_000_000_001, 10), (1, 0)),
    ];
    for (large, small) in cases {
        assert!(less(small, large) || !less(large, small));
        let x = rescaled(large.0, large.1, large.1).unwrap();
        let y = rescaled(small.0, small.1, large.1).unwrap();
        if x == y {
            continue;
        }
        let (left, _) = left_after_trade(large, small);
        assert_eq!(left, (x - y, large.1));
    }
}

#[test]
fn a_difference_that_does_not_fit_is_still_positive_and_no_larger() {
    let mut numbers = Numbers(23);
    let mut seen = 0;
    for round in 0..4000 {
        let bits = [70, 80, 90, 96][round % 4];
        let large = (numbers.mantissa(bits), (numbers.next() % 6) as u32);
        let small = (numbers.mantissa(40), 6 + (numbers.next() % 23) as u32);
        if !less(small, large) {
            continue;
        }
        let s = large.1.max(small.1);
        let fits = match (rescaled(large.0, large.1, s), rescaled(small.0, small.1, s)) {
            (Some(x), Some(y)) => x - y < LIMIT,
            _ => false,
        };
        if fits {
            continue;
        }
        for (maker, taker) in [(large, small), (small, large)] {
            let (left, _) = left_after_trade(maker, taker);
            assert!(left.0 > 0);
            assert!(!less(large, left), "{:?} - {:?} = {:?}", large, small, left);
            assert!(left.1 <= s);
        }
        seen += 1;
    }
    assert!(seen > 1000);
}

#[test]
fn differences_at_the_edges_of_the_mantissa_are_exact_where_they_fit() {
    let mut mantissas: Vec<i128> = vec![1, 2, 9];
    for bits in [31, 32, 63, 64, 95] {
        let edge = 1i128 << bits;
        mantissas.extend([edge - 1, edge, edge + 1]);
    }
    mantissas.push(LIMIT - 1);
    mantissas.push(LIMIT - 2);
    for digits in [1, 9, 10, 18, 19, 20, 27, 28] {
        let power = pow10(digits);
        mantissas.extend([power - 1, power, power + 1]);
    }
    let scales = [0u32, 1, 9, 10, 18, 19, 20, 27, 28];
    let mut fitting = 0;
    let mut rounded = 0;
    for &m in &mantissas {
        for &s in &scales {
            for &n in &mantissas {
                for &t in &scales {
                    let (a, b) = ((m, s), (n, t));
                    if !less(b, a) {
                        continue;
                    }
                    let top = s.max(t);
                    let exact = match (rescaled(m, s, top), rescaled(n, t, top)) {
                        (Some(x), Some(y)) if x - y < LIMIT => Some(x - y),
                        _ => None,
                    };
                    let (left, rests_as_maker) = left_after_trade(a, b);
                    assert!(rests_as_maker);
                    match exact {
                        Some(d) => {
                            assert_eq!(left, (d, top), "{:?} - {:?}", a, b);
                            fitting += 1;
                        }
                        None => {
                            assert!(left.0 > 0, "{:?} - {:?}", a, b);
                            assert!(!less(a, left), "{:?} - {:?}", a, b);
                            rounded += 1;
                        }
                    }
                }
            }
        }
    }
    assert!(fitting > 10_000);
    assert!(rounded > 10_000);
}
