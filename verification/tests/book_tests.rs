use std::str::FromStr;

use troy::{Dec, OrderBook, OrderBookDiff, OrderBookSide, OrderBookTop, PriceAmount};

fn dec(text: &str) -> Dec {
    Dec::from_str(text).unwrap()
}

fn bids(levels: &[(Dec, Dec)], max_depth: Option<usize>) -> OrderBookSide {
    let mut side = OrderBookSide::bids(max_depth);
    for (price, amount) in levels.iter().copied() {
        side.set_price_amount(price, amount);
    }
    side
}

fn asks(levels: &[(Dec, Dec)], max_depth: Option<usize>) -> OrderBookSide {
    let mut side = OrderBookSide::asks(max_depth);
    for (price, amount) in levels.iter().copied() {
        side.set_price_amount(price, amount);
    }
    side
}

fn book_with_asks(levels: &[(&str, &str)]) -> OrderBook {
    let mut book = OrderBook::new(None);
    for (price, amount) in levels {
        book.asks.set_price_amount(dec(price), dec(amount));
    }
    book
}

fn book_with_bids(levels: &[(&str, &str)]) -> OrderBook {
    let mut book = OrderBook::new(None);
    for (price, amount) in levels {
        book.bids.set_price_amount(dec(price), dec(amount));
    }
    book
}

#[test]
fn test_bids_are_ordered_best_first() {
    let side = bids(&[(dec("99"), dec("1")), (dec("101"), dec("2")), (dec("100"), dec("3"))], None);
    let prices: Vec<Dec> = side.iter().map(|level| level.price).collect();
    assert_eq!(prices, vec![dec("101"), dec("100"), dec("99")]);
    assert_eq!(side.best_price(), Some(dec("101")));
    assert_eq!(side.worst_price(), Some(dec("99")));
    assert_eq!(side.price_at(1), Some(dec("100")));
}

#[test]
fn test_asks_are_ordered_best_first() {
    let side = asks(&[(dec("101"), dec("1")), (dec("99"), dec("2")), (dec("100"), dec("3"))], None);
    let prices: Vec<Dec> = side.iter().map(|level| level.price).collect();
    assert_eq!(prices, vec![dec("99"), dec("100"), dec("101")]);
    assert_eq!(side.best_price(), Some(dec("99")));
    assert_eq!(side.worst_price(), Some(dec("101")));
}

#[test]
fn test_set_replaces_and_removes() {
    let mut side = bids(&[(dec("100"), dec("1")), (dec("99"), dec("2"))], None);
    assert_eq!(side.set_price_amount(dec("100"), dec("5")), Some(dec("1")));
    assert_eq!(side.volume_at(side.len()), Some(dec("7")));
    assert_eq!(side.set_price_amount(dec("100"), dec("0")), Some(dec("5")));
    assert_eq!(side.len(), 1);
    assert_eq!(side.volume_at(side.len()), Some(dec("2")));
    assert_eq!(side.find(dec("100")), None);
    assert_eq!(side.set_price_amount(dec("98"), dec("0")), None);
}

#[test]
fn test_is_valid_rejects_what_a_book_cannot_hold() {
    let valid = PriceAmount { price: dec("100"), amount: dec("1") };
    assert!(valid.is_valid());
    assert!(
        PriceAmount { price: dec("100"), amount: Dec::zero() }.is_valid(),
        "a zero amount is the removal of a level, not an invalid one"
    );
    for bad in [
        PriceAmount { price: Dec::nan(), amount: dec("1") },
        PriceAmount { price: dec("100"), amount: Dec::nan() },
        PriceAmount { price: dec("100"), amount: dec("-1") },
    ] {
        assert!(!bad.is_valid(), "{bad:?}");
    }
}

#[test]
fn test_range_with_low_above_high_is_empty() {
    let side = asks(&[(dec("100"), dec("1")), (dec("101"), dec("1"))], None);
    assert_eq!(side.range(dec("101"), dec("100")).count(), 0);
    let side = bids(&[(dec("101"), dec("1")), (dec("100"), dec("1"))], None);
    assert_eq!(side.range(dec("101"), dec("100")).count(), 0);
}

#[test]
fn test_a_large_max_depth_does_not_reserve_it() {
    // usize::MAX is a legal cap meaning "no limit"; reserving it aborts
    let mut book = OrderBook::new(Some(usize::MAX));
    book.asks.set_price_amount(dec("100"), dec("1"));
    assert_eq!(book.asks.len(), 1);
    assert_eq!(book.max_depth(), Some(usize::MAX));
}

#[test]
fn test_max_depth_drops_worst_levels() {
    let mut side = bids(&[(dec("100"), dec("1")), (dec("99"), dec("2")), (dec("98"), dec("3"))], Some(2));
    assert_eq!(side.len(), 2);
    assert_eq!(side.volume_at(side.len()), Some(dec("3")));
    // a better price evicts the worst level
    side.set_price_amount(dec("101"), dec("4"));
    assert_eq!(side.len(), 2);
    assert_eq!(side.best_price(), Some(dec("101")));
    assert_eq!(side.worst_price(), Some(dec("100")));
    assert_eq!(side.volume_at(side.len()), Some(dec("5")));
    // a worse price is ignored
    assert_eq!(side.set_price_amount(dec("97"), dec("9")), None);
    assert_eq!(side.len(), 2);
}

#[test]
fn test_apply_diff() {
    let mut book = OrderBook::new(None);
    book.apply_diff(&OrderBookDiff {
        bids: vec![PriceAmount { price: dec("99"), amount: dec("1") }],
        asks: vec![PriceAmount { price: dec("101"), amount: dec("2") }],
    });
    assert_eq!(book.mid_price(), Some(dec("100")));
    assert_eq!(book.spread(), Some(dec("2")));
    book.apply_diff(&OrderBookDiff {
        bids: vec![PriceAmount { price: dec("99"), amount: dec("0") }],
        ..Default::default()
    });
    assert!(book.bids.is_empty());
    assert_eq!(book.mid_price(), None);
}

#[test]
fn test_order_book_from_top() {
    let top = OrderBookTop {
        bid: PriceAmount { price: dec("99"), amount: dec("1") },
        ask: PriceAmount { price: dec("101"), amount: dec("2") },
    };
    let book = OrderBook::from(top);
    assert_eq!(book.bids.best_price(), Some(dec("99")));
    assert_eq!(book.asks.best_price(), Some(dec("101")));
    assert_eq!(book.mid_price(), Some(dec("100")));
}

#[test]
fn test_range_empty_returns_nothing() {
    let book = book_with_asks(&[("100", "1"), ("101", "1")]);
    let result: Vec<_> = book.asks.range(dec("200"), dec("300")).collect();
    assert!(result.is_empty());
}

#[test]
fn test_range_asks_ascending_best_first() {
    let book = book_with_asks(&[("100", "1"), ("101", "2"), ("102", "3"), ("103", "4")]);
    let prices: Vec<_> = book.asks.range(dec("100"), dec("102")).map(|l| l.price).collect();
    assert_eq!(prices, vec![dec("100"), dec("101"), dec("102")]);
}

#[test]
fn test_range_bids_descending_best_first() {
    let book = book_with_bids(&[("100", "1"), ("101", "2"), ("102", "3"), ("103", "4")]);
    let prices: Vec<_> = book.bids.range(dec("101"), dec("103")).map(|l| l.price).collect();
    assert_eq!(prices, vec![dec("103"), dec("102"), dec("101")]);
}

#[test]
fn test_range_bounds_not_in_book() {
    let book = book_with_asks(&[("99", "1"), ("100", "2"), ("101", "3"), ("102", "4")]);
    let prices: Vec<_> = book.asks.range(dec("99.5"), dec("101.5")).map(|l| l.price).collect();
    assert_eq!(prices, vec![dec("100"), dec("101")]);
}

#[test]
fn test_trim_keeps_the_best_levels() {
    let mut side = asks(&[(dec("100"), dec("1")), (dec("101"), dec("2")), (dec("102"), dec("3"))], None);
    side.trim(1);
    assert_eq!(side.len(), 1);
    assert_eq!(side.volume_at(side.len()), Some(dec("1")));
    side.trim(5);
    assert_eq!(side.len(), 1);
}

#[test]
fn test_volume_at_sums_the_best_levels() {
    let side = asks(&[(dec("100"), dec("1")), (dec("101"), dec("2")), (dec("102"), dec("3"))], None);
    assert_eq!(side.volume_at(0), None);
    assert_eq!(side.volume_at(1), Some(dec("1")));
    assert_eq!(side.volume_at(2), Some(dec("3")));
    assert_eq!(side.volume_at(10), Some(dec("6")));
    assert_eq!(OrderBookSide::asks(None).volume_at(3), None);
}

#[test]
fn test_an_invalid_level_is_refused_and_leaves_the_side_alone() {
    let mut side = bids(&[(dec("100"), dec("1")), (dec("99"), dec("2"))], None);
    for bad in [(Dec::nan(), dec("5")), (dec("101"), Dec::nan()), (dec("101"), dec("-5"))] {
        assert_eq!(side.set_price_amount(bad.0, bad.1), None);
    }
    let prices: Vec<Dec> = side.iter().map(|level| level.price).collect();
    assert_eq!(prices, vec![dec("100"), dec("99")]);
    assert_eq!(side.volume_at(side.len()), Some(dec("3")));
}

#[test]
fn test_lookups_by_depth_and_price() {
    let side = bids(&[(dec("100"), dec("1")), (dec("99"), dec("2"))], None);
    assert_eq!(side.at(0), Some(&PriceAmount { price: dec("100"), amount: dec("1") }));
    assert_eq!(side.at(2), None);
    assert_eq!(side.find(dec("99")), Some(&PriceAmount { price: dec("99"), amount: dec("2") }));
    assert_eq!(side.find(dec("98")), None);
    assert_eq!(side.best(), side.at(0));
    assert_eq!(side.worst(), side.at(1));
    assert_eq!(side.max_depth(), None);
    assert!(!side.is_empty());
    let empty = OrderBookSide::asks(Some(3));
    assert_eq!(empty.best(), None);
    assert_eq!(empty.worst_price(), None);
    assert_eq!(empty.max_depth(), Some(3));
}

#[test]
fn test_imbalance_follows_the_heavier_side() {
    let mut book = OrderBook::new(None);
    assert_eq!(book.imbalance(), None);
    book.bids.set_price_amount(dec("99"), dec("3"));
    assert_eq!(book.imbalance(), None);
    book.asks.set_price_amount(dec("101"), dec("1"));
    assert_eq!(book.imbalance(), Some(dec("0.5")));
    book.asks.set_price_amount(dec("102"), dec("5"));
    assert_eq!(book.range_imbalance(0, 2), Some(dec("-0.333333333333333333")));
    assert_eq!(book.range_imbalance(1, 2), None);
    assert_eq!(book.range_imbalance(2, 2), None);
    assert_eq!(book.range_imbalance(2, 0), None);
    assert_eq!(book.range_imbalance(0, 1), book.imbalance());
}

#[test]
fn test_consistency_of_a_book() {
    let mut book = OrderBook::new(None);
    assert!(book.is_consistent());
    book.bids.set_price_amount(dec("99"), dec("1"));
    book.asks.set_price_amount(dec("101"), dec("1"));
    assert!(book.is_consistent());
    book.bids.set_price_amount(dec("102"), dec("1"));
    assert!(!book.is_consistent(), "a crossed book");
    let swapped = OrderBook { bids: book.asks.clone(), asks: book.bids.clone() };
    assert!(!swapped.is_consistent(), "sides in the wrong slots");
}

#[test]
fn test_spread_and_mid_of_a_crossed_book() {
    let mut book = OrderBook::default();
    book.bids.set_price_amount(dec("101"), dec("1"));
    book.asks.set_price_amount(dec("100"), dec("1"));
    assert_eq!(book.spread(), Some(dec("-1")));
    assert_eq!(book.mid_price(), Some(dec("100.5")));
}

#[test]
fn test_a_held_level_carries_its_last_amount() {
    let mut side = OrderBookSide::bids(Some(3));
    side.set_price_amount(dec("100"), dec("1"));
    side.set_price_amount(dec("100"), dec("4"));
    side.set_price_amount(dec("101"), dec("2"));
    side.set_price_amount(dec("101"), dec("0"));
    side.set_price_amount(dec("101"), dec("7"));
    assert_eq!(side.find(dec("100")).map(|level| level.amount), Some(dec("4")));
    assert_eq!(side.find(dec("101")).map(|level| level.amount), Some(dec("7")));
    assert_eq!(side.len(), 2);
}
