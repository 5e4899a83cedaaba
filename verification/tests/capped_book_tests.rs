use std::str::FromStr;

use troy::{Dec, OrderBook, OrderBookSide};

/// The caps a compact book is run at.
const CAPS: [usize; 4] = [10, 50, 100, 200];

fn dec(text: &str) -> Dec {
    Dec::from_str(text).unwrap()
}

/// A price on the tick grid, `step` ticks above the base.
fn price(step: u16) -> Dec {
    dec("100") + dec("0.01") * Dec::from(step as i32)
}

/// Every invariant a side must keep, whatever has been done to it.
fn check(side: &OrderBookSide, cap: usize, desc: bool, what: &str) {
    assert!(side.len() <= cap, "{what}: {} levels held past a cap of {cap}", side.len());
    assert_eq!(side.max_depth(), Some(cap), "{}: cap changed", what);
    let levels: Vec<_> = side.iter().copied().collect();
    assert_eq!(levels.len(), side.len(), "{}: iter disagrees with len", what);
    for (rank, level) in levels.iter().enumerate() {
        assert!(level.price.is_finite(), "{what}: non-finite price held");
        assert!(level.amount.is_finite(), "{what}: non-finite amount held");
        assert!(level.amount > Dec::zero(), "{what}: non-positive amount at rank {rank}");
        if rank > 0 {
            let better = levels[rank - 1].price;
            match desc {
                true => assert!(better > level.price, "{what}: out of order at rank {rank}"),
                false => assert!(better < level.price, "{what}: out of order at rank {rank}"),
            }
        }
        assert_eq!(side.at(rank), Some(level), "{}: at({}) differs", what, rank);
        assert_eq!(side.find(level.price), Some(level), "{}: find differs", what);
    }
    assert_eq!(side.best(), levels.first(), "{}: best is not the front", what);
    assert_eq!(side.worst(), levels.last(), "{}: worst is not the back", what);
    assert_eq!(side.at(side.len()), None, "{}: a level past the end", what);
    assert_eq!(side.is_empty(), levels.is_empty(), "{}: is_empty", what);
}

#[test]
fn test_filling_past_the_cap_keeps_the_best() {
    for cap in CAPS {
        let offered = cap * 3;
        let mut book = OrderBook::new(Some(cap));
        // a stride coprime with the span walks every price once, in an order
        // that is neither ascending nor descending
        let stride = 7_u16;
        for n in 0..offered as u16 {
            let step = (n * stride) % offered as u16;
            book.bids.set_price_amount(price(step), dec("1"));
        }
        check(&book.bids, cap, true, "filled");
        assert_eq!(book.bids.len(), cap, "a side offered {offered} levels");

        // every price the side kept beats every price it did not
        let held: Vec<Dec> = book.bids.iter().map(|level| level.price).collect();
        let worst_held = *held.last().expect("a full side");
        for n in 0..offered as u16 {
            let candidate = price(n);
            if candidate > worst_held {
                assert!(book.bids.find(candidate).is_some(), "a better price is missing at cap {cap}");
            }
        }
    }
}

#[test]
fn test_a_full_side_evicts_the_worst_and_refuses_the_rest() {
    for cap in CAPS {
        let mut book = OrderBook::new(Some(cap));
        // fill exactly, best first, so the worst sits at step 0
        for step in (0..cap as u16).rev() {
            book.bids.set_price_amount(price(step), dec("1"));
        }
        assert_eq!(book.bids.len(), cap);
        assert_eq!(book.bids.best_price(), Some(price(cap as u16 - 1)));
        assert_eq!(book.bids.worst_price(), Some(price(0)));

        // a price better than the best goes in, and the worst leaves
        let better = price(cap as u16);
        assert_eq!(book.bids.set_price_amount(better, dec("2")), None);
        assert_eq!(book.bids.len(), cap, "cap {cap} grew on an eviction");
        assert_eq!(book.bids.best_price(), Some(better));
        assert_eq!(book.bids.worst_price(), Some(price(1)), "cap {cap}");
        assert!(book.bids.find(price(0)).is_none(), "cap {cap} kept the evicted");

        // a price worse than the worst held is refused, and the side is
        // untouched
        let worse = price(0) - dec("0.01");
        assert_eq!(book.bids.set_price_amount(worse, dec("3")), None);
        assert_eq!(book.bids.len(), cap, "cap {cap} grew on a refusal");
        assert!(book.bids.find(worse).is_none(), "cap {cap} kept a refused level");
        assert_eq!(book.bids.worst_price(), Some(price(1)), "cap {cap}");

        // and a removal frees exactly one place, which the next level takes
        assert!(book.bids.set_price_amount(better, Dec::zero()).is_some());
        assert_eq!(book.bids.len(), cap - 1, "cap {cap} after a removal");
        assert_eq!(book.bids.set_price_amount(worse, dec("3")), None);
        assert_eq!(book.bids.len(), cap, "cap {cap} refilled");
        assert_eq!(book.bids.worst_price(), Some(worse), "cap {cap}");
    }
}

#[test]
fn test_trimming_to_each_cap_keeps_the_best() {
    for cap in CAPS {
        let mut book = OrderBook::new(None);
        for step in 0..(cap as u16 * 2) {
            book.bids.set_price_amount(price(step), dec("1"));
            book.asks.set_price_amount(price(step), dec("1"));
        }
        let best_bid = book.bids.best_price();
        let best_ask = book.asks.best_price();

        book.bids.trim(cap);
        book.asks.trim(cap);
        assert_eq!(book.bids.len(), cap);
        assert_eq!(book.asks.len(), cap);
        assert_eq!(book.bids.best_price(), best_bid, "cap {cap} lost the best bid");
        assert_eq!(book.asks.best_price(), best_ask, "cap {cap} lost the best ask");
        // trimming to more than is held is a no-op, not a truncation
        book.bids.trim(cap * 10);
        assert_eq!(book.bids.len(), cap, "cap {cap} shrank on a wider trim");
    }
}

#[test]
fn test_a_walk_of_updates_keeps_every_cap() {
    let mut state = 0x2545_F491_4F6C_DD1D_u64;
    for cap in CAPS {
        let mut book = OrderBook::new(Some(cap));
        for _ in 0..600 {
            state ^= state << 13;
            state ^= state >> 7;
            state ^= state << 17;
            let step = (state % 1000) as u16;
            let amount = Dec::from(((state >> 16) % 8) as i32);
            book.bids.set_price_amount(price(step), amount);
            book.asks.set_price_amount(price(step), amount);
            check(&book.bids, cap, true, "bids");
            check(&book.asks, cap, false, "asks");
            for value in [book.imbalance(), book.range_imbalance(0, cap)].into_iter().flatten() {
                assert!(value >= Dec::neg_one() && value <= Dec::one(), "imbalance left [-1, 1]");
            }
        }
    }
}
