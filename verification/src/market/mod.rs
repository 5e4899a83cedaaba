//! A level 2 order book over `Dec` prices and amounts.
mod pa;
mod ob;

pub use pa::PriceAmount;
pub use ob::{
    ahead, band, band_end, band_imbalance, band_start, best_first, capped, held_at, imbalance_raw,
    law_a_full_side_evicts_the_worst, law_band_is_the_levels_between, law_set_all_applies_in_order,
    law_set_all_keeps_the_shape, law_touch_imbalance_weighs_the_best_levels, law_set_keeps_the_last_amount, law_set_keeps_the_shape,
    law_volume_grows_with_depth, resting, set_all, set_levels, set_reply, side_shape, slot, volume, OrderBook,
    OrderBookDiff, OrderBookSide, OrderBookTop,
};
