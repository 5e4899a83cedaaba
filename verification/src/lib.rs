//! Fixed-scale decimals and a level 2 order book built on them.
//!
//! Every module's spec functions are public: they are the model the
//! contracts are stated over, and `laws` states what holds across calls.
pub mod num;
pub mod mul;
pub mod div;
pub mod ops;
pub mod round;
pub mod sqrt;
pub mod parse;
pub mod format;
pub mod decimal;
pub mod double;
pub mod market;
pub mod laws;

pub use num::Dec;
pub use round::RoundingStrategy;
pub use parse::ParseDecError;
pub use format::{Alignment, FormatOptions};
pub use market::{OrderBook, OrderBookDiff, OrderBookSide, OrderBookTop, PriceAmount};
