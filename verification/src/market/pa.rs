//! One level of a book: a price and the amount resting at it.
use vstd::prelude::*;
use crate::num::{nan_raw, Dec};

verus! {

/// A price and amount pair.
#[derive(Clone, Copy, Debug, PartialEq, Eq, Structural)]
pub struct PriceAmount {
    /// The price of the level.
    pub price: Dec,
    /// The amount of the level.
    pub amount: Dec,
}

impl PriceAmount {
    /// Whether a level can enter a book: a finite price and a finite amount
    /// that is not negative. A zero amount is valid; it asks for the removal
    /// of the level at that price.
    pub open spec fn valid(self) -> bool {
        &&& self.price.raw() != nan_raw()
        &&& self.amount.raw() != nan_raw()
        &&& self.amount.raw() >= 0
    }

    /// Whether this level can enter a book.
    ///
    /// A non-finite price would sort against every other level rather than
    /// among them, since [`Dec::nan`] orders below [`Dec::min_value`]. A
    /// non-finite amount would carry into every statistic taken over the side
    /// for as long as the level stood. A negative amount is not a size.
    pub fn is_valid(self) -> (b: bool)
        ensures
            b == self.valid(),
    {
        self.price.is_finite() && self.amount.is_finite() && !self.amount.is_sign_negative()
    }
}

/// A zero price and a zero amount.
impl Default for PriceAmount {
    fn default() -> (p: PriceAmount)
        ensures
            p.price.raw() == 0,
            p.amount.raw() == 0,
    {
        PriceAmount { price: Dec::zero(), amount: Dec::zero() }
    }
}

} // verus!
