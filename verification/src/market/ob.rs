//! The two sides of a level 2 book and the book that holds them.
//!
//! A side keeps its levels best first, descending for bids and ascending for
//! asks, with no price held twice and no level resting at a zero amount, so
//! the best level, the n-th level and the depth cut are index arithmetic.
use vstd::prelude::*;
use vstd::std_specs::convert::FromSpecImpl;
use vstd::std_specs::iter::IteratorSpec;
use crate::market::pa::PriceAmount;
use crate::num::{
    abs_int, in_range, nan_raw, one_raw, raw_difference, raw_quotient, raw_sum, round_half_up, trunc_div, Dec,
};

verus! {

// ---------------------------------------------------------------------------
// The model of a side
// ---------------------------------------------------------------------------

/// Whether price `a` stands ahead of price `b` on a side: higher on the bid
/// side (`desc`), lower on the ask side.
pub open spec fn ahead(desc: bool, a: int, b: int) -> bool {
    if desc {
        a > b
    } else {
        a < b
    }
}

/// Whether every level is valid and rests at a positive amount: a zero
/// amount removes a level rather than leaving it standing.
pub open spec fn resting(levels: Seq<PriceAmount>) -> bool {
    forall|i: int| 0 <= i < levels.len() ==> (#[trigger] levels[i]).valid() && levels[i].amount.raw() > 0
}

/// Whether the levels are strictly ordered best first, so that no price is
/// held twice.
pub open spec fn best_first(desc: bool, levels: Seq<PriceAmount>) -> bool {
    forall|i: int, j: int|
        #![trigger levels[i], levels[j]]
        0 <= i < j < levels.len() ==> ahead(desc, levels[i].price.raw(), levels[j].price.raw())
}

/// What every side holds at all times: resting levels, strictly ordered best
/// first, and no more of them than the cap.
pub open spec fn side_shape(desc: bool, levels: Seq<PriceAmount>, cap: Option<usize>) -> bool {
    &&& resting(levels)
    &&& best_first(desc, levels)
    &&& cap matches Some(d) ==> levels.len() <= d
}

/// The number of levels standing ahead of `price`: the index of the level
/// at that price where the side holds one, and otherwise the index at which
/// a level at that price would go in.
pub open spec fn slot(desc: bool, levels: Seq<PriceAmount>, price: int) -> nat
    decreases levels.len(),
{
    if levels.len() == 0 {
        0
    } else if ahead(desc, levels.last().price.raw(), price) {
        slot(desc, levels.drop_last(), price) + 1
    } else {
        slot(desc, levels.drop_last(), price)
    }
}

/// Whether the side holds a level at `price`.
pub open spec fn held_at(desc: bool, levels: Seq<PriceAmount>, price: int) -> bool {
    let k = slot(desc, levels, price) as int;
    k < levels.len() && levels[k].price.raw() == price
}

/// The levels cut down to the cap, the best ones kept.
pub open spec fn capped(levels: Seq<PriceAmount>, cap: Option<usize>) -> Seq<PriceAmount> {
    match cap {
        Some(d) => if levels.len() > d {
            levels.take(d as int)
        } else {
            levels
        },
        None => levels,
    }
}

/// The levels after setting `entry`: an invalid level changes nothing; a
/// held price takes the new amount, or leaves at a zero amount; a new price
/// goes in at its place unless its amount is zero or the place lies past the
/// cap, and a side that grows past the cap loses its worst level.
pub open spec fn set_levels(
    desc: bool,
    cap: Option<usize>,
    levels: Seq<PriceAmount>,
    entry: PriceAmount,
) -> Seq<PriceAmount> {
    let k = slot(desc, levels, entry.price.raw()) as int;
    if !entry.valid() {
        levels
    } else if held_at(desc, levels, entry.price.raw()) {
        if entry.amount.raw() == 0 {
            levels.remove(k)
        } else {
            levels.update(k, entry)
        }
    } else if entry.amount.raw() == 0 || (cap matches Some(d) && k >= d) {
        levels
    } else {
        capped(levels.insert(k, entry), cap)
    }
}

/// What setting `entry` answers: the amount it replaced, where a valid level
/// met a held price, and `None` otherwise.
pub open spec fn set_reply(desc: bool, levels: Seq<PriceAmount>, entry: PriceAmount) -> Option<Dec> {
    if entry.valid() && held_at(desc, levels, entry.price.raw()) {
        Some(levels[slot(desc, levels, entry.price.raw()) as int].amount)
    } else {
        None
    }
}

/// The levels after setting each entry in turn.
pub open spec fn set_all(
    desc: bool,
    cap: Option<usize>,
    levels: Seq<PriceAmount>,
    entries: Seq<PriceAmount>,
) -> Seq<PriceAmount>
    decreases entries.len(),
{
    if entries.len() == 0 {
        levels
    } else {
        set_levels(desc, cap, set_all(desc, cap, levels, entries.drop_last()), entries.last())
    }
}

/// Where the band of levels priced within `[low, high]` starts: after every
/// level priced ahead of it.
pub open spec fn band_start(desc: bool, levels: Seq<PriceAmount>, low: int, high: int) -> int {
    if desc {
        slot(desc, levels, high) as int
    } else {
        slot(desc, levels, low) as int
    }
}

/// Where the band of levels priced within `[low, high]` ends: after its far
/// edge, and after the level at that edge where one is held.
pub open spec fn band_end(desc: bool, levels: Seq<PriceAmount>, low: int, high: int) -> int {
    let edge = if desc {
        low
    } else {
        high
    };
    slot(desc, levels, edge) + if held_at(desc, levels, edge) {
        1int
    } else {
        0int
    }
}

/// The NaN-propagating sum of the amounts, folded from the best level.
pub open spec fn volume(levels: Seq<PriceAmount>) -> int
    decreases levels.len(),
{
    if levels.len() == 0 {
        0
    } else {
        raw_sum(volume(levels.drop_last()), levels.last().amount.raw())
    }
}

/// The levels at depths `from` up to but not including `to`, as far as the
/// side reaches.
pub open spec fn band(levels: Seq<PriceAmount>, from: int, to: int) -> Seq<PriceAmount> {
    let end = if to < levels.len() {
        to
    } else {
        levels.len() as int
    };
    if from < end {
        levels.subrange(from, end)
    } else {
        Seq::empty()
    }
}

/// `(bid - ask) / (bid + ask)` on raws, where both are finite and their sum
/// stays in range; `None` otherwise.
pub open spec fn imbalance_raw(bid: int, ask: int) -> Option<int> {
    if bid == nan_raw() || ask == nan_raw() || !in_range(bid + ask) {
        None
    } else {
        raw_quotient(bid - ask, bid + ask)
    }
}

/// The imbalance of a band of depths: `None` for an empty or inverted band,
/// or where either side holds no level inside it; otherwise that of the two
/// sides' volumes over it.
pub open spec fn band_imbalance(
    bids: Seq<PriceAmount>,
    asks: Seq<PriceAmount>,
    from: int,
    to: int,
) -> Option<int> {
    if band(bids, from, to).len() == 0 || band(asks, from, to).len() == 0 {
        None
    } else {
        imbalance_raw(volume(band(bids, from, to)), volume(band(asks, from, to)))
    }
}

proof fn lemma_slot_is(desc: bool, levels: Seq<PriceAmount>, price: int, k: int)
    requires
        0 <= k <= levels.len(),
        forall|j: int| 0 <= j < k ==> ahead(desc, #[trigger] levels[j].price.raw(), price),
        forall|j: int| k <= j < levels.len() ==> !ahead(desc, #[trigger] levels[j].price.raw(), price),
    ensures
        slot(desc, levels, price) == k,
    decreases levels.len(),
{
    if levels.len() > 0 {
        let init = levels.drop_last();
        assert(levels.last() == levels[levels.len() - 1]);
        if k == levels.len() {
            assert forall|j: int| 0 <= j < k - 1 implies ahead(desc, #[trigger] init[j].price.raw(), price) by {
                assert(init[j] == levels[j]);
            }
            lemma_slot_is(desc, init, price, k - 1);
        } else {
            assert forall|j: int| 0 <= j < k implies ahead(desc, #[trigger] init[j].price.raw(), price) by {
                assert(init[j] == levels[j]);
            }
            assert forall|j: int| k <= j < init.len() implies !ahead(desc, #[trigger] init[j].price.raw(), price) by {
                assert(init[j] == levels[j]);
            }
            lemma_slot_is(desc, init, price, k);
        }
    }
}

pub(crate) proof fn lemma_insert_keeps_order(desc: bool, levels: Seq<PriceAmount>, k: int, entry: PriceAmount)
    requires
        best_first(desc, levels),
        0 <= k <= levels.len(),
        forall|j: int| 0 <= j < k ==> ahead(desc, #[trigger] levels[j].price.raw(), entry.price.raw()),
        forall|j: int| k <= j < levels.len() ==> ahead(desc, entry.price.raw(), #[trigger] levels[j].price.raw()),
    ensures
        best_first(desc, levels.insert(k, entry)),
{
    let next = levels.insert(k, entry);
    assert forall|i: int, j: int| 0 <= i < j < next.len() implies ahead(desc, #[trigger] next[i].price.raw(), #[trigger] next[j].price.raw()) by {
        if j < k {
            assert(ahead(desc, levels[i].price.raw(), levels[j].price.raw()));
        } else if j == k {
            assert(next[i] == levels[i]);
        } else if i < k {
            assert(next[j] == levels[j - 1]);
            assert(ahead(desc, levels[i].price.raw(), entry.price.raw()));
            assert(ahead(desc, entry.price.raw(), levels[j - 1].price.raw()));
        } else if i == k {
            assert(next[j] == levels[j - 1]);
        } else {
            assert(ahead(desc, levels[i - 1].price.raw(), levels[j - 1].price.raw()));
        }
    }
}

pub(crate) proof fn lemma_remove_keeps_shape(desc: bool, levels: Seq<PriceAmount>, k: int)
    requires
        resting(levels),
        best_first(desc, levels),
        0 <= k < levels.len(),
    ensures
        resting(levels.remove(k)),
        best_first(desc, levels.remove(k)),
{
    let next = levels.remove(k);
    assert forall|i: int| 0 <= i < next.len() implies #[trigger] next[i].valid() && next[i].amount.raw() > 0 by {
        if i >= k {
            assert(next[i] == levels[i + 1]);
            assert(levels[i + 1].valid() && levels[i + 1].amount.raw() > 0);
        } else {
            assert(next[i] == levels[i]);
            assert(levels[i].valid() && levels[i].amount.raw() > 0);
        }
    }
    assert forall|i: int, j: int| 0 <= i < j < next.len() implies ahead(desc, #[trigger] next[i].price.raw(), #[trigger] next[j].price.raw()) by {
        if j < k {
            assert(ahead(desc, levels[i].price.raw(), levels[j].price.raw()));
        } else if i < k {
            assert(ahead(desc, levels[i].price.raw(), levels[j + 1].price.raw()));
        } else {
            assert(ahead(desc, levels[i + 1].price.raw(), levels[j + 1].price.raw()));
        }
    }
}

pub(crate) proof fn lemma_take_keeps_shape(desc: bool, levels: Seq<PriceAmount>, n: int)
    requires
        resting(levels),
        best_first(desc, levels),
        0 <= n <= levels.len(),
    ensures
        resting(levels.take(n)),
        best_first(desc, levels.take(n)),
{
    let next = levels.take(n);
    assert forall|i: int| 0 <= i < next.len() implies #[trigger] next[i].valid() && next[i].amount.raw() > 0 by {
        assert(next[i] == levels[i]);
        assert(levels[i].valid() && levels[i].amount.raw() > 0);
    }
    assert forall|i: int, j: int| 0 <= i < j < next.len() implies ahead(desc, #[trigger] next[i].price.raw(), #[trigger] next[j].price.raw()) by {
        assert(ahead(desc, levels[i].price.raw(), levels[j].price.raw()));
    }
}

/// On a side ordered best first, every level before the slot of a price
/// stands ahead of it and none from the slot on does.
pub(crate) proof fn lemma_slot_splits(desc: bool, levels: Seq<PriceAmount>, price: int)
    requires
        best_first(desc, levels),
    ensures
        slot(desc, levels, price) <= levels.len(),
        forall|j: int| 0 <= j < slot(desc, levels, price) ==> ahead(desc, #[trigger] levels[j].price.raw(), price),
        forall|j: int|
            slot(desc, levels, price) <= j < levels.len() ==> !ahead(desc, #[trigger] levels[j].price.raw(), price),
    decreases levels.len(),
{
    if levels.len() > 0 {
        let init = levels.drop_last();
        assert forall|i: int, j: int| 0 <= i < j < init.len() implies ahead(desc, #[trigger] init[i].price.raw(), #[trigger] init[j].price.raw()) by {
            assert(ahead(desc, levels[i].price.raw(), levels[j].price.raw()));
        }
        lemma_slot_splits(desc, init, price);
        let last = levels.len() - 1;
        assert(levels.last() == levels[last]);
        if ahead(desc, levels[last].price.raw(), price) {
            assert forall|j: int| 0 <= j < init.len() implies ahead(desc, #[trigger] init[j].price.raw(), price) by {
                assert(init[j] == levels[j]);
                assert(ahead(desc, levels[j].price.raw(), levels[last].price.raw()));
            }
            assert(slot(desc, init, price) == init.len());
        }
        assert forall|j: int| 0 <= j < slot(desc, levels, price) implies ahead(desc, #[trigger] levels[j].price.raw(), price) by {
            if j < init.len() {
                assert(init[j] == levels[j]);
            }
        }
        assert forall|j: int| slot(desc, levels, price) <= j < levels.len() implies !ahead(desc, #[trigger] levels[j].price.raw(), price) by {
            if j < init.len() {
                assert(init[j] == levels[j]);
            }
        }
    }
}

/// On a side ordered best first, a price is held exactly where a level
/// carries it, and that level sits at its slot.
pub(crate) proof fn lemma_held_where_carried(desc: bool, levels: Seq<PriceAmount>, price: int, i: int)
    requires
        best_first(desc, levels),
        0 <= i < levels.len(),
        levels[i].price.raw() == price,
    ensures
        slot(desc, levels, price) == i,
        held_at(desc, levels, price),
{
    lemma_slot_splits(desc, levels, price);
    let k = slot(desc, levels, price) as int;
    if k > i {
        assert(ahead(desc, levels[i].price.raw(), price));
    }
    if k < i {
        assert(!ahead(desc, levels[k].price.raw(), price));
        assert(ahead(desc, levels[k].price.raw(), levels[i].price.raw()));
    }
}

// ---------------------------------------------------------------------------
// Laws of a side
// ---------------------------------------------------------------------------

/// Setting a level keeps a side's shape: resting levels, strictly ordered
/// best first, within the cap.
pub proof fn law_set_keeps_the_shape(desc: bool, cap: Option<usize>, levels: Seq<PriceAmount>, entry: PriceAmount)
    requires
        side_shape(desc, levels, cap),
    ensures
        side_shape(desc, set_levels(desc, cap, levels, entry), cap),
{
    let p = entry.price.raw();
    let k = slot(desc, levels, p) as int;
    lemma_slot_splits(desc, levels, p);
    if !entry.valid() {
    } else if held_at(desc, levels, p) {
        if entry.amount.raw() == 0 {
            lemma_remove_keeps_shape(desc, levels, k);
        } else {
            let next = levels.update(k, entry);
            assert forall|i: int, j: int| 0 <= i < j < next.len() implies ahead(desc, #[trigger] next[i].price.raw(), #[trigger] next[j].price.raw()) by {
                assert(ahead(desc, levels[i].price.raw(), levels[j].price.raw()));
            }
            assert forall|i: int| 0 <= i < next.len() implies (#[trigger] next[i]).valid() && next[i].amount.raw() > 0 by {
                if i != k {
                    assert(next[i] == levels[i]);
                }
            }
        }
    } else if entry.amount.raw() == 0 || (cap matches Some(d) && k >= d) {
    } else {
        assert forall|j: int| k <= j < levels.len() implies ahead(desc, p, #[trigger] levels[j].price.raw()) by {
            assert(!ahead(desc, levels[j].price.raw(), p));
            if j > k {
                assert(ahead(desc, levels[k].price.raw(), levels[j].price.raw()));
            }
        }
        lemma_insert_keeps_order(desc, levels, k, entry);
        let inserted = levels.insert(k, entry);
        assert forall|i: int| 0 <= i < inserted.len() implies (#[trigger] inserted[i]).valid() && inserted[i].amount.raw() > 0 by {
            if i < k {
                assert(inserted[i] == levels[i]);
            } else if i > k {
                assert(inserted[i] == levels[i - 1]);
            }
        }
        if let Some(d) = cap {
            if inserted.len() > d {
                lemma_take_keeps_shape(desc, inserted, d as int);
            }
        }
    }
}

/// A level the side holds carries the amount it was last set to: after a
/// valid level is set, its price is held at its amount where that amount is
/// positive and the side kept it, and not held at all where the amount was
/// zero. No other price comes out of nowhere.
pub proof fn law_set_keeps_the_last_amount(
    desc: bool,
    cap: Option<usize>,
    levels: Seq<PriceAmount>,
    entry: PriceAmount,
)
    requires
        side_shape(desc, levels, cap),
        entry.valid(),
    ensures
        ({
            let after = set_levels(desc, cap, levels, entry);
            let p = entry.price.raw();
            &&& entry.amount.raw() == 0 ==> !held_at(desc, after, p)
            &&& entry.amount.raw() > 0 && held_at(desc, after, p) ==> after[slot(desc, after, p) as int]
                == entry
            &&& forall|i: int|
                0 <= i < after.len() && (#[trigger] after[i]).price.raw() != p ==> levels.contains(after[i])
        }),
{
    let after = set_levels(desc, cap, levels, entry);
    let p = entry.price.raw();
    let k = slot(desc, levels, p) as int;
    lemma_slot_splits(desc, levels, p);
    law_set_keeps_the_shape(desc, cap, levels, entry);
    if held_at(desc, levels, p) {
        if entry.amount.raw() == 0 {
            if held_at(desc, after, p) {
                let j = slot(desc, after, p) as int;
                let source = if j < k {
                    j
                } else {
                    j + 1
                };
                assert(after[j] == levels[source]);
                lemma_held_where_carried(desc, levels, p, source);
            }
            assert forall|i: int| 0 <= i < after.len() && (#[trigger] after[i]).price.raw() != p implies levels.contains(after[i]) by {
                let source = if i < k {
                    i
                } else {
                    i + 1
                };
                assert(after[i] == levels[source]);
            }
        } else {
            assert(after[k] == entry);
            lemma_held_where_carried(desc, after, p, k);
            assert forall|i: int| 0 <= i < after.len() && (#[trigger] after[i]).price.raw() != p implies levels.contains(after[i]) by {
                assert(after[i] == levels[i]);
            }
        }
    } else if entry.amount.raw() == 0 || (cap matches Some(d) && k >= d) {
        assert forall|i: int| 0 <= i < after.len() && (#[trigger] after[i]).price.raw() != p implies levels.contains(after[i]) by {
            assert(after[i] == levels[i]);
        }
    } else {
        let inserted = levels.insert(k, entry);
        assert(after == capped(inserted, cap));
        assert(k < after.len());
        assert(after[k] == inserted[k]);
        lemma_held_where_carried(desc, after, p, k);
        assert forall|i: int| 0 <= i < after.len() && (#[trigger] after[i]).price.raw() != p implies levels.contains(after[i]) by {
            assert(after[i] == inserted[i]);
            if i < k {
                assert(inserted[i] == levels[i]);
            } else {
                assert(i != k);
                assert(inserted[i] == levels[i - 1]);
            }
        }
    }
}

/// Setting a batch of levels, as a diff does, keeps a side's shape.
pub proof fn law_set_all_keeps_the_shape(
    desc: bool,
    cap: Option<usize>,
    levels: Seq<PriceAmount>,
    entries: Seq<PriceAmount>,
)
    requires
        side_shape(desc, levels, cap),
    ensures
        side_shape(desc, set_all(desc, cap, levels, entries), cap),
    decreases entries.len(),
{
    if entries.len() > 0 {
        law_set_all_keeps_the_shape(desc, cap, levels, entries.drop_last());
        law_set_keeps_the_shape(desc, cap, set_all(desc, cap, levels, entries.drop_last()), entries.last());
    }
}

/// A full capped side gives way to a new price only if it beats the worst
/// level held, which then leaves so the side stays full; a price that does
/// not beat it is refused and the side is left as it was.
pub proof fn law_a_full_side_evicts_the_worst(desc: bool, d: usize, levels: Seq<PriceAmount>, entry: PriceAmount)
    requires
        side_shape(desc, levels, Some(d)),
        levels.len() == d,
        d > 0,
        entry.valid(),
        entry.amount.raw() > 0,
        !held_at(desc, levels, entry.price.raw()),
    ensures
        ahead(desc, entry.price.raw(), levels.last().price.raw()) ==> set_levels(desc, Some(d), levels, entry)
            == levels.drop_last().insert(slot(desc, levels, entry.price.raw()) as int, entry),
        !ahead(desc, entry.price.raw(), levels.last().price.raw()) ==> set_levels(desc, Some(d), levels, entry)
            == levels,
{
    let p = entry.price.raw();
    let k = slot(desc, levels, p) as int;
    let last = levels.len() - 1;
    lemma_slot_splits(desc, levels, p);
    assert(levels.last() == levels[last]);
    if ahead(desc, p, levels[last].price.raw()) {
        assert(k <= last);
        let inserted = levels.insert(k, entry);
        assert(inserted.take(d as int) =~= levels.drop_last().insert(k, entry));
    } else {
        if levels[last].price.raw() == p {
            lemma_held_where_carried(desc, levels, p, last);
        }
        assert(ahead(desc, levels[last].price.raw(), p));
        assert forall|j: int| 0 <= j < levels.len() implies ahead(desc, #[trigger] levels[j].price.raw(), p) by {
            if j < last {
                assert(ahead(desc, levels[j].price.raw(), levels[last].price.raw()));
            }
        }
        assert(k >= d);
    }
}

/// The volume of the best levels grows with each level taken, until it
/// leaves the range, and the volume of the best level alone is its amount.
pub proof fn law_volume_grows_with_depth(levels: Seq<PriceAmount>, n: int)
    requires
        resting(levels),
        0 <= n < levels.len(),
    ensures
        volume(levels.take(1)) == levels[0].amount.raw(),
        volume(levels.take(n + 1)) != nan_raw() ==> volume(levels.take(n)) != nan_raw() && volume(levels.take(n))
            < volume(levels.take(n + 1)),
{
    assert(levels.take(1).drop_last() == levels.take(0));
    assert(volume(levels.take(0)) == 0);
    assert(levels.take(1).last() == levels[0]);
    assert(levels[0].valid());
    assert(levels.take(n + 1).drop_last() == levels.take(n));
    assert(levels.take(n + 1).last() == levels[n]);
    assert(levels[n].valid() && levels[n].amount.raw() > 0);
}

/// A batch is set in its own order: no entries change nothing, one entry is
/// one `set`, a batch and then one more entry is the longer batch, and two
/// batches in turn are their concatenation. So where a batch names a price
/// twice, the later entry is the one that stands.
pub proof fn law_set_all_applies_in_order(
    desc: bool,
    cap: Option<usize>,
    levels: Seq<PriceAmount>,
    entries: Seq<PriceAmount>,
    more: Seq<PriceAmount>,
    entry: PriceAmount,
)
    ensures
        set_all(desc, cap, levels, Seq::empty()) == levels,
        set_all(desc, cap, levels, seq![entry]) == set_levels(desc, cap, levels, entry),
        set_all(desc, cap, levels, entries.push(entry)) == set_levels(
            desc,
            cap,
            set_all(desc, cap, levels, entries),
            entry,
        ),
        set_all(desc, cap, levels, entries + more) == set_all(desc, cap, set_all(desc, cap, levels, entries), more),
    decreases more.len(),
{
    assert(seq![entry].drop_last() == Seq::<PriceAmount>::empty());
    assert(seq![entry].last() == entry);
    assert(entries.push(entry).drop_last() == entries);
    assert(entries.push(entry).last() == entry);
    if more.len() == 0 {
        assert(entries + more == entries);
    } else {
        law_set_all_applies_in_order(desc, cap, levels, entries, more.drop_last(), entry);
        assert((entries + more).drop_last() == entries + more.drop_last());
        assert((entries + more).last() == more.last());
    }
}

/// The band of depths `from` up to but not including `to` is exactly the
/// levels the side holds at those depths: `min(to, len) - from` of them in
/// their order, and none where that is not positive. The band that starts
/// at the top and ends before depth one is the best level alone.
pub proof fn law_band_is_the_levels_between(levels: Seq<PriceAmount>, from: int, to: int)
    requires
        0 <= from,
    ensures
        ({
            let reach = if to < levels.len() {
                to
            } else {
                levels.len() as int
            };
            &&& from < reach ==> band(levels, from, to).len() == reach - from
            &&& from >= reach ==> band(levels, from, to).len() == 0
            &&& forall|i: int|
                0 <= i < band(levels, from, to).len() ==> #[trigger] band(levels, from, to)[i] == levels[from + i]
        }),
        levels.len() > 0 ==> band(levels, 0, 1) == levels.take(1),
{
}

/// The imbalance at the touch weighs the best bid against the best ask and
/// nothing behind them: `(b - a) / (b + a)` over the amounts of those two
/// levels.
pub proof fn law_touch_imbalance_weighs_the_best_levels(bids: Seq<PriceAmount>, asks: Seq<PriceAmount>)
    requires
        resting(bids),
        resting(asks),
        bids.len() > 0,
        asks.len() > 0,
    ensures
        band_imbalance(bids, asks, 0, 1) == imbalance_raw(bids[0].amount.raw(), asks[0].amount.raw()),
{
    law_band_is_the_levels_between(bids, 0, 1);
    law_band_is_the_levels_between(asks, 0, 1);
    law_volume_grows_with_depth(bids, 0);
    law_volume_grows_with_depth(asks, 0);
}

// ---------------------------------------------------------------------------
// A side
// ---------------------------------------------------------------------------

/// One side of a level 2 book.
///
/// Levels are kept best first, descending for bids and ascending for asks.
#[derive(Debug)]
pub struct OrderBookSide {
    levels: Vec<PriceAmount>,
    desc: bool,
    max_depth: Option<usize>,
}

/// The levels of a side, best first.
impl View for OrderBookSide {
    type V = Seq<PriceAmount>;

    closed spec fn view(&self) -> Seq<PriceAmount> {
        self.levels@
    }
}

/// A copy holding the same levels under the same ordering and cap.
impl Clone for OrderBookSide {
    fn clone(&self) -> (c: OrderBookSide)
        ensures
            c@ == self@,
            c.is_bids() == self.is_bids(),
            c.cap() == self.cap(),
    {
        proof {
            use_type_invariant(self);
        }
        let levels = self.levels.clone();
        proof {
            assert(levels@ =~= self.levels@);
        }
        OrderBookSide { levels, desc: self.desc, max_depth: self.max_depth }
    }
}

impl OrderBookSide {
    #[verifier::type_invariant]
    spec fn well_formed(self) -> bool {
        side_shape(self.desc, self.levels@, self.max_depth)
    }

    /// Whether this is a bid side, ordered by descending price.
    pub closed spec fn is_bids(self) -> bool {
        self.desc
    }

    /// The level cap the side was built with.
    pub closed spec fn cap(self) -> Option<usize> {
        self.max_depth
    }

    /// An empty bid side, capped at `max_depth` levels or uncapped on `None`.
    pub fn bids(max_depth: Option<usize>) -> (side: OrderBookSide)
        ensures
            side@ == Seq::<PriceAmount>::empty(),
            side.is_bids(),
            side.cap() == max_depth,
    {
        OrderBookSide::new(true, max_depth)
    }

    /// An empty ask side, capped at `max_depth` levels or uncapped on `None`.
    pub fn asks(max_depth: Option<usize>) -> (side: OrderBookSide)
        ensures
            side@ == Seq::<PriceAmount>::empty(),
            !side.is_bids(),
            side.cap() == max_depth,
    {
        OrderBookSide::new(false, max_depth)
    }

    fn new(desc: bool, max_depth: Option<usize>) -> (side: OrderBookSide)
        ensures
            side@ == Seq::<PriceAmount>::empty(),
            side.is_bids() == desc,
            side.cap() == max_depth,
    {
        // the cap is a ceiling, not a forecast: a side capped at ten thousand
        // levels usually holds a handful, and `usize::MAX` is a legal cap
        // meaning no limit at all, so at most a modest block is reserved
        let capacity: usize = match max_depth {
            Some(depth) => if depth < 64 {
                depth
            } else {
                64
            },
            None => 64,
        };
        OrderBookSide { levels: Vec::with_capacity(capacity), desc, max_depth }
    }

    /// The number of levels held.
    pub fn len(&self) -> (n: usize)
        ensures
            n == self@.len(),
    {
        self.levels.len()
    }

    /// Whether the side holds no levels.
    pub fn is_empty(&self) -> (b: bool)
        ensures
            b == (self@.len() == 0),
    {
        self.levels.len() == 0
    }

    /// The level cap this side was built with, or `None` when uncapped.
    pub fn max_depth(&self) -> (d: Option<usize>)
        ensures
            d == self.cap(),
    {
        self.max_depth
    }

    /// Iterate every level, best first. The levels it yields are valid, rest
    /// at a positive amount, are strictly ordered best first and are no more
    /// than the cap.
    pub fn iter(&self) -> (it: std::slice::Iter<'_, PriceAmount>)
        ensures
            it.remaining() == self@.as_ref(),
            side_shape(self.is_bids(), self@, self.cap()),
    {
        proof {
            use_type_invariant(self);
        }
        self.levels.as_slice().iter()
    }

    /// The level at exactly `price`, if the side holds one. Keyed by price,
    /// where [`OrderBookSide::at`] is keyed by depth.
    pub fn find(&self, price: Dec) -> (r: Option<&PriceAmount>)
        ensures
            r == if held_at(self.is_bids(), self@, price.raw()) {
                Some(&self@[slot(self.is_bids(), self@, price.raw()) as int])
            } else {
                None
            },
    {
        match self.search(price) {
            Ok(index) => Some(&self.levels[index]),
            Err(_) => None,
        }
    }

    /// The best level: the highest bid, the lowest ask.
    pub fn best(&self) -> (r: Option<&PriceAmount>)
        ensures
            r == if self@.len() > 0 {
                Some(&self@[0])
            } else {
                None
            },
    {
        if self.levels.len() > 0 {
            Some(&self.levels[0])
        } else {
            None
        }
    }

    /// The price of the best level.
    pub fn best_price(&self) -> (r: Option<Dec>)
        ensures
            r == if self@.len() > 0 {
                Some(self@[0].price)
            } else {
                None
            },
    {
        match self.best() {
            Some(level) => Some(level.price),
            None => None,
        }
    }

    /// The worst level held, which is the deepest one, not the worst possible.
    pub fn worst(&self) -> (r: Option<&PriceAmount>)
        ensures
            r == if self@.len() > 0 {
                Some(&self@.last())
            } else {
                None
            },
    {
        let n = self.levels.len();
        if n > 0 {
            Some(&self.levels[n - 1])
        } else {
            None
        }
    }

    /// The price of the worst level held.
    pub fn worst_price(&self) -> (r: Option<Dec>)
        ensures
            r == if self@.len() > 0 {
                Some(self@.last().price)
            } else {
                None
            },
    {
        match self.worst() {
            Some(level) => Some(level.price),
            None => None,
        }
    }

    /// The n-th level from the best, counting from zero.
    pub fn at(&self, n: usize) -> (r: Option<&PriceAmount>)
        ensures
            r == if n < self@.len() {
                Some(&self@[n as int])
            } else {
                None
            },
    {
        if n < self.levels.len() {
            Some(&self.levels[n])
        } else {
            None
        }
    }

    /// The price of the n-th level from the best.
    pub fn price_at(&self, n: usize) -> (r: Option<Dec>)
        ensures
            r == if n < self@.len() {
                Some(self@[n as int].price)
            } else {
                None
            },
    {
        match self.at(n) {
            Some(level) => Some(level.price),
            None => None,
        }
    }

    /// Set a level, returning the amount it replaced. A zero amount removes
    /// it.
    ///
    /// A level failing [`PriceAmount::is_valid`] is rejected and the side left
    /// untouched. `None` therefore covers four cases: the level was inserted,
    /// it was rejected as invalid, it was refused for sitting past the cap, or
    /// a zero amount asked to remove a price that was absent. A new level that
    /// lands inside a full side evicts the worst level.
    pub fn set(&mut self, entry: PriceAmount) -> (r: Option<Dec>)
        ensures
            final(self).is_bids() == old(self).is_bids(),
            final(self).cap() == old(self).cap(),
            final(self)@ == set_levels(old(self).is_bids(), old(self).cap(), old(self)@, entry),
            r == set_reply(old(self).is_bids(), old(self)@, entry),
            side_shape(final(self).is_bids(), final(self)@, final(self).cap()),
    {
        proof {
            use_type_invariant(&*self);
        }
        if !entry.is_valid() {
            return None;
        }
        let ghost before = self.levels@;
        let ghost desc = self.desc;
        let ghost p = entry.price.raw();
        match self.search(entry.price) {
            Ok(index) => {
                let previous = self.levels[index].amount;
                let mut levels: Vec<PriceAmount> = Vec::new();
                std::mem::swap(&mut levels, &mut self.levels);
                if entry.amount.is_zero() {
                    levels.remove(index);
                    proof {
                        lemma_remove_keeps_shape(desc, before, index as int);
                    }
                } else {
                    levels.set(index, entry);
                    proof {
                        let next = levels@;
                        assert(next == before.update(index as int, entry));
                        assert forall|i: int, j: int| 0 <= i < j < next.len() implies ahead(desc, #[trigger] next[i].price.raw(), #[trigger] next[j].price.raw()) by {
                            assert(ahead(desc, before[i].price.raw(), before[j].price.raw()));
                        }
                    }
                }
                self.levels = levels;
                Some(previous)
            },
            Err(index) => {
                if entry.amount.is_zero() {
                    return None;
                }
                match self.max_depth {
                    Some(depth) => if index >= depth {
                        return None;
                    },
                    None => {},
                }
                let mut levels: Vec<PriceAmount> = Vec::new();
                std::mem::swap(&mut levels, &mut self.levels);
                proof {
                    assert forall|j: int| index <= j < before.len() implies ahead(desc, p, #[trigger] before[j].price.raw()) by {
                        assert(!ahead(desc, before[j].price.raw(), p));
                        if j > index {
                            assert(ahead(desc, before[index as int].price.raw(), before[j].price.raw()));
                        }
                    }
                    lemma_insert_keeps_order(desc, before, index as int, entry);
                }
                levels.insert(index, entry);
                let ghost inserted = levels@;
                proof {
                    assert forall|i: int| 0 <= i < inserted.len() implies #[trigger] inserted[i].valid() && inserted[i].amount.raw() > 0 by {
                        if i < index {
                            assert(inserted[i] == before[i]);
                        } else if i > index {
                            assert(inserted[i] == before[i - 1]);
                        }
                    }
                }
                match self.max_depth {
                    Some(depth) => {
                        levels.truncate(depth);
                        proof {
                            if depth <= inserted.len() {
                                lemma_take_keeps_shape(desc, inserted, depth as int);
                                assert(levels@ == inserted.take(depth as int));
                            }
                        }
                    },
                    None => {},
                }
                self.levels = levels;
                None
            },
        }
    }

    /// [`OrderBookSide::set`] taking the price and amount separately.
    pub fn set_price_amount(&mut self, price: Dec, amount: Dec) -> (r: Option<Dec>)
        ensures
            final(self).is_bids() == old(self).is_bids(),
            final(self).cap() == old(self).cap(),
            final(self)@ == set_levels(
                old(self).is_bids(),
                old(self).cap(),
                old(self)@,
                PriceAmount { price, amount },
            ),
            r == set_reply(old(self).is_bids(), old(self)@, PriceAmount { price, amount }),
            side_shape(final(self).is_bids(), final(self)@, final(self).cap()),
    {
        self.set(PriceAmount { price, amount })
    }

    /// Retain at most `depth` levels, dropping the worst ones beyond that.
    pub fn trim(&mut self, depth: usize)
        ensures
            final(self).is_bids() == old(self).is_bids(),
            final(self).cap() == old(self).cap(),
            final(self)@ == if old(self)@.len() <= depth {
                old(self)@
            } else {
                old(self)@.take(depth as int)
            },
            side_shape(final(self).is_bids(), final(self)@, final(self).cap()),
    {
        proof {
            use_type_invariant(&*self);
        }
        if self.levels.len() <= depth {
            return;
        }
        let ghost before = self.levels@;
        let mut levels: Vec<PriceAmount> = Vec::new();
        std::mem::swap(&mut levels, &mut self.levels);
        levels.truncate(depth);
        proof {
            lemma_take_keeps_shape(self.desc, before, depth as int);
            assert(levels@ == before.take(depth as int));
        }
        self.levels = levels;
    }

    /// Iterate the levels priced within `[low, high]`, best first: exactly
    /// those, and nothing when no level falls inside, `low` above `high`
    /// included.
    pub fn range(&self, low: Dec, high: Dec) -> (it: std::slice::Iter<'_, PriceAmount>)
        ensures
            ({
                let start = band_start(self.is_bids(), self@, low.raw(), high.raw());
                let end = band_end(self.is_bids(), self@, low.raw(), high.raw());
                it.remaining() == self@.subrange(
                    start,
                    if end < start {
                        start
                    } else {
                        end
                    },
                ).as_ref()
            }),
            forall|i: int|
                0 <= i < self@.len() ==> (band_start(self.is_bids(), self@, low.raw(), high.raw()) <= i
                    < band_end(self.is_bids(), self@, low.raw(), high.raw()) <==> low.raw()
                    <= #[trigger] self@[i].price.raw() <= high.raw()),
    {
        proof {
            use_type_invariant(self);
        }
        let ghost levels = self.levels@;
        let desc = self.desc;
        let (near, far) = if desc {
            (high, low)
        } else {
            (low, high)
        };
        let start = match self.search(near) {
            Ok(i) => i,
            Err(i) => i,
        };
        let end = match self.search(far) {
            Ok(i) => {
                proof {
                    assert(i < self.levels.len());
                }
                i + 1
            },
            Err(i) => i,
        };
        proof {
            let s = slot(desc, levels, far.raw()) as int;
            assert forall|j: int| 0 <= j < levels.len() implies (j < end <==> (ahead(desc, #[trigger] levels[j].price.raw(), far.raw()) || levels[j].price.raw() == far.raw())) by {
                if j >= s && j > 0 && j - 1 >= s && s < levels.len() {
                    assert(ahead(desc, levels[s].price.raw(), levels[j].price.raw()));
                    assert(!ahead(desc, levels[s].price.raw(), far.raw()));
                }
            }
        }
        // the two edges cross rather than meet when `low` sits above
        // `high`, and a backwards slice has no meaning
        let end = if end < start {
            start
        } else {
            end
        };
        let band = &self.levels.as_slice()[start..end];
        proof {
            assert(band@ == levels.subrange(start as int, end as int));
        }
        band.iter()
    }

    /// The total amount of the best `level` levels, or of every level where
    /// the side holds fewer; `None` when that takes no level at all.
    pub fn volume_at(&self, level: usize) -> (r: Option<Dec>)
        ensures
            r is Some <==> (level > 0 && self@.len() > 0),
            r matches Some(d) ==> d.raw() == volume(
                self@.take(
                    if level < self@.len() {
                        level as int
                    } else {
                        self@.len() as int
                    },
                ),
            ),
    {
        proof {
            use_type_invariant(self);
        }
        let count = if level < self.levels.len() {
            level
        } else {
            self.levels.len()
        };
        if count == 0 {
            return None;
        }
        let ghost levels = self.levels@;
        let mut total = self.levels[0].amount;
        proof {
            assert(levels.take(1).drop_last() == levels.take(0));
            assert(volume(levels.take(0)) == 0);
            assert(levels.take(1).last() == levels[0]);
            assert(levels[0].valid());
        }
        let mut index: usize = 1;
        while index < count
            invariant
                levels == self.levels@,
                1 <= index <= count <= levels.len(),
                total.raw() == volume(levels.take(index as int)),
            decreases count - index,
        {
            proof {
                assert(levels.take(index as int + 1).drop_last() == levels.take(index as int));
            }
            total = total + self.levels[index].amount;
            index = index + 1;
        }
        Some(total)
    }

    // The volume of the levels at depths `from` up to `to`, or `None` when
    // the side holds none of them.
    fn band_volume(&self, from: usize, to: usize) -> (r: Option<Dec>)
        ensures
            r is Some <==> band(self@, from as int, to as int).len() > 0,
            r matches Some(d) ==> d.raw() == volume(band(self@, from as int, to as int)),
            volume(band(self@, from as int, to as int)) == nan_raw() || volume(band(self@, from as int, to as int)) >= 0,
    {
        proof {
            use_type_invariant(self);
        }
        let ghost levels = self.levels@;
        let end = if to < self.levels.len() {
            to
        } else {
            self.levels.len()
        };
        if from >= end {
            return None;
        }
        let ghost span = band(levels, from as int, to as int);
        proof {
            assert(span == levels.subrange(from as int, end as int));
            assert(span.take(1).drop_last() == span.take(0));
            assert(volume(span.take(0)) == 0);
            assert(span.take(1).last() == levels[from as int]);
            assert(levels[from as int].valid());
        }
        let mut total = self.levels[from].amount;
        let mut index: usize = from + 1;
        while index < end
            invariant
                levels == self.levels@,
                resting(levels),
                from < index <= end <= levels.len(),
                span == levels.subrange(from as int, end as int),
                total.raw() == volume(span.take(index - from)),
                total.raw() == nan_raw() || total.raw() >= 0,
            decreases end - index,
        {
            proof {
                assert(span.take(index - from + 1).drop_last() == span.take(index - from));
                assert(span.take(index - from + 1).last() == levels[index as int]);
                assert(levels[index as int].valid());
            }
            total = total + self.levels[index].amount;
            index = index + 1;
        }
        proof {
            assert(span.take(end - from) == span);
        }
        Some(total)
    }

    // Binary search for `price`: `Ok` with its index where the side holds it,
    // `Err` with the index it would go in at otherwise. Either way the index
    // is its slot.
    fn search(&self, price: Dec) -> (r: Result<usize, usize>)
        ensures
            match r {
                Ok(i) => i == slot(self.is_bids(), self@, price.raw()) && held_at(
                    self.is_bids(),
                    self@,
                    price.raw(),
                ),
                Err(i) => i == slot(self.is_bids(), self@, price.raw()) && !held_at(
                    self.is_bids(),
                    self@,
                    price.raw(),
                ),
            },
            slot(self.is_bids(), self@, price.raw()) <= self@.len(),
            forall|j: int|
                0 <= j < slot(self.is_bids(), self@, price.raw()) ==> ahead(
                    self.is_bids(),
                    #[trigger] self@[j].price.raw(),
                    price.raw(),
                ),
            forall|j: int|
                slot(self.is_bids(), self@, price.raw()) <= j < self@.len() ==> !ahead(
                    self.is_bids(),
                    #[trigger] self@[j].price.raw(),
                    price.raw(),
                ),
    {
        proof {
            use_type_invariant(self);
        }
        let ghost levels = self.levels@;
        let ghost p = price.raw();
        let desc = self.desc;
        let mut lo: usize = 0;
        let mut hi: usize = self.levels.len();
        while lo < hi
            invariant
                levels == self.levels@,
                desc == self.desc,
                p == price.raw(),
                side_shape(desc, levels, self.max_depth),
                lo <= hi <= levels.len(),
                forall|j: int| 0 <= j < lo ==> ahead(desc, #[trigger] levels[j].price.raw(), p),
                forall|j: int| hi <= j < levels.len() ==> ahead(desc, p, #[trigger] levels[j].price.raw()),
            decreases hi - lo,
        {
            let mid = lo + (hi - lo) / 2;
            let level_price = self.levels[mid].price.0;
            if level_price == price.0 {
                proof {
                    assert forall|j: int| 0 <= j < mid implies ahead(desc, #[trigger] levels[j].price.raw(), p) by {
                        assert(ahead(desc, levels[j].price.raw(), levels[mid as int].price.raw()));
                    }
                    assert forall|j: int| mid <= j < levels.len() implies !ahead(desc, #[trigger] levels[j].price.raw(), p) by {
                        if j > mid {
                            assert(ahead(desc, levels[mid as int].price.raw(), levels[j].price.raw()));
                        }
                    }
                    lemma_slot_is(desc, levels, p, mid as int);
                }
                return Ok(mid);
            }
            let is_ahead = if desc {
                level_price > price.0
            } else {
                level_price < price.0
            };
            if is_ahead {
                proof {
                    assert forall|j: int| 0 <= j < mid + 1 implies ahead(desc, #[trigger] levels[j].price.raw(), p) by {
                        if j < mid {
                            assert(ahead(desc, levels[j].price.raw(), levels[mid as int].price.raw()));
                        }
                    }
                }
                lo = mid + 1;
            } else {
                proof {
                    assert forall|j: int| mid <= j < levels.len() implies ahead(desc, p, #[trigger] levels[j].price.raw()) by {
                        if j > mid {
                            assert(ahead(desc, levels[mid as int].price.raw(), levels[j].price.raw()));
                        }
                    }
                }
                hi = mid;
            }
        }
        proof {
            lemma_slot_is(desc, levels, p, lo as int);
        }
        Err(lo)
    }
}

} // verus!

verus! {

// ---------------------------------------------------------------------------
// The book
// ---------------------------------------------------------------------------

/// A level 2 order book: a bid side and an ask side.
#[derive(Debug)]
pub struct OrderBook {
    /// The bids side of the order book.
    pub bids: OrderBookSide,
    /// The asks side of the order book.
    pub asks: OrderBookSide,
}

/// The best bid and ask: the smallest snapshot of a book that still prices a
/// trade, and what a top-of-book feed carries.
#[derive(Clone, Copy, Debug, PartialEq, Eq, Structural)]
pub struct OrderBookTop {
    /// The best bid.
    pub bid: PriceAmount,
    /// The best ask.
    pub ask: PriceAmount,
}

/// A batch of level updates to apply to a book.
#[derive(Debug)]
pub struct OrderBookDiff {
    /// Bid levels to set.
    pub bids: Vec<PriceAmount>,
    /// Ask levels to set.
    pub asks: Vec<PriceAmount>,
}

/// A copy holding the same sides.
impl Clone for OrderBook {
    fn clone(&self) -> (c: OrderBook)
        ensures
            c.bids@ == self.bids@ && c.bids.is_bids() == self.bids.is_bids() && c.bids.cap() == self.bids.cap(),
            c.asks@ == self.asks@ && c.asks.is_bids() == self.asks.is_bids() && c.asks.cap() == self.asks.cap(),
    {
        OrderBook { bids: self.bids.clone(), asks: self.asks.clone() }
    }
}

/// A copy holding the same updates.
impl Clone for OrderBookDiff {
    fn clone(&self) -> (c: OrderBookDiff)
        ensures
            c.bids@ == self.bids@,
            c.asks@ == self.asks@,
    {
        let bids = self.bids.clone();
        let asks = self.asks.clone();
        proof {
            assert(bids@ =~= self.bids@);
            assert(asks@ =~= self.asks@);
        }
        OrderBookDiff { bids, asks }
    }
}

/// A top of zero prices and amounts.
impl Default for OrderBookTop {
    fn default() -> (top: OrderBookTop)
        ensures
            top.bid.price.raw() == 0 && top.bid.amount.raw() == 0,
            top.ask.price.raw() == 0 && top.ask.amount.raw() == 0,
    {
        OrderBookTop { bid: PriceAmount::default(), ask: PriceAmount::default() }
    }
}

/// A diff that sets nothing.
impl Default for OrderBookDiff {
    fn default() -> (diff: OrderBookDiff)
        ensures
            diff.bids@ == Seq::<PriceAmount>::empty(),
            diff.asks@ == Seq::<PriceAmount>::empty(),
    {
        OrderBookDiff { bids: Vec::new(), asks: Vec::new() }
    }
}

/// An empty, uncapped book.
impl Default for OrderBook {
    fn default() -> (book: OrderBook)
        ensures
            book.bids@ == Seq::<PriceAmount>::empty(),
            book.asks@ == Seq::<PriceAmount>::empty(),
            book.bids.is_bids(),
            !book.asks.is_bids(),
            book.bids.cap() == None::<usize>,
            book.asks.cap() == None::<usize>,
    {
        OrderBook::new(None)
    }
}

impl OrderBook {
    /// An empty book, each side capped at `max_depth` levels, or uncapped on
    /// `None`.
    pub fn new(max_depth: Option<usize>) -> (book: OrderBook)
        ensures
            book.bids@ == Seq::<PriceAmount>::empty(),
            book.asks@ == Seq::<PriceAmount>::empty(),
            book.bids.is_bids(),
            !book.asks.is_bids(),
            book.bids.cap() == max_depth,
            book.asks.cap() == max_depth,
    {
        OrderBook { bids: OrderBookSide::bids(max_depth), asks: OrderBookSide::asks(max_depth) }
    }

    /// The level cap of the bid side, the one both sides are built with.
    pub fn max_depth(&self) -> (d: Option<usize>)
        ensures
            d == self.bids.cap(),
    {
        self.bids.max_depth()
    }

    /// The price halfway between the best bid and the best ask, a half unit
    /// in the last place rounding towards zero, or `None` if either side is
    /// empty. It lies between the two.
    pub fn mid_price(&self) -> (r: Option<Dec>)
        ensures
            r is Some <==> (self.bids@.len() > 0 && self.asks@.len() > 0),
            r matches Some(d) ==> {
                let (bid, ask) = (self.bids@[0].price.raw(), self.asks@[0].price.raw());
                &&& d.raw() == trunc_div(bid + ask, 2)
                &&& (bid <= d.raw() <= ask || ask <= d.raw() <= bid)
            },
    {
        proof {
            use_type_invariant(&self.bids);
            use_type_invariant(&self.asks);
        }
        match (self.bids.best_price(), self.asks.best_price()) {
            (Some(bid), Some(ask)) => {
                proof {
                    assert(self.bids@[0].valid());
                    assert(self.asks@[0].valid());
                }
                Some(bid.midpoint(ask))
            },
            _ => None,
        }
    }

    /// The best ask less the best bid, or `None` if either side is empty.
    /// Negative when the book is crossed, which a feed can produce.
    pub fn spread(&self) -> (r: Option<Dec>)
        ensures
            r is Some <==> (self.bids@.len() > 0 && self.asks@.len() > 0),
            r matches Some(d) ==> d.raw() == raw_difference(
                self.asks@[0].price.raw(),
                self.bids@[0].price.raw(),
            ),
    {
        match (self.bids.best_price(), self.asks.best_price()) {
            (Some(bid), Some(ask)) => Some(ask - bid),
            _ => None,
        }
    }

    /// Set every level in `diff`, bids on the bid side and asks on the ask
    /// side, each in turn as [`OrderBookSide::set`] does.
    pub fn apply_diff(&mut self, diff: &OrderBookDiff)
        ensures
            final(self).bids@ == set_all(old(self).bids.is_bids(), old(self).bids.cap(), old(self).bids@, diff.bids@),
            final(self).asks@ == set_all(old(self).asks.is_bids(), old(self).asks.cap(), old(self).asks@, diff.asks@),
            final(self).bids.is_bids() == old(self).bids.is_bids(),
            final(self).asks.is_bids() == old(self).asks.is_bids(),
            final(self).bids.cap() == old(self).bids.cap(),
            final(self).asks.cap() == old(self).asks.cap(),
    {
        let ghost bids0 = self.bids@;
        let ghost asks0 = self.asks@;
        let mut index: usize = 0;
        while index < diff.bids.len()
            invariant
                index <= diff.bids@.len(),
                self.bids@ == set_all(old(self).bids.is_bids(), old(self).bids.cap(), bids0, diff.bids@.take(index as int)),
                self.bids.is_bids() == old(self).bids.is_bids(),
                self.bids.cap() == old(self).bids.cap(),
                self.asks@ == asks0,
                self.asks.is_bids() == old(self).asks.is_bids(),
                self.asks.cap() == old(self).asks.cap(),
                bids0 == old(self).bids@,
                asks0 == old(self).asks@,
            decreases diff.bids@.len() - index,
        {
            proof {
                assert(diff.bids@.take(index as int + 1).drop_last() == diff.bids@.take(index as int));
            }
            self.bids.set(diff.bids[index]);
            index = index + 1;
        }
        proof {
            assert(diff.bids@.take(diff.bids@.len() as int) == diff.bids@);
        }
        let mut index: usize = 0;
        while index < diff.asks.len()
            invariant
                index <= diff.asks@.len(),
                self.asks@ == set_all(old(self).asks.is_bids(), old(self).asks.cap(), asks0, diff.asks@.take(index as int)),
                self.asks.is_bids() == old(self).asks.is_bids(),
                self.asks.cap() == old(self).asks.cap(),
                self.bids@ == set_all(old(self).bids.is_bids(), old(self).bids.cap(), bids0, diff.bids@),
                self.bids.is_bids() == old(self).bids.is_bids(),
                self.bids.cap() == old(self).bids.cap(),
                asks0 == old(self).asks@,
            decreases diff.asks@.len() - index,
        {
            proof {
                assert(diff.asks@.take(index as int + 1).drop_last() == diff.asks@.take(index as int));
            }
            self.asks.set(diff.asks[index]);
            index = index + 1;
        }
        proof {
            assert(diff.asks@.take(diff.asks@.len() as int) == diff.asks@);
        }
    }
    /// `(bid - ask) / (bid + ask)` over the volumes at depths `from` up to
    /// but not including `to`, in `[-1, 1]` and of the sign of the heavier
    /// side. `None` for an empty or inverted band, where either side holds
    /// no level inside it, or where the volumes leave the finite range.
    pub fn range_imbalance(&self, from: usize, to: usize) -> (r: Option<Dec>)
        ensures
            r is Some <==> band_imbalance(self.bids@, self.asks@, from as int, to as int) is Some,
            r matches Some(d) ==> {
                let bid = volume(band(self.bids@, from as int, to as int));
                let ask = volume(band(self.asks@, from as int, to as int));
                &&& band_imbalance(self.bids@, self.asks@, from as int, to as int) == Some(d.raw())
                &&& -one_raw() <= d.raw() <= one_raw()
                &&& (d.raw() > 0 ==> bid > ask)
                &&& (d.raw() < 0 ==> bid < ask)
                &&& (bid == ask ==> d.raw() == 0)
            },
    {
        let bid = match self.bids.band_volume(from, to) {
            Some(volume) => volume,
            None => return None,
        };
        let ask = match self.asks.band_volume(from, to) {
            Some(volume) => volume,
            None => return None,
        };
        let total = match bid.checked_add(ask) {
            Some(total) => total,
            None => return None,
        };
        let difference = match bid.checked_sub(ask) {
            Some(difference) => difference,
            None => return None,
        };
        let r = difference.checked_div(total);
        proof {
            if r is Some {
                lemma_imbalance_bounds(bid.raw(), ask.raw());
            }
        }
        r
    }

    /// The imbalance at the touch: [`OrderBook::range_imbalance`] over the
    /// best level of each side.
    pub fn imbalance(&self) -> (r: Option<Dec>)
        ensures
            r is Some <==> band_imbalance(self.bids@, self.asks@, 0, 1) is Some,
            r matches Some(d) ==> band_imbalance(self.bids@, self.asks@, 0, 1) == Some(d.raw()) && -one_raw()
                <= d.raw() <= one_raw(),
    {
        self.range_imbalance(0, 1)
    }

    /// Whether the book is one that `set` could have built: the bid side in
    /// the bid slot, the ask side in the ask slot, and the best bid below the
    /// best ask where both sides hold a level. Each side's levels are valid,
    /// ordered and unique at all times.
    pub fn is_consistent(&self) -> (b: bool)
        ensures
            b == (self.bids.is_bids() && !self.asks.is_bids() && (self.bids@.len() > 0 && self.asks@.len() > 0
                ==> self.bids@[0].price.raw() < self.asks@[0].price.raw())),
            side_shape(self.bids.is_bids(), self.bids@, self.bids.cap()),
            side_shape(self.asks.is_bids(), self.asks@, self.asks.cap()),
    {
        proof {
            use_type_invariant(&self.bids);
            use_type_invariant(&self.asks);
        }
        if !self.bids.desc || self.asks.desc {
            return false;
        }
        match (self.bids.best_price(), self.asks.best_price()) {
            (Some(bid), Some(ask)) => bid.0 < ask.0,
            _ => true,
        }
    }
}

proof fn lemma_imbalance_bounds(bid: int, ask: int)
    requires
        bid >= 0,
        ask >= 0,
        bid + ask > 0,
    ensures
        ({
            let q = if bid - ask < 0 {
                -round_half_up(abs_int(bid - ask) * one_raw(), bid + ask)
            } else {
                round_half_up(abs_int(bid - ask) * one_raw(), bid + ask)
            };
            &&& -one_raw() <= q <= one_raw()
            &&& (q > 0 ==> bid > ask)
            &&& (q < 0 ==> bid < ask)
            &&& (bid == ask ==> q == 0)
        }),
{
    let n = abs_int(bid - ask) * one_raw();
    let d = bid + ask;
    assert(n <= d * one_raw()) by (nonlinear_arith)
        requires
            n == abs_int(bid - ask) * one_raw(),
            abs_int(bid - ask) <= d,
            one_raw() > 0,
    ;
    assert(0 <= n % d < d && n / d >= 0) by (nonlinear_arith)
        requires
            d > 0,
            n >= 0,
    ;
    assert(n / d <= one_raw()) by (nonlinear_arith)
        requires
            n <= d * one_raw(),
            d > 0,
            n >= 0,
    ;
    let m = round_half_up(n, d);
    if n / d == one_raw() {
        assert(n % d == 0) by (nonlinear_arith)
            requires
                n <= d * one_raw(),
                n / d == one_raw(),
                d > 0,
                n >= 0,
        ;
        assert(m == one_raw());
    } else {
        assert(m <= one_raw());
    }
    assert(0 <= m <= one_raw());
    if bid == ask {
        assert(n == 0);
        assert(n / d == 0 && n % d == 0) by (nonlinear_arith)
            requires
                n == 0,
                d > 0,
        ;
        assert(m == 0);
    }
}

/// A book holding the top's bid and ask, each set as
/// [`OrderBookSide::set`] does on an empty, uncapped side.
impl From<OrderBookTop> for OrderBook {
    fn from(top: OrderBookTop) -> (book: OrderBook)
        ensures
            book.bids@ == set_levels(true, None, Seq::<PriceAmount>::empty(), top.bid),
            book.asks@ == set_levels(false, None, Seq::<PriceAmount>::empty(), top.ask),
            book.bids.is_bids(),
            !book.asks.is_bids(),
            book.bids.cap() == None::<usize>,
            book.asks.cap() == None::<usize>,
    {
        let mut book = OrderBook::default();
        book.bids.set(top.bid);
        book.asks.set(top.ask);
        book
    }
}

// A book holds its levels in a `Vec`, and two vectors with the same contents
// cannot be proved the same value, so no single book is named as the result:
// what `from` gives is stated over the views of its sides, above.
impl FromSpecImpl<OrderBookTop> for OrderBook {
    open spec fn obeys_from_spec() -> bool {
        false
    }

    closed spec fn from_spec(top: OrderBookTop) -> OrderBook {
        vstd::pervasive::arbitrary()
    }
}

} // verus!
