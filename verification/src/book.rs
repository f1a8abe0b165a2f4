//! The synchronizer's working book: both sides plus delta application.

use vstd::prelude::*;

use crate::dec::{sub_result, Dec};
use crate::side::{apply_changes, find_level, lemma_remove_absent, BookSide, Level2};

verus! {

/// The spread of a book: best (lowest) ask price minus best (highest) bid
/// price, or nothing when either side is empty or the difference does not
/// fit a canonical decimal.
pub open spec fn spread_spec(asks: Seq<Level2>, bids: Seq<Level2>) -> Option<Dec> {
    if asks.len() == 0 || bids.len() == 0 {
        None
    } else {
        sub_result(asks[0].0, bids[bids.len() - 1].0)
    }
}

/// A local order book for one exchange and symbol.
#[derive(Clone, Debug, PartialEq, Eq)]
pub struct Book {
    pub bids: BookSide,
    pub asks: BookSide,
}

impl Book {
    pub open spec fn wf(&self) -> bool {
        self.bids.wf() && self.asks.wf()
    }

    /// An empty book.
    pub fn new() -> (r: Book)
        ensures
            r.wf(),
            r.bids@.len() == 0,
            r.asks@.len() == 0,
    {
        Book { bids: BookSide::new(), asks: BookSide::new() }
    }

    /// Apply one delta's change sets: an entry with volume zero removes
    /// the price level if present, any other entry sets that price to the
    /// entry's absolute volume, overwriting an existing value.
    pub fn update_book(&mut self, ask_changes: &BookSide, bid_changes: &BookSide)
        requires
            old(self).wf(),
            ask_changes.wf(),
            bid_changes.wf(),
        ensures
            final(self).wf(),
            final(self).asks@ == apply_changes(old(self).asks@, ask_changes@),
            final(self).bids@ == apply_changes(old(self).bids@, bid_changes@),
    {
        apply_side(&mut self.asks, ask_changes);
        apply_side(&mut self.bids, bid_changes);
    }

    /// Best ask minus best bid.
    pub fn get_spread(&self) -> (r: Option<Dec>)
        requires
            self.wf(),
        ensures
            r == spread_spec(self.asks@, self.bids@),
    {
        let best_ask = self.asks.lowest();
        let best_bid = self.bids.highest();
        match (best_ask, best_bid) {
            (Some(a), Some(b)) => a.0.checked_sub(&b.0),
            _ => None,
        }
    }
}

/// Apply a change set to one side, entry by entry in order.
pub fn apply_side(side: &mut BookSide, changes: &BookSide)
    requires
        old(side).wf(),
        changes.wf(),
    ensures
        final(side).wf(),
        final(side)@ == apply_changes(old(side)@, changes@),
{
    let n = changes.len();
    let mut i: usize = 0;
    while i < n
        invariant
            i <= n == changes@.len(),
            changes.wf(),
            side.wf(),
            side@ == apply_changes(old(side)@, changes@.take(i as int)),
        decreases n - i,
    {
        let (p, v) = changes.level_at(i);
        proof {
            assert(changes@.take(i + 1).drop_last() =~= changes@.take(i as int));
            assert(changes@.take(i + 1).last() == changes@[i as int]);
        }
        if v.mantissa == 0 {
            side.remove(p);
        } else {
            side.set(p, v);
        }
        i = i + 1;
    }
    proof {
        assert(changes@.take(n as int) =~= changes@);
    }
}

/// Applying a change set whose entries are all zero-volume removals of
/// absent prices leaves the side exactly as it was.
pub proof fn lemma_noop_removals_leave_side(side: Seq<Level2>, changes: Seq<Level2>)
    requires
        forall|i: int|
            0 <= i < changes.len() ==> (#[trigger] changes[i]).1.is_zero() && find_level(
                side,
                changes[i].0,
            ) is None,
    ensures
        apply_changes(side, changes) == side,
    decreases changes.len(),
{
    if changes.len() > 0 {
        let rest = changes.drop_last();
        assert(forall|i: int|
            0 <= i < rest.len() ==> rest[i] == #[trigger] changes[i] && changes[i]
                == changes[i]);
        lemma_noop_removals_leave_side(side, rest);
        let c = changes.last();
        lemma_remove_absent(side, c.0);
    }
}

} // verus!
