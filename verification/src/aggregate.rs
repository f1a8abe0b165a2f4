//! The cross-exchange aggregation engine: one slot per exchange holding
//! that exchange's most recent book, and ranked top-of-book views over
//! all slots.
//!
//! Levels at the same price from different exchanges stay separate
//! entries, each tagged with its venue; volumes are never merged.

use vstd::prelude::*;

use crate::dec::{sub_result, Dec};
use crate::side::Level2;
use crate::types::{Exchange, SnapshotData};

verus! {

use vstd::multiset::Multiset;

/// One ranked price level, tagged with the venue that offers it.
#[derive(Clone, Copy, Debug, PartialEq, Eq, Structural)]
pub struct Level {
    pub exchange: Exchange,
    pub price: Dec,
    pub volume: Dec,
}

impl Level {
    pub fn new(exchange: Exchange, price: Dec, volume: Dec) -> (r: Level)
        ensures
            r == (Level { exchange, price, volume }),
    {
        Level { exchange, price, volume }
    }
}

/// A book side tagged with its venue, as ranked levels.
pub open spec fn side_levels(e: Exchange, s: Seq<Level2>) -> Seq<Level> {
    s.map_values(|l: Level2| Level { exchange: e, price: l.0, volume: l.1 })
}

/// Every ask level of every slot, in slot order.
pub open spec fn flatten_asks(bs: Seq<SnapshotData>) -> Seq<Level>
    decreases bs.len(),
{
    if bs.len() == 0 {
        Seq::empty()
    } else {
        flatten_asks(bs.drop_last()) + side_levels(bs.last().exchange, bs.last().ask_to_update@)
    }
}

/// Every bid level of every slot, in slot order.
pub open spec fn flatten_bids(bs: Seq<SnapshotData>) -> Seq<Level>
    decreases bs.len(),
{
    if bs.len() == 0 {
        Seq::empty()
    } else {
        flatten_bids(bs.drop_last()) + side_levels(bs.last().exchange, bs.last().bid_to_update@)
    }
}

/// Stable insertion by ascending price: the new level goes after every
/// level whose price is less than or equal to its own.
pub open spec fn insert_asc(s: Seq<Level>, x: Level) -> Seq<Level>
    decreases s.len(),
{
    if s.len() == 0 {
        seq![x]
    } else if s[0].price.le_spec(x.price) {
        seq![s[0]] + insert_asc(s.drop_first(), x)
    } else {
        seq![x] + s
    }
}

/// Stable sort by ascending price.
pub open spec fn sort_asc(s: Seq<Level>) -> Seq<Level>
    decreases s.len(),
{
    if s.len() == 0 {
        s
    } else {
        insert_asc(sort_asc(s.drop_last()), s.last())
    }
}

/// Stable insertion by descending price.
pub open spec fn insert_desc(s: Seq<Level>, x: Level) -> Seq<Level>
    decreases s.len(),
{
    if s.len() == 0 {
        seq![x]
    } else if x.price.le_spec(s[0].price) {
        seq![s[0]] + insert_desc(s.drop_first(), x)
    } else {
        seq![x] + s
    }
}

/// Stable sort by descending price.
pub open spec fn sort_desc(s: Seq<Level>) -> Seq<Level>
    decreases s.len(),
{
    if s.len() == 0 {
        s
    } else {
        insert_desc(sort_desc(s.drop_last()), s.last())
    }
}

/// The first `n` entries of the ranked ask view.
pub open spec fn top_asks_spec(bs: Seq<SnapshotData>, n: int) -> Seq<Level> {
    let sorted = sort_asc(flatten_asks(bs));
    sorted.take(if n <= sorted.len() {
        n
    } else {
        sorted.len() as int
    })
}

/// The first `n` entries of the ranked bid view.
pub open spec fn top_bids_spec(bs: Seq<SnapshotData>, n: int) -> Seq<Level> {
    let sorted = sort_desc(flatten_bids(bs));
    sorted.take(if n <= sorted.len() {
        n
    } else {
        sorted.len() as int
    })
}

/// Best ask price minus best bid price over all slots, or nothing when
/// either view is empty or the difference does not fit a canonical
/// decimal.
pub open spec fn agg_spread_spec(bs: Seq<SnapshotData>) -> Option<Dec> {
    if flatten_asks(bs).len() == 0 || flatten_bids(bs).len() == 0 {
        None
    } else {
        sub_result(sort_asc(flatten_asks(bs))[0].price, sort_desc(flatten_bids(bs))[0].price)
    }
}

/// The slot list with any slot of `e` removed.
pub open spec fn remove_slot(bs: Seq<SnapshotData>, e: Exchange) -> Seq<SnapshotData>
    decreases bs.len(),
{
    if bs.len() == 0 {
        bs
    } else if bs[0].exchange == e {
        bs.drop_first()
    } else {
        seq![bs[0]] + remove_slot(bs.drop_first(), e)
    }
}

/// The aggregator's process-wide state: one slot per exchange.
#[derive(Clone, Debug, PartialEq, Eq)]
pub struct AggregatedBook {
    books: Vec<SnapshotData>,
}

impl View for AggregatedBook {
    type V = Seq<SnapshotData>;

    closed spec fn view(&self) -> Seq<SnapshotData> {
        self.books@
    }
}

impl AggregatedBook {
    /// Books are well formed and exchanges pairwise distinct: one slot
    /// per exchange.
    pub open spec fn wf(&self) -> bool {
        &&& forall|i: int| 0 <= i < self@.len() ==> (#[trigger] self@[i]).wf()
        &&& forall|i: int, j: int|
            0 <= i < j < self@.len() ==> (#[trigger] self@[i]).exchange != (
            #[trigger] self@[j]).exchange
    }

    /// An aggregator with no slots.
    pub fn new() -> (r: AggregatedBook)
        ensures
            r.wf(),
            r@ == Seq::<SnapshotData>::empty(),
    {
        let books: Vec<SnapshotData> = Vec::new();
        proof {
            assert(books@ =~= Seq::<SnapshotData>::empty());
        }
        AggregatedBook { books }
    }

    /// Replace the slot of the snapshot's exchange wholesale; old and new
    /// state for that exchange are never merged.
    pub fn update_book(&mut self, snapshot_data: SnapshotData)
        requires
            old(self).wf(),
            snapshot_data.wf(),
        ensures
            final(self).wf(),
            final(self)@ == remove_slot(old(self)@, snapshot_data.exchange).push(snapshot_data),
    {
        self.remove_book_inner(snapshot_data.exchange);
        self.books.push(snapshot_data);
    }

    /// Drop the slot of the snapshot's exchange, if present.
    pub fn remove_book(&mut self, snapshot_data: SnapshotData)
        requires
            old(self).wf(),
        ensures
            final(self).wf(),
            final(self)@ == remove_slot(old(self)@, snapshot_data.exchange),
    {
        self.remove_book_inner(snapshot_data.exchange);
    }

    fn remove_book_inner(&mut self, e: Exchange)
        requires
            old(self).wf(),
        ensures
            final(self).wf(),
            final(self)@ == remove_slot(old(self)@, e),
            forall|i: int| 0 <= i < final(self)@.len() ==> (#[trigger] final(self)@[i]).exchange != e,
    {
        let ghost s0 = self@;
        let n = self.books.len();
        let mut i: usize = 0;
        while i < n
            invariant
                i <= n == s0.len(),
                self@ == s0,
                s0 == old(self)@,
                old(self).wf(),
                forall|k: int| 0 <= k < i ==> (#[trigger] s0[k]).exchange != e,
            decreases n - i,
        {
            if self.books[i].exchange == e {
                proof {
                    lemma_remove_slot_at(s0, e, i as int);
                }
                self.books.remove(i);
                proof {
                    s0.remove_ensures(i as int);
                    assert(self@ =~= s0.remove(i as int));
                    assert forall|a: int, b: int| 0 <= a < b < self@.len() implies (
                    #[trigger] self@[a]).exchange != (#[trigger] self@[b]).exchange by {
                        let a0: int = if a < i {
                            a
                        } else {
                            a + 1
                        };
                        let b0: int = if b < i {
                            b
                        } else {
                            b + 1
                        };
                        assert(self@[a] == s0[a0] && self@[b] == s0[b0]);
                    }
                    assert forall|k: int| 0 <= k < self@.len() implies (
                    #[trigger] self@[k]).exchange != e by {
                        if k >= i {
                            assert(self@[k] == s0[k + 1]);
                            assert(s0[i as int].exchange == e);
                        }
                    }
                }
                return ;
            }
            i = i + 1;
        }
        proof {
            lemma_remove_slot_at(s0, e, n as int);
        }
    }
}

impl AggregatedBook {
    /// The ranked ask view: every ask level of every slot, tagged with
    /// its venue, sorted by ascending price (ties keep slot order), cut
    /// to the first `top_num` entries.
    pub fn get_top_asks(&self, top_num: usize) -> (r: Vec<Level>)
        requires
            self.wf(),
        ensures
            r@ == top_asks_spec(self@, top_num as int),
    {
        let flat = self.flatten(true);
        sort_take(flat, true, top_num)
    }

    /// The ranked bid view: every bid level of every slot, tagged with
    /// its venue, sorted by descending price (ties keep slot order), cut
    /// to the first `top_num` entries.
    pub fn get_top_bids(&self, top_num: usize) -> (r: Vec<Level>)
        requires
            self.wf(),
        ensures
            r@ == top_bids_spec(self@, top_num as int),
    {
        let flat = self.flatten(false);
        sort_take(flat, false, top_num)
    }

    /// All levels of one side of every slot, in slot order.
    fn flatten(&self, asks: bool) -> (r: Vec<Level>)
        requires
            self.wf(),
        ensures
            r@ == if asks {
                flatten_asks(self@)
            } else {
                flatten_bids(self@)
            },
            forall|i: int|
                0 <= i < r@.len() ==> (#[trigger] r@[i]).price.wf() && r@[i].volume.wf(),
    {
        let ghost bs = self@;
        let mut flat: Vec<Level> = Vec::new();
        let nb = self.books.len();
        let mut bi: usize = 0;
        proof {
            assert(bs.take(0) =~= Seq::<SnapshotData>::empty());
        }
        while bi < nb
            invariant
                bi <= nb == bs.len(),
                self@ == bs,
                self.wf(),
                flat@ == if asks {
                    flatten_asks(bs.take(bi as int))
                } else {
                    flatten_bids(bs.take(bi as int))
                },
                forall|i: int|
                    0 <= i < flat@.len() ==> (#[trigger] flat@[i]).price.wf()
                        && flat@[i].volume.wf(),
            decreases nb - bi,
        {
            let e = self.books[bi].exchange;
            let side = if asks {
                &self.books[bi].ask_to_update
            } else {
                &self.books[bi].bid_to_update
            };
            let ghost sv = side@;
            let ghost flat0 = flat@;
            let m = side.len();
            let mut li: usize = 0;
            proof {
                assert(side_levels(e, sv.take(0)) =~= Seq::<Level>::empty());
                assert(flat@ =~= flat0 + side_levels(e, sv.take(0)));
            }
            while li < m
                invariant
                    li <= m == sv.len(),
                    side@ == sv,
                    side.wf(),
                    flat@ == flat0 + side_levels(e, sv.take(li as int)),
                    forall|i: int|
                        0 <= i < flat0.len() ==> (#[trigger] flat0[i]).price.wf()
                            && flat0[i].volume.wf(),
                decreases m - li,
            {
                let l = side.level_at(li);
                flat.push(Level { exchange: e, price: l.0, volume: l.1 });
                proof {
                    assert(side_levels(e, sv.take(li + 1)) =~= side_levels(
                        e,
                        sv.take(li as int),
                    ).push(Level { exchange: e, price: sv[li as int].0, volume: sv[li as int].1 }));
                    assert(flat@ =~= flat0 + side_levels(e, sv.take(li + 1)));
                }
                li = li + 1;
            }
            proof {
                assert(sv.take(m as int) =~= sv);
                assert(bs.take(bi + 1).drop_last() =~= bs.take(bi as int));
                assert(bs.take(bi + 1).last() == bs[bi as int]);
            }
            bi = bi + 1;
        }
        proof {
            assert(bs.take(nb as int) =~= bs);
        }
        flat
    }
}

/// Insert each level of `flat` in order, stably, by ascending price when
/// `asc` and descending price otherwise, and keep the first `top_num`.
fn sort_take(flat: Vec<Level>, asc: bool, top_num: usize) -> (r: Vec<Level>)
    requires
        forall|i: int|
            0 <= i < flat@.len() ==> (#[trigger] flat@[i]).price.wf() && flat@[i].volume.wf(),
    ensures
        ({
            let sorted = if asc {
                sort_asc(flat@)
            } else {
                sort_desc(flat@)
            };
            r@ == sorted.take(
                if top_num as int <= sorted.len() {
                    top_num as int
                } else {
                    sorted.len() as int
                },
            )
        }),
{
    let ghost fv = flat@;
    let n = flat.len();
    let mut out: Vec<Level> = Vec::new();
    let mut k: usize = 0;
    proof {
        assert(fv.take(0) =~= Seq::<Level>::empty());
        if asc {
            assert(out@ =~= sort_asc(fv.take(0)));
        } else {
            assert(out@ =~= sort_desc(fv.take(0)));
        }
    }
    while k < n
        invariant
            k <= n == fv.len(),
            flat@ == fv,
            forall|i: int|
                0 <= i < fv.len() ==> (#[trigger] fv[i]).price.wf() && fv[i].volume.wf(),
            out@ == if asc {
                sort_asc(fv.take(k as int))
            } else {
                sort_desc(fv.take(k as int))
            },
            out@.len() == k,
            forall|i: int| 0 <= i < out@.len() ==> (#[trigger] out@[i]).price.wf(),
        decreases n - k,
    {
        let x = flat[k];
        let ghost out0 = out@;
        let olen = out.len();
        let mut j: usize = 0;
        while j < olen && scan_on(asc, &out[j].price, &x.price)
            invariant
                j <= olen == out0.len(),
                out@ == out0,
                x.price.wf(),
                forall|i: int| 0 <= i < out0.len() ==> (#[trigger] out0[i]).price.wf(),
                asc ==> forall|i: int|
                    0 <= i < j ==> (#[trigger] out0[i]).price.le_spec(x.price),
                !asc ==> forall|i: int|
                    0 <= i < j ==> x.price.le_spec((#[trigger] out0[i]).price),
            decreases olen - j,
        {
            j = j + 1;
        }
        proof {
            if asc {
                lemma_insert_asc_at(out0, x, j as int);
            } else {
                lemma_insert_desc_at(out0, x, j as int);
            }
        }
        out.insert(j, x);
        proof {
            out0.insert_ensures(j as int, x);
            assert(out@ =~= out0.insert(j as int, x));
            assert(fv.take(k + 1).drop_last() =~= fv.take(k as int));
            assert(fv.take(k + 1).last() == fv[k as int]);
        }
        k = k + 1;
    }
    proof {
        assert(fv.take(n as int) =~= fv);
    }
    if top_num < out.len() {
        out.truncate(top_num);
    }
    proof {
        let sorted = if asc {
            sort_asc(fv)
        } else {
            sort_desc(fv)
        };
        if (top_num as int) < sorted.len() {
            assert(out@ =~= sorted.take(top_num as int));
        } else {
            assert(out@ =~= sorted.take(sorted.len() as int));
        }
    }
    out
}

/// Whether the insertion scan walks past an existing level: by ascending
/// price when `asc`, by descending price otherwise; equal prices are
/// always walked past, which keeps the sort stable.
fn scan_on(asc: bool, existing: &Dec, new: &Dec) -> (r: bool)
    requires
        existing.wf(),
        new.wf(),
    ensures
        r == (if asc {
            existing.le_spec(*new)
        } else {
            new.le_spec(*existing)
        }),
{
    if asc {
        existing.le(new)
    } else {
        new.le(existing)
    }
}

/// Where the scan stops determines what `insert_asc` produces.
proof fn lemma_insert_asc_at(s: Seq<Level>, x: Level, i: int)
    requires
        0 <= i <= s.len(),
        forall|k: int| 0 <= k < i ==> (#[trigger] s[k]).price.le_spec(x.price),
        i < s.len() ==> !s[i].price.le_spec(x.price),
    ensures
        insert_asc(s, x) == s.insert(i, x),
    decreases i,
{
    if i == 0 {
        if s.len() == 0 {
            assert(insert_asc(s, x) =~= s.insert(0, x));
        } else {
            assert(insert_asc(s, x) =~= s.insert(0, x));
        }
    } else {
        let t = s.drop_first();
        assert(forall|k: int| 0 <= k < i - 1 ==> (#[trigger] t[k]).price.le_spec(x.price));
        lemma_insert_asc_at(t, x, i - 1);
        s.insert_ensures(i, x);
        assert(insert_asc(s, x) =~= s.insert(i, x));
    }
}

/// Where the scan stops determines what `insert_desc` produces.
proof fn lemma_insert_desc_at(s: Seq<Level>, x: Level, i: int)
    requires
        0 <= i <= s.len(),
        forall|k: int| 0 <= k < i ==> x.price.le_spec((#[trigger] s[k]).price),
        i < s.len() ==> !x.price.le_spec(s[i].price),
    ensures
        insert_desc(s, x) == s.insert(i, x),
    decreases i,
{
    if i == 0 {
        assert(insert_desc(s, x) =~= s.insert(0, x));
    } else {
        let t = s.drop_first();
        assert(forall|k: int| 0 <= k < i - 1 ==> x.price.le_spec((#[trigger] t[k]).price));
        lemma_insert_desc_at(t, x, i - 1);
        s.insert_ensures(i, x);
        assert(insert_desc(s, x) =~= s.insert(i, x));
    }
}

/// Insertion grows the length by one.
pub proof fn lemma_insert_asc_len(s: Seq<Level>, x: Level)
    ensures
        insert_asc(s, x).len() == s.len() + 1,
        insert_desc(s, x).len() == s.len() + 1,
    decreases s.len(),
{
    if s.len() > 0 {
        lemma_insert_asc_len(s.drop_first(), x);
    }
}

/// Sorting keeps the length.
pub proof fn lemma_sort_len(s: Seq<Level>)
    ensures
        sort_asc(s).len() == s.len(),
        sort_desc(s).len() == s.len(),
    decreases s.len(),
{
    if s.len() > 0 {
        lemma_sort_len(s.drop_last());
        lemma_insert_asc_len(sort_asc(s.drop_last()), s.last());
        lemma_insert_asc_len(sort_desc(s.drop_last()), s.last());
    }
}

/// A property of every element survives insertion.
pub proof fn lemma_insert_all(s: Seq<Level>, x: Level, p: spec_fn(Level) -> bool)
    requires
        forall|i: int| 0 <= i < s.len() ==> p(#[trigger] s[i]),
        p(x),
    ensures
        forall|i: int| 0 <= i < insert_asc(s, x).len() ==> p(#[trigger] insert_asc(s, x)[i]),
        forall|i: int| 0 <= i < insert_desc(s, x).len() ==> p(#[trigger] insert_desc(s, x)[i]),
    decreases s.len(),
{
    if s.len() == 0 {
        assert(insert_asc(s, x)[0] == x);
        assert(insert_desc(s, x)[0] == x);
    } else {
        let t = s.drop_first();
        assert(forall|i: int| 0 <= i < t.len() ==> p(#[trigger] t[i]));
        lemma_insert_all(t, x, p);
        assert forall|i: int| 0 <= i < insert_asc(s, x).len() implies p(
            #[trigger] insert_asc(s, x)[i],
        ) by {
            if s[0].price.le_spec(x.price) {
                if i > 0 {
                    assert(insert_asc(s, x)[i] == insert_asc(t, x)[i - 1]);
                }
            } else {
                if i > 0 {
                    assert(insert_asc(s, x)[i] == s[i - 1]);
                }
            }
        }
        assert forall|i: int| 0 <= i < insert_desc(s, x).len() implies p(
            #[trigger] insert_desc(s, x)[i],
        ) by {
            if x.price.le_spec(s[0].price) {
                if i > 0 {
                    assert(insert_desc(s, x)[i] == insert_desc(t, x)[i - 1]);
                }
            } else {
                if i > 0 {
                    assert(insert_desc(s, x)[i] == s[i - 1]);
                }
            }
        }
    }
}

/// A property of every element survives sorting.
pub proof fn lemma_sort_all(s: Seq<Level>, p: spec_fn(Level) -> bool)
    requires
        forall|i: int| 0 <= i < s.len() ==> p(#[trigger] s[i]),
    ensures
        forall|i: int| 0 <= i < sort_asc(s).len() ==> p(#[trigger] sort_asc(s)[i]),
        forall|i: int| 0 <= i < sort_desc(s).len() ==> p(#[trigger] sort_desc(s)[i]),
    decreases s.len(),
{
    if s.len() > 0 {
        assert(forall|i: int| 0 <= i < s.drop_last().len() ==> p(#[trigger] s.drop_last()[i]));
        lemma_sort_all(s.drop_last(), p);
        lemma_insert_all(sort_asc(s.drop_last()), s.last(), p);
        lemma_insert_all(sort_desc(s.drop_last()), s.last(), p);
    }
}

impl AggregatedBook {
    /// Best ask price minus best bid price over all slots; `None` when
    /// either side is empty everywhere — never a silent zero.
    pub fn get_spread(&self) -> (r: Option<Dec>)
        requires
            self.wf(),
        ensures
            r == agg_spread_spec(self@),
    {
        proof {
            lemma_sort_len(flatten_asks(self@));
            lemma_sort_len(flatten_bids(self@));
        }
        let asks = self.get_top_asks(1);
        let bids = self.get_top_bids(1);
        if asks.len() == 0 || bids.len() == 0 {
            None
        } else {
            proof {
                let p = |l: Level| l.price.wf() && l.volume.wf();
                lemma_flatten_wf(self@);
                lemma_sort_all(flatten_asks(self@), p);
                lemma_sort_all(flatten_bids(self@), p);
            }
            asks[0].price.checked_sub(&bids[0].price)
        }
    }
}

/// Every flattened level of a well-formed slot list is well formed.
pub proof fn lemma_flatten_wf(bs: Seq<SnapshotData>)
    requires
        forall|i: int| 0 <= i < bs.len() ==> (#[trigger] bs[i]).wf(),
    ensures
        forall|i: int|
            0 <= i < flatten_asks(bs).len() ==> (#[trigger] flatten_asks(bs)[i]).price.wf()
                && flatten_asks(bs)[i].volume.wf(),
        forall|i: int|
            0 <= i < flatten_bids(bs).len() ==> (#[trigger] flatten_bids(bs)[i]).price.wf()
                && flatten_bids(bs)[i].volume.wf(),
    decreases bs.len(),
{
    if bs.len() > 0 {
        assert(forall|i: int|
            0 <= i < bs.drop_last().len() ==> (#[trigger] bs.drop_last()[i]).wf());
        lemma_flatten_wf(bs.drop_last());
        let b = bs.last();
        assert(b.wf());
        assert forall|i: int|
            0 <= i < flatten_asks(bs).len() implies (#[trigger] flatten_asks(bs)[i]).price.wf()
            && flatten_asks(bs)[i].volume.wf() by {
            if i >= flatten_asks(bs.drop_last()).len() {
                let j = i - flatten_asks(bs.drop_last()).len();
                assert(flatten_asks(bs)[i] == side_levels(b.exchange, b.ask_to_update@)[j]);
            }
        }
        assert forall|i: int|
            0 <= i < flatten_bids(bs).len() implies (#[trigger] flatten_bids(bs)[i]).price.wf()
            && flatten_bids(bs)[i].volume.wf() by {
            if i >= flatten_bids(bs.drop_last()).len() {
                let j = i - flatten_bids(bs.drop_last()).len();
                assert(flatten_bids(bs)[i] == side_levels(b.exchange, b.bid_to_update@)[j]);
            }
        }
    }
}

/// Appending a level no smaller than every element goes to the end.
proof fn lemma_insert_asc_at_end(s: Seq<Level>, x: Level)
    requires
        forall|i: int| 0 <= i < s.len() ==> (#[trigger] s[i]).price.le_spec(x.price),
    ensures
        insert_asc(s, x) == s.push(x),
    decreases s.len(),
{
    if s.len() == 0 {
        assert(insert_asc(s, x) =~= s.push(x));
    } else {
        let t = s.drop_first();
        assert(forall|i: int| 0 <= i < t.len() ==> (#[trigger] t[i]).price.le_spec(x.price));
        lemma_insert_asc_at_end(t, x);
        assert(insert_asc(s, x) =~= s.push(x));
    }
}

/// Sorting an already ascending run changes nothing.
pub proof fn lemma_sort_asc_of_sorted(s: Seq<Level>)
    requires
        forall|i: int, j: int|
            0 <= i < j < s.len() ==> (#[trigger] s[i]).price.le_spec(#[trigger] s[j].price),
    ensures
        sort_asc(s) == s,
    decreases s.len(),
{
    if s.len() > 0 {
        let t = s.drop_last();
        assert(forall|i: int, j: int|
            0 <= i < j < t.len() ==> (#[trigger] t[i]).price.le_spec(#[trigger] t[j].price));
        lemma_sort_asc_of_sorted(t);
        assert(forall|i: int| 0 <= i < t.len() ==> (#[trigger] t[i]).price.le_spec(
            s.last().price,
        ));
        lemma_insert_asc_at_end(t, s.last());
        assert(sort_asc(s) =~= s);
    }
}

/// Descending insertion of a level strictly above every element goes to
/// the front.
proof fn lemma_insert_desc_at_front(s: Seq<Level>, x: Level)
    requires
        s.len() > 0 ==> !x.price.le_spec(s[0].price),
    ensures
        insert_desc(s, x) == seq![x] + s,
    decreases s.len(),
{
    if s.len() == 0 {
        assert(insert_desc(s, x) =~= seq![x] + s);
    }
}

/// Descending-sorting a strictly ascending run reverses it.
pub proof fn lemma_sort_desc_of_ascending(s: Seq<Level>)
    requires
        forall|i: int, j: int|
            0 <= i < j < s.len() ==> (#[trigger] s[i]).price.lt_spec(#[trigger] s[j].price),
    ensures
        sort_desc(s) == s.reverse(),
    decreases s.len(),
{
    if s.len() > 0 {
        let t = s.drop_last();
        assert(forall|i: int, j: int|
            0 <= i < j < t.len() ==> (#[trigger] t[i]).price.lt_spec(#[trigger] t[j].price));
        lemma_sort_desc_of_ascending(t);
        let x = s.last();
        if t.len() > 0 {
            assert(t.reverse()[0] == t[t.len() - 1]);
            assert(t[t.len() - 1].price.lt_spec(x.price));
        }
        lemma_insert_desc_at_front(t.reverse(), x);
        assert(sort_desc(s) =~= s.reverse());
    }
}

/// Decoding a full book and re-deriving the ranked views with `n` the
/// size of the input reproduces the input level set exactly: the ask
/// view is the ask side in order, the bid view is the bid side from the
/// best bid down — no loss, no duplication, no merging.
pub proof fn lemma_round_trip_full_book(b: SnapshotData)
    requires
        b.wf(),
    ensures
        top_asks_spec(seq![b], b.ask_to_update@.len() as int) == side_levels(
            b.exchange,
            b.ask_to_update@,
        ),
        top_bids_spec(seq![b], b.bid_to_update@.len() as int) == side_levels(
            b.exchange,
            b.bid_to_update@,
        ).reverse(),
{
    let bs = seq![b];
    let asks = side_levels(b.exchange, b.ask_to_update@);
    let bids = side_levels(b.exchange, b.bid_to_update@);
    assert(bs.len() == 1);
    assert(bs.last() == b);
    assert(bs.drop_last() =~= Seq::<SnapshotData>::empty());
    assert(flatten_asks(bs.drop_last()).len() == 0);
    assert(flatten_bids(bs.drop_last()).len() == 0);
    assert(flatten_asks(bs) =~= asks);
    assert(flatten_bids(bs) =~= bids);
    assert forall|i: int, j: int| 0 <= i < j < asks.len() implies (
    #[trigger] asks[i]).price.le_spec(#[trigger] asks[j].price) by {
        crate::side::lemma_side_pairwise(b.ask_to_update@, i, j);
    }
    lemma_sort_asc_of_sorted(asks);
    assert(sort_asc(asks).take(asks.len() as int) =~= asks);
    assert forall|i: int, j: int| 0 <= i < j < bids.len() implies (
    #[trigger] bids[i]).price.lt_spec(#[trigger] bids[j].price) by {
        crate::side::lemma_side_pairwise(b.bid_to_update@, i, j);
    }
    lemma_sort_desc_of_ascending(bids);
    assert(sort_desc(bids).take(bids.len() as int) =~= bids.reverse());
}

/// Ascending by price, pairwise.
pub open spec fn sorted_asc_levels(s: Seq<Level>) -> bool {
    forall|i: int, j: int|
        0 <= i < j < s.len() ==> (#[trigger] s[i]).price.le_spec(#[trigger] s[j].price)
}

/// Descending by price, pairwise.
pub open spec fn sorted_desc_levels(s: Seq<Level>) -> bool {
    forall|i: int, j: int|
        0 <= i < j < s.len() ==> (#[trigger] s[j]).price.le_spec(#[trigger] s[i].price)
}

/// Insertion adds exactly the new level to the multiset of levels.
pub proof fn lemma_insert_multiset(s: Seq<Level>, x: Level)
    ensures
        insert_asc(s, x).to_multiset() =~= s.to_multiset().insert(x),
        insert_desc(s, x).to_multiset() =~= s.to_multiset().insert(x),
    decreases s.len(),
{
    broadcast use vstd::seq_lib::group_to_multiset_ensures;
    broadcast use vstd::seq_lib::lemma_multiset_commutative;
    broadcast use vstd::multiset::group_multiset_axioms;

    if s.len() == 0 {
        assert(seq![x] =~= Seq::<Level>::empty().push(x));
        assert(insert_asc(s, x).to_multiset() =~= s.to_multiset().insert(x));
        assert(insert_desc(s, x).to_multiset() =~= s.to_multiset().insert(x));
    } else {
        let t = s.drop_first();
        lemma_insert_multiset(t, x);
        assert(s =~= seq![s[0]] + t);
        assert(seq![s[0]] =~= Seq::<Level>::empty().push(s[0]));
        if s[0].price.le_spec(x.price) {
            assert(insert_asc(s, x) == seq![s[0]] + insert_asc(t, x));
            assert((seq![s[0]] + insert_asc(t, x)).to_multiset() =~= seq![s[0]].to_multiset().add(
                insert_asc(t, x).to_multiset(),
            ));
            assert(insert_asc(s, x).to_multiset() =~= s.to_multiset().insert(x));
        } else {
            assert(insert_asc(s, x) == seq![x] + s);
            assert(seq![x].to_multiset() =~= Multiset::<Level>::empty().insert(x));
            assert(insert_asc(s, x).to_multiset() =~= s.to_multiset().insert(x));
        }
        if x.price.le_spec(s[0].price) {
            assert(insert_desc(s, x) == seq![s[0]] + insert_desc(t, x));
            assert((seq![s[0]] + insert_desc(t, x)).to_multiset() =~= seq![
                s[0],
            ].to_multiset().add(insert_desc(t, x).to_multiset()));
            assert(insert_desc(s, x).to_multiset() =~= s.to_multiset().insert(x));
        } else {
            assert(insert_desc(s, x) == seq![x] + s);
            assert(seq![x].to_multiset() =~= Multiset::<Level>::empty().insert(x));
            assert(insert_desc(s, x).to_multiset() =~= s.to_multiset().insert(x));
        }
    }
}

/// The ranked views lose no level and invent none: sorting keeps the
/// multiset of tagged levels exactly.
pub proof fn lemma_sort_multiset(s: Seq<Level>)
    ensures
        sort_asc(s).to_multiset() =~= s.to_multiset(),
        sort_desc(s).to_multiset() =~= s.to_multiset(),
    decreases s.len(),
{
    broadcast use vstd::seq_lib::group_to_multiset_ensures;

    if s.len() > 0 {
        let t = s.drop_last();
        lemma_sort_multiset(t);
        lemma_insert_multiset(sort_asc(t), s.last());
        lemma_insert_multiset(sort_desc(t), s.last());
        assert(s =~= t.push(s.last()));
        assert(t.push(s.last()).to_multiset() =~= t.to_multiset().insert(s.last()));
    }
}

/// Inserting into an ascending run keeps it ascending.
proof fn lemma_insert_asc_sorted(s: Seq<Level>, x: Level)
    requires
        sorted_asc_levels(s),
        x.price.wf(),
        forall|i: int| 0 <= i < s.len() ==> (#[trigger] s[i]).price.wf(),
    ensures
        sorted_asc_levels(insert_asc(s, x)),
    decreases s.len(),
{
    if s.len() == 0 {
    } else {
        let t = s.drop_first();
        let u = insert_asc(s, x);
        if s[0].price.le_spec(x.price) {
            assert(sorted_asc_levels(t));
            assert(forall|i: int| 0 <= i < t.len() ==> (#[trigger] t[i]) == s[i + 1]);
            lemma_insert_asc_sorted(t, x);
            let p = |l: Level| s[0].price.le_spec(l.price);
            assert(forall|i: int| 0 <= i < t.len() ==> p(#[trigger] t[i]));
            lemma_insert_all(t, x, p);
            assert forall|i: int, j: int| 0 <= i < j < u.len() implies (
            #[trigger] u[i]).price.le_spec(#[trigger] u[j].price) by {
                let v = insert_asc(t, x);
                assert(u[j] == v[j - 1]);
                if i > 0 {
                    assert(u[i] == v[i - 1]);
                    assert(v[i - 1].price.le_spec(v[j - 1].price));
                } else {
                    assert(p(v[j - 1]));
                }
            }
        } else {
            // neither order strict: x goes in front and is below everything
            assert(u == seq![x] + s);
            assert forall|i: int, j: int| 0 <= i < j < u.len() implies (
            #[trigger] u[i]).price.le_spec(#[trigger] u[j].price) by {
                if i == 0 {
                    assert(u[0] == x && u[j] == s[j - 1]);
                    assert(x.price.le_spec(s[0].price));
                    if j > 1 {
                        assert(s[0].price.le_spec(s[j - 1].price));
                        crate::dec::lemma_le_trans(x.price, s[0].price, s[j - 1].price);
                    }
                } else {
                    assert(u[i] == s[i - 1] && u[j] == s[j - 1]);
                }
            }
        }
    }
}

/// Inserting into a descending run keeps it descending.
proof fn lemma_insert_desc_sorted(s: Seq<Level>, x: Level)
    requires
        sorted_desc_levels(s),
        x.price.wf(),
        forall|i: int| 0 <= i < s.len() ==> (#[trigger] s[i]).price.wf(),
    ensures
        sorted_desc_levels(insert_desc(s, x)),
    decreases s.len(),
{
    if s.len() == 0 {
    } else {
        let t = s.drop_first();
        let u = insert_desc(s, x);
        if x.price.le_spec(s[0].price) {
            assert(sorted_desc_levels(t));
            assert(forall|i: int| 0 <= i < t.len() ==> (#[trigger] t[i]) == s[i + 1]);
            lemma_insert_desc_sorted(t, x);
            let p = |l: Level| l.price.le_spec(s[0].price);
            assert(forall|i: int| 0 <= i < t.len() ==> p(#[trigger] t[i]));
            lemma_insert_all(t, x, p);
            assert forall|i: int, j: int| 0 <= i < j < u.len() implies (
            #[trigger] u[j]).price.le_spec(#[trigger] u[i].price) by {
                let v = insert_desc(t, x);
                assert(u[j] == v[j - 1]);
                if i > 0 {
                    assert(u[i] == v[i - 1]);
                    assert(v[j - 1].price.le_spec(v[i - 1].price));
                } else {
                    assert(p(v[j - 1]));
                }
            }
        } else {
            assert(u == seq![x] + s);
            assert forall|i: int, j: int| 0 <= i < j < u.len() implies (
            #[trigger] u[j]).price.le_spec(#[trigger] u[i].price) by {
                if i == 0 {
                    assert(u[0] == x && u[j] == s[j - 1]);
                    assert(s[0].price.le_spec(x.price));
                    if j > 1 {
                        assert(s[j - 1].price.le_spec(s[0].price));
                        crate::dec::lemma_le_trans(s[j - 1].price, s[0].price, x.price);
                    }
                } else {
                    assert(u[i] == s[i - 1] && u[j] == s[j - 1]);
                }
            }
        }
    }
}

/// The ask view ranks ascending and the bid view descending, whatever
/// the input order was.
pub proof fn lemma_sort_sorted(s: Seq<Level>)
    requires
        forall|i: int| 0 <= i < s.len() ==> (#[trigger] s[i]).price.wf(),
    ensures
        sorted_asc_levels(sort_asc(s)),
        sorted_desc_levels(sort_desc(s)),
    decreases s.len(),
{
    if s.len() > 0 {
        let t = s.drop_last();
        assert(forall|i: int| 0 <= i < t.len() ==> (#[trigger] t[i]) == s[i]);
        lemma_sort_sorted(t);
        let p = |l: Level| l.price.wf();
        assert(forall|i: int| 0 <= i < t.len() ==> p(#[trigger] t[i]));
        lemma_sort_all(t, p);
        lemma_insert_asc_sorted(sort_asc(t), s.last());
        lemma_insert_desc_sorted(sort_desc(t), s.last());
    }
}

/// Where the scan for an exchange stops determines what `remove_slot`
/// produces.
proof fn lemma_remove_slot_at(s: Seq<SnapshotData>, e: Exchange, i: int)
    requires
        0 <= i <= s.len(),
        forall|k: int| 0 <= k < i ==> (#[trigger] s[k]).exchange != e,
        i < s.len() ==> s[i].exchange == e,
    ensures
        i < s.len() ==> remove_slot(s, e) == s.remove(i),
        i == s.len() ==> remove_slot(s, e) == s,
    decreases i,
{
    if i == 0 {
        if s.len() > 0 {
            assert(remove_slot(s, e) =~= s.remove(0));
        }
    } else {
        let t = s.drop_first();
        assert(forall|k: int| 0 <= k < i - 1 ==> (#[trigger] t[k]).exchange != e);
        lemma_remove_slot_at(t, e, i - 1);
        if i < s.len() {
            s.remove_ensures(i);
            assert(remove_slot(s, e) =~= s.remove(i));
        } else {
            assert(remove_slot(s, e) =~= s);
        }
    }
}

} // verus!
