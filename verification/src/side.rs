//! One side of a limit order book: a map from price to volume, held as a
//! vector of levels sorted by ascending price with pairwise distinct keys.
//!
//! Asks read the side front to back (best ask first); bids read it back to
//! front (best bid last).

use vstd::prelude::*;

use crate::dec::{lemma_lt_trans, lemma_same_value_is_eq, Dec};

verus! {

/// A price level pair: price, then volume.
pub type Level2 = (Dec, Dec);

/// Every price and volume is well formed and prices strictly increase.
pub open spec fn side_wf(s: Seq<Level2>) -> bool {
    &&& forall|i: int| 0 <= i < s.len() ==> (#[trigger] s[i]).0.wf() && s[i].1.wf()
    &&& forall|i: int| 0 <= i < s.len() - 1 ==> (#[trigger] s[i]).0.lt_spec(s[i + 1].0)
}

/// Adjacent order extends to all pairs of positions.
pub proof fn lemma_side_pairwise(s: Seq<Level2>, i: int, j: int)
    requires
        side_wf(s),
        0 <= i < j < s.len(),
    ensures
        s[i].0.lt_spec(s[j].0),
    decreases j - i,
{
    if j == i + 1 {
    } else {
        lemma_side_pairwise(s, i, j - 1);
        lemma_lt_trans(s[i].0, s[j - 1].0, s[j].0);
    }
}

/// The volume stored at a price, if any.
pub open spec fn find_level(s: Seq<Level2>, p: Dec) -> Option<Dec>
    decreases s.len(),
{
    if s.len() == 0 {
        None
    } else if s[0].0 == p {
        Some(s[0].1)
    } else {
        find_level(s.drop_first(), p)
    }
}

/// The side with the level at `p` set to `v`, inserting or overwriting.
pub open spec fn set_level(s: Seq<Level2>, p: Dec, v: Dec) -> Seq<Level2>
    decreases s.len(),
{
    if s.len() == 0 {
        seq![(p, v)]
    } else if p.lt_spec(s[0].0) {
        seq![(p, v)] + s
    } else if p == s[0].0 {
        seq![(p, v)] + s.drop_first()
    } else {
        seq![s[0]] + set_level(s.drop_first(), p, v)
    }
}

/// The side with the first level keyed `p` removed, if present.
pub open spec fn remove_level(s: Seq<Level2>, p: Dec) -> Seq<Level2>
    decreases s.len(),
{
    if s.len() == 0 {
        s
    } else if s[0].0 == p {
        s.drop_first()
    } else {
        seq![s[0]] + remove_level(s.drop_first(), p)
    }
}

/// The side after a change set is applied entry by entry, in order: a
/// zero-volume entry removes its price, any other entry sets its price to
/// the entry's volume.
pub open spec fn apply_changes(side: Seq<Level2>, changes: Seq<Level2>) -> Seq<Level2>
    decreases changes.len(),
{
    if changes.len() == 0 {
        side
    } else {
        let rest = apply_changes(side, changes.drop_last());
        let c = changes.last();
        if c.1.is_zero() {
            remove_level(rest, c.0)
        } else {
            set_level(rest, c.0, c.1)
        }
    }
}

/// Removing an absent price changes nothing.
pub proof fn lemma_remove_absent(s: Seq<Level2>, p: Dec)
    requires
        find_level(s, p) is None,
    ensures
        remove_level(s, p) == s,
    decreases s.len(),
{
    if s.len() == 0 {
        assert(remove_level(s, p) =~= s);
    } else {
        lemma_remove_absent(s.drop_first(), p);
        assert(remove_level(s, p) =~= s);
    }
}


/// A key that occurs nowhere is not found.
pub proof fn lemma_find_absent(s: Seq<Level2>, p: Dec)
    requires
        forall|k: int| 0 <= k < s.len() ==> (#[trigger] s[k]).0 != p,
    ensures
        find_level(s, p) is None,
    decreases s.len(),
{
    if s.len() > 0 {
        let t = s.drop_first();
        assert(forall|k: int| 0 <= k < t.len() ==> (#[trigger] t[k]) == s[k + 1]);
        lemma_find_absent(t, p);
    }
}

/// Setting a level stores exactly that volume at that price: the new
/// volume overwrites an existing one, it never freezes the first-seen
/// value.
pub proof fn lemma_set_level_get(s: Seq<Level2>, p: Dec, v: Dec)
    requires
        side_wf(s),
        p.wf(),
    ensures
        find_level(set_level(s, p, v), p) == Some(v),
    decreases s.len(),
{
    if s.len() == 0 {
    } else if p.lt_spec(s[0].0) {
    } else if p == s[0].0 {
    } else {
        let t = s.drop_first();
        assert(side_wf(t)) by {
            assert(forall|k: int| 0 <= k < t.len() ==> (#[trigger] t[k]) == s[k + 1]);
        }
        lemma_set_level_get(t, p, v);
        assert((seq![s[0]] + set_level(t, p, v)).drop_first() =~= set_level(t, p, v));
    }
}

/// Setting a level leaves every other price exactly as it was.
pub proof fn lemma_set_level_get_other(s: Seq<Level2>, p: Dec, v: Dec, q: Dec)
    requires
        q != p,
    ensures
        find_level(set_level(s, p, v), q) == find_level(s, q),
    decreases s.len(),
{
    if s.len() == 0 {
        let u = set_level(s, p, v);
        assert(u == seq![(p, v)]);
        assert(u[0].0 == p);
        assert(u.drop_first() =~= Seq::<Level2>::empty());
        assert(find_level(u.drop_first(), q) is None);
    } else if p.lt_spec(s[0].0) {
        let u = set_level(s, p, v);
        assert(u == seq![(p, v)] + s);
        assert(u[0].0 == p);
        assert(u.drop_first() =~= s);
    } else if p == s[0].0 {
        let u = set_level(s, p, v);
        assert(u == seq![(p, v)] + s.drop_first());
        assert(u[0].0 == p);
        assert(u.drop_first() =~= s.drop_first());
        assert(find_level(u, q) == find_level(s.drop_first(), q));
        assert(find_level(s, q) == find_level(s.drop_first(), q));
    } else {
        lemma_set_level_get_other(s.drop_first(), p, v, q);
        let u = set_level(s, p, v);
        assert(u == seq![s[0]] + set_level(s.drop_first(), p, v));
        assert(u[0] == s[0]);
        assert(u.drop_first() =~= set_level(s.drop_first(), p, v));
    }
}

/// Removing a price leaves it absent; unique keys make the removal
/// complete.
pub proof fn lemma_remove_level_get(s: Seq<Level2>, p: Dec)
    requires
        side_wf(s),
        p.wf(),
    ensures
        find_level(remove_level(s, p), p) is None,
    decreases s.len(),
{
    if s.len() == 0 {
    } else if s[0].0 == p {
        let t = s.drop_first();
        assert forall|k: int| 0 <= k < t.len() implies (#[trigger] t[k]).0 != p by {
            lemma_side_pairwise(s, 0, k + 1);
            if t[k].0 == p {
                // a strictly greater key cannot be the same struct
            }
        }
        lemma_find_absent(t, p);
    } else {
        let t = s.drop_first();
        assert(side_wf(t)) by {
            assert(forall|k: int| 0 <= k < t.len() ==> (#[trigger] t[k]) == s[k + 1]);
        }
        lemma_remove_level_get(t, p);
        assert((seq![s[0]] + remove_level(t, p)).drop_first() =~= remove_level(t, p));
    }
}

/// Removing a price leaves every other price exactly as it was.
pub proof fn lemma_remove_level_get_other(s: Seq<Level2>, p: Dec, q: Dec)
    requires
        q != p,
    ensures
        find_level(remove_level(s, p), q) == find_level(s, q),
    decreases s.len(),
{
    if s.len() == 0 {
    } else if s[0].0 == p {
    } else {
        lemma_remove_level_get_other(s.drop_first(), p, q);
        assert((seq![s[0]] + remove_level(s.drop_first(), p)).drop_first() =~= remove_level(
            s.drop_first(),
            p,
        ));
    }
}

/// One side of a book.
#[derive(Clone, Debug, PartialEq, Eq)]
pub struct BookSide {
    entries: Vec<Level2>,
}

impl View for BookSide {
    type V = Seq<Level2>;

    closed spec fn view(&self) -> Seq<Level2> {
        self.entries@
    }
}

impl BookSide {
    pub open spec fn wf(&self) -> bool {
        side_wf(self@)
    }

    /// An empty side.
    pub fn new() -> (r: BookSide)
        ensures
            r.wf(),
            r@ == Seq::<Level2>::empty(),
    {
        let entries: Vec<Level2> = Vec::new();
        proof {
            assert(entries@ =~= Seq::<Level2>::empty());
        }
        BookSide { entries }
    }

    pub fn len(&self) -> (r: usize)
        ensures
            r == self@.len(),
    {
        self.entries.len()
    }

    pub fn is_empty(&self) -> (r: bool)
        ensures
            r == (self@.len() == 0),
    {
        self.entries.len() == 0
    }

    /// The level at a position, lowest price first.
    pub fn level_at(&self, i: usize) -> (r: Level2)
        requires
            i < self@.len(),
        ensures
            r == self@[i as int],
    {
        self.entries[i]
    }

    /// The lowest-priced level: the best ask when this side holds asks.
    pub fn lowest(&self) -> (r: Option<Level2>)
        ensures
            r == if self@.len() == 0 {
                Option::<Level2>::None
            } else {
                Some(self@[0])
            },
    {
        if self.entries.len() == 0 {
            None
        } else {
            Some(self.entries[0])
        }
    }

    /// The highest-priced level: the best bid when this side holds bids.
    pub fn highest(&self) -> (r: Option<Level2>)
        ensures
            r == if self@.len() == 0 {
                Option::<Level2>::None
            } else {
                Some(self@[self@.len() - 1])
            },
    {
        if self.entries.len() == 0 {
            None
        } else {
            Some(self.entries[self.entries.len() - 1])
        }
    }

    /// Look a price up.
    pub fn get(&self, p: &Dec) -> (r: Option<Dec>)
        requires
            self.wf(),
            p.wf(),
        ensures
            r == find_level(self@, *p),
    {
        let ghost s0 = self@;
        proof {
            assert(s0.skip(0) =~= s0);
        }
        let n = self.entries.len();
        let mut i: usize = 0;
        while i < n
            invariant
                i <= n == s0.len(),
                self@ == s0,
                forall|k: int| 0 <= k < i ==> (#[trigger] s0[k]).0 != *p,
                find_level(s0, *p) == find_level(s0.skip(i as int), *p),
            decreases n - i,
        {
            proof {
                assert(s0.skip(i as int)[0] == s0[i as int]);
                assert(s0.skip(i as int).drop_first() =~= s0.skip(i + 1));
            }
            if self.entries[i].0 == *p {
                return Some(self.entries[i].1);
            }
            i = i + 1;
        }
        proof {
            assert(s0.skip(n as int) =~= Seq::<Level2>::empty());
        }
        None
    }

    /// A copy holding the same levels.
    pub fn cloned(&self) -> (r: BookSide)
        ensures
            r@ == self@,
            self.wf() ==> r.wf(),
    {
        let mut entries: Vec<Level2> = Vec::new();
        let n = self.entries.len();
        let mut i: usize = 0;
        while i < n
            invariant
                i <= n == self@.len(),
                entries@ =~= self@.take(i as int),
            decreases n - i,
        {
            entries.push(self.entries[i]);
            proof {
                assert(entries@ =~= self@.take(i + 1));
            }
            i = i + 1;
        }
        proof {
            assert(self@.take(n as int) =~= self@);
        }
        BookSide { entries }
    }

    /// Set the volume stored at `p` to `v`, inserting the level or
    /// overwriting an existing one.
    pub fn set(&mut self, p: Dec, v: Dec)
        requires
            old(self).wf(),
            p.wf(),
            v.wf(),
        ensures
            final(self).wf(),
            final(self)@ == set_level(old(self)@, p, v),
    {
        let ghost s0 = self@;
        let n = self.entries.len();
        let mut i: usize = 0;
        while i < n && self.entries[i].0.lt(&p)
            invariant
                i <= n == s0.len(),
                self@ == s0,
                side_wf(s0),
                p.wf(),
                forall|k: int| 0 <= k < i ==> (#[trigger] s0[k]).0.lt_spec(p),
            decreases n - i,
        {
            i = i + 1;
        }
        proof {
            if i < s0.len() && !p.lt_spec(s0[i as int].0) {
                // neither order holds, so the cross products agree
                assert(p.same_value(s0[i as int].0));
                lemma_same_value_is_eq(p, s0[i as int].0);
            }
            lemma_set_level_at(s0, p, v, i as int);
        }
        if i < n && self.entries[i].0 == p {
            self.entries.set(i, (p, v));
            proof {
                assert(final(self)@ =~= set_level(s0, p, v));
                assert forall|k: int| 0 <= k < self@.len() - 1 implies (
                #[trigger] self@[k]).0.lt_spec(self@[k + 1].0) by {
                    assert(self@[k].0 == s0[k].0 && self@[k + 1].0 == s0[k + 1].0);
                }
            }
        } else {
            self.entries.insert(i, (p, v));
            proof {
                s0.insert_ensures(i as int, (p, v));
                assert(self@ =~= s0.insert(i as int, (p, v)));
                assert forall|k: int| 0 <= k < self@.len() - 1 implies (
                #[trigger] self@[k]).0.lt_spec(self@[k + 1].0) by {
                    if k + 1 < i {
                        assert(self@[k] == s0[k] && self@[k + 1] == s0[k + 1]);
                    } else if k + 1 == i {
                        assert(self@[k] == s0[k] && self@[k + 1] == (p, v));
                    } else if k == i {
                        assert(self@[k] == (p, v) && self@[k + 1] == s0[k]);
                        assert(!s0[k].0.lt_spec(p));
                        assert(!p.same_value(s0[k].0)) by {
                            if p.same_value(s0[k].0) {
                                lemma_same_value_is_eq(p, s0[k].0);
                            }
                        }
                    } else {
                        assert(self@[k] == s0[k - 1] && self@[k + 1] == s0[k]);
                    }
                }
            }
        }
    }

    /// Drop the level at `p`, if present; removing an absent price is a
    /// no-op.
    pub fn remove(&mut self, p: Dec)
        requires
            old(self).wf(),
        ensures
            final(self).wf(),
            final(self)@ == remove_level(old(self)@, p),
    {
        let ghost s0 = self@;
        let n = self.entries.len();
        let mut i: usize = 0;
        while i < n
            invariant
                i <= n == s0.len(),
                self@ == s0,
                s0 == old(self)@,
                side_wf(s0),
                forall|k: int| 0 <= k < i ==> (#[trigger] s0[k]).0 != p,
            decreases n - i,
        {
            if self.entries[i].0 == p {
                proof {
                    lemma_remove_level_at(s0, p, i as int);
                }
                self.entries.remove(i);
                proof {
                    s0.remove_ensures(i as int);
                    assert(self@ =~= s0.remove(i as int));
                    assert forall|k: int| 0 <= k < self@.len() - 1 implies (
                    #[trigger] self@[k]).0.lt_spec(self@[k + 1].0) by {
                        if k + 1 < i {
                        } else if k + 1 == i {
                            assert(self@[k] == s0[k] && self@[k + 1] == s0[k + 1 + 1]);
                            lemma_side_pairwise(s0, k, k + 2);
                        } else {
                            assert(self@[k] == s0[k + 1] && self@[k + 1] == s0[k + 2]);
                        }
                    }
                }
                return ;
            }
            i = i + 1;
        }
        proof {
            lemma_remove_level_at(s0, p, n as int);
        }
    }
}

/// Where the scan for `p` stops determines what `set_level` produces:
/// an overwrite at the stop position when the keys agree, an insertion
/// there otherwise.
proof fn lemma_set_level_at(s: Seq<Level2>, p: Dec, v: Dec, i: int)
    requires
        side_wf(s),
        p.wf(),
        0 <= i <= s.len(),
        forall|k: int| 0 <= k < i ==> (#[trigger] s[k]).0.lt_spec(p),
        i < s.len() ==> !s[i].0.lt_spec(p),
    ensures
        i < s.len() && s[i].0 == p ==> set_level(s, p, v) == s.update(i, (p, v)),
        (i == s.len() || s[i].0 != p) ==> set_level(s, p, v) == s.insert(i, (p, v)),
    decreases i,
{
    if i == 0 {
        if s.len() == 0 {
            assert(set_level(s, p, v) =~= s.insert(0, (p, v)));
        } else if p.lt_spec(s[0].0) {
            assert(set_level(s, p, v) =~= s.insert(0, (p, v)));
        } else {
            // neither strict order holds, so p equals the head key
            assert(p.same_value(s[0].0));
            lemma_same_value_is_eq(p, s[0].0);
            assert(set_level(s, p, v) =~= s.update(0, (p, v)));
        }
    } else {
        let t = s.drop_first();
        assert(side_wf(t)) by {
            assert(forall|k: int| 0 <= k < t.len() ==> (#[trigger] t[k]) == s[k + 1]);
        }
        assert(forall|k: int| 0 <= k < i - 1 ==> (#[trigger] t[k]).0.lt_spec(p));
        lemma_set_level_at(t, p, v, i - 1);
        assert(s[0].0.lt_spec(p));
        assert(!p.lt_spec(s[0].0));
        assert(p != s[0].0);
        assert(set_level(s, p, v) == seq![s[0]] + set_level(t, p, v));
        if i < s.len() && s[i].0 == p {
            assert(t[i - 1].0 == p);
            assert(set_level(s, p, v) =~= s.update(i, (p, v)));
        } else {
            s.insert_ensures(i, (p, v));
            assert(set_level(s, p, v) =~= s.insert(i, (p, v)));
        }
    }
}

/// Where the scan for an exact key stops determines what `remove_level`
/// produces.
proof fn lemma_remove_level_at(s: Seq<Level2>, p: Dec, i: int)
    requires
        0 <= i <= s.len(),
        forall|k: int| 0 <= k < i ==> (#[trigger] s[k]).0 != p,
        i < s.len() ==> s[i].0 == p,
    ensures
        i < s.len() ==> remove_level(s, p) == s.remove(i),
        i == s.len() ==> remove_level(s, p) == s,
    decreases i,
{
    if i == 0 {
        if s.len() > 0 {
            assert(remove_level(s, p) =~= s.remove(0));
        }
    } else {
        let t = s.drop_first();
        assert(forall|k: int| 0 <= k < i - 1 ==> (#[trigger] t[k]).0 != p);
        lemma_remove_level_at(t, p, i - 1);
        if i < s.len() {
            s.remove_ensures(i);
            assert(remove_level(s, p) =~= s.remove(i));
        } else {
            assert(remove_level(s, p) =~= s);
        }
    }
}

} // verus!
