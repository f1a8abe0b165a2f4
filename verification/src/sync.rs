//! The per-exchange book synchronization state machine.
//!
//! Policy A (sequenced delta reconciliation): after a snapshot with marker
//! `M`, deltas wholly at or before `M` are discarded; the first accepted
//! delta must bracket `M + 1`; every later delta must start exactly at
//! `marker + 1`, and any gap discards the book and demands a fresh
//! snapshot. Policy B (full replace) swaps the whole book in on every
//! message.
//!
//! The machine decides; it performs no fetch and no I/O. The caller runs
//! the loop, performs the snapshot fetch when asked to, and feeds the
//! results back in.

use vstd::prelude::*;

use crate::book::Book;
use crate::side::{apply_changes, Level2};
use crate::types::{DepthData, Exchange, SnapshotData};

verus! {

use vstd::string::StringExecFns;

/// Where the machine stands.
#[derive(Clone, Copy, Debug, PartialEq, Eq, Structural)]
pub enum SyncPhase {
    /// No book; a snapshot fetch is owed.
    AwaitingSnapshot,
    /// A snapshot landed; waiting for the delta that brackets `marker + 1`.
    Bracketing,
    /// Deltas apply as long as each starts exactly at `marker + 1`.
    Tracking,
}

/// What became of one incoming delta.
#[derive(Clone, Copy, Debug, PartialEq, Eq, Structural)]
pub enum DeltaAction {
    /// The delta is already covered or out of order before synchronization;
    /// nothing changed.
    Discarded,
    /// The delta was applied and the marker advanced.
    Applied,
    /// Continuity failed: the book was dropped and a fresh snapshot fetch
    /// is owed.
    ResyncRequired,
}

/// The mathematical state of a synchronizer.
#[verifier::ext_equal]
pub struct SyncState {
    pub phase: SyncPhase,
    pub marker: u64,
    pub asks: Seq<Level2>,
    pub bids: Seq<Level2>,
}

/// One step of policy A on an incoming delta.
pub open spec fn delta_step(s: SyncState, first: u64, last: u64, ask_ch: Seq<Level2>, bid_ch: Seq<
    Level2,
>) -> (SyncState, DeltaAction) {
    match s.phase {
        SyncPhase::AwaitingSnapshot => (s, DeltaAction::Discarded),
        SyncPhase::Bracketing => {
            if last <= s.marker {
                (s, DeltaAction::Discarded)
            } else if first <= s.marker + 1 {
                (
                    SyncState {
                        phase: SyncPhase::Tracking,
                        marker: last,
                        asks: apply_changes(s.asks, ask_ch),
                        bids: apply_changes(s.bids, bid_ch),
                    },
                    DeltaAction::Applied,
                )
            } else {
                (s, DeltaAction::Discarded)
            }
        },
        SyncPhase::Tracking => {
            if first == s.marker + 1 {
                (
                    SyncState {
                        phase: SyncPhase::Tracking,
                        marker: last,
                        asks: apply_changes(s.asks, ask_ch),
                        bids: apply_changes(s.bids, bid_ch),
                    },
                    DeltaAction::Applied,
                )
            } else {
                (
                    SyncState {
                        phase: SyncPhase::AwaitingSnapshot,
                        marker: 0,
                        asks: Seq::empty(),
                        bids: Seq::empty(),
                    },
                    DeltaAction::ResyncRequired,
                )
            }
        },
    }
}

/// The per-exchange synchronizer: one instance manages one exchange and
/// symbol pair.
#[derive(Clone, Debug, PartialEq, Eq)]
pub struct Synchronizer {
    pub exchange: Exchange,
    pub symbol: String,
    pub phase: SyncPhase,
    pub marker: u64,
    pub book: Book,
}

impl Synchronizer {
    pub open spec fn wf(&self) -> bool {
        &&& self.book.wf()
        &&& self.phase is AwaitingSnapshot ==> self.book.asks@.len() == 0 && self.book.bids@.len()
            == 0
    }

    /// The machine's mathematical state.
    pub open spec fn model(&self) -> SyncState {
        SyncState {
            phase: self.phase,
            marker: self.marker,
            asks: self.book.asks@,
            bids: self.book.bids@,
        }
    }

    /// A fresh machine with no book, owing a snapshot fetch.
    pub fn new(exchange: Exchange, symbol: String) -> (r: Synchronizer)
        ensures
            r.wf(),
            r.exchange == exchange,
            r.symbol@ == symbol@,
            r.phase is AwaitingSnapshot,
            r.marker == 0,
            r.book.asks@.len() == 0,
            r.book.bids@.len() == 0,
    {
        Synchronizer {
            exchange,
            symbol,
            phase: SyncPhase::AwaitingSnapshot,
            marker: 0,
            book: Book::new(),
        }
    }

    /// Policy A: a fetched snapshot replaces the book wholesale and the
    /// machine starts evaluating deltas against the snapshot's marker.
    pub fn on_snapshot(&mut self, snap: SnapshotData)
        requires
            old(self).wf(),
            snap.wf(),
        ensures
            final(self).wf(),
            final(self).exchange == old(self).exchange,
            final(self).symbol@ == old(self).symbol@,
            final(self).phase is Bracketing,
            final(self).marker == snap.timestamp,
            final(self).book.asks@ == snap.ask_to_update@,
            final(self).book.bids@ == snap.bid_to_update@,
    {
        self.book = Book { bids: snap.bid_to_update, asks: snap.ask_to_update };
        self.marker = snap.timestamp;
        self.phase = SyncPhase::Bracketing;
    }

    /// Policy B: every message carries a complete book, which replaces the
    /// current one wholesale; no continuity check is meaningful.
    pub fn on_full_book(&mut self, snap: SnapshotData)
        requires
            old(self).wf(),
            snap.wf(),
        ensures
            final(self).wf(),
            final(self).exchange == old(self).exchange,
            final(self).symbol@ == old(self).symbol@,
            final(self).phase is Tracking,
            final(self).marker == snap.timestamp,
            final(self).book.asks@ == snap.ask_to_update@,
            final(self).book.bids@ == snap.bid_to_update@,
    {
        self.book = Book { bids: snap.bid_to_update, asks: snap.ask_to_update };
        self.marker = snap.timestamp;
        self.phase = SyncPhase::Tracking;
    }

    /// Policy A: judge one incoming delta, applying it, discarding it, or
    /// dropping the book and demanding a fresh snapshot.
    pub fn on_delta(&mut self, delta: &DepthData) -> (act: DeltaAction)
        requires
            old(self).wf(),
            delta.wf(),
        ensures
            final(self).wf(),
            final(self).exchange == old(self).exchange,
            final(self).symbol@ == old(self).symbol@,
            final(self).model() == delta_step(
                old(self).model(),
                delta.first_update_id_timestamp,
                delta.last_update_id_timestamp,
                delta.ask_to_update@,
                delta.bid_to_update@,
            ).0,
            act == delta_step(
                old(self).model(),
                delta.first_update_id_timestamp,
                delta.last_update_id_timestamp,
                delta.ask_to_update@,
                delta.bid_to_update@,
            ).1,
    {
        let first = delta.first_update_id_timestamp;
        let last = delta.last_update_id_timestamp;
        match self.phase {
            SyncPhase::AwaitingSnapshot => DeltaAction::Discarded,
            SyncPhase::Bracketing => {
                if last <= self.marker {
                    DeltaAction::Discarded
                } else if first == 0 || first - 1 <= self.marker {
                    self.book.update_book(&delta.ask_to_update, &delta.bid_to_update);
                    self.marker = last;
                    self.phase = SyncPhase::Tracking;
                    DeltaAction::Applied
                } else {
                    DeltaAction::Discarded
                }
            },
            SyncPhase::Tracking => {
                if first > 0 && first - 1 == self.marker {
                    self.book.update_book(&delta.ask_to_update, &delta.bid_to_update);
                    self.marker = last;
                    DeltaAction::Applied
                } else {
                    self.book = Book::new();
                    self.marker = 0;
                    self.phase = SyncPhase::AwaitingSnapshot;
                    DeltaAction::ResyncRequired
                }
            },
        }
    }

    /// The transport reported dropped messages: treated exactly like a
    /// continuity failure — the book is dropped wholesale and a fresh
    /// snapshot fetch is owed. Nothing of the stale book is kept.
    pub fn on_lag(&mut self)
        requires
            old(self).wf(),
        ensures
            final(self).wf(),
            final(self).exchange == old(self).exchange,
            final(self).symbol@ == old(self).symbol@,
            final(self).phase is AwaitingSnapshot,
            final(self).marker == 0,
            final(self).book.asks@.len() == 0,
            final(self).book.bids@.len() == 0,
    {
        self.book = Book::new();
        self.marker = 0;
        self.phase = SyncPhase::AwaitingSnapshot;
    }

    /// The book as a snapshot value to hand to the aggregator.
    pub fn snapshot(&self) -> (r: SnapshotData)
        requires
            self.wf(),
        ensures
            r.wf(),
            r.exchange == self.exchange,
            r.symbol@ == self.symbol@,
            r.timestamp == self.marker,
            r.ask_to_update@ == self.book.asks@,
            r.bid_to_update@ == self.book.bids@,
    {
        SnapshotData {
            exchange: self.exchange,
            symbol: clone_string(&self.symbol),
            timestamp: self.marker,
            bid_to_update: self.book.bids.cloned(),
            ask_to_update: self.book.asks.cloned(),
        }
    }
}

/// A copy of a string with the same characters.
pub fn clone_string(s: &String) -> (r: String)
    ensures
        r@ == s@,
{
    String::from_str(s.as_str())
}

/// The bracketing delta is accepted: in the bracketing phase, a delta
/// running from exactly `marker + 1` through `marker + 5` is applied and
/// the marker advances to `marker + 5`.
pub proof fn lemma_bracketing_delta_applies(s: SyncState, first: u64, last: u64, ask_ch: Seq<
    Level2>, bid_ch: Seq<Level2>)
    requires
        s.phase is Bracketing,
        s.marker + 5 <= u64::MAX,
        first == s.marker + 1,
        last == s.marker + 5,
    ensures
        delta_step(s, first, last, ask_ch, bid_ch).1 is Applied,
        delta_step(s, first, last, ask_ch, bid_ch).0.marker == s.marker + 5,
        delta_step(s, first, last, ask_ch, bid_ch).0.phase is Tracking,
        delta_step(s, first, last, ask_ch, bid_ch).0.asks == apply_changes(s.asks, ask_ch),
        delta_step(s, first, last, ask_ch, bid_ch).0.bids == apply_changes(s.bids, bid_ch),
{
}

/// A stale delta is discarded: before the bracketing delta arrives, a
/// delta wholly at or before the snapshot marker alters neither the book
/// nor the marker.
pub proof fn lemma_stale_delta_discarded(s: SyncState, first: u64, last: u64, ask_ch: Seq<Level2>, bid_ch: Seq<Level2>)
    requires
        s.phase is Bracketing,
        last <= s.marker,
    ensures
        delta_step(s, first, last, ask_ch, bid_ch).1 is Discarded,
        delta_step(s, first, last, ask_ch, bid_ch).0 == s,
{
}

/// A continuity gap forces a resynchronization: once tracking, a delta
/// that does not start exactly at `marker + 1` drops the whole book, and
/// nothing of it is kept or merged.
pub proof fn lemma_gap_forces_resync(s: SyncState, first: u64, last: u64, ask_ch: Seq<Level2>, bid_ch: Seq<Level2>)
    requires
        s.phase is Tracking,
        first != s.marker + 1,
    ensures
        delta_step(s, first, last, ask_ch, bid_ch).1 is ResyncRequired,
        delta_step(s, first, last, ask_ch, bid_ch).0.phase is AwaitingSnapshot,
        delta_step(s, first, last, ask_ch, bid_ch).0.asks.len() == 0,
        delta_step(s, first, last, ask_ch, bid_ch).0.bids.len() == 0,
{
}

} // verus!
