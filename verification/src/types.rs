//! Exchange-agnostic message types: identifiers, decoded deltas and
//! snapshots, and decode failures.

use vstd::prelude::*;

use crate::side::BookSide;

verus! {

/// The venues this crate tracks.
#[derive(Clone, Copy, Debug, PartialEq, Eq, Hash, Structural)]
pub enum Exchange {
    Binance,
    Bitstamp,
}

impl Exchange {
    /// The venue's display name.
    pub fn name(&self) -> (r: &'static str)
        ensures
            *self is Binance ==> r@ == "Binance"@,
            *self is Bitstamp ==> r@ == "Bitstamp"@,
    {
        match *self {
            Exchange::Binance => "Binance",
            Exchange::Bitstamp => "Bitstamp",
        }
    }
}

impl core::str::FromStr for Exchange {
    type Err = ();

    fn from_str(input: &str) -> Result<Exchange, ()> {
        let b = input.as_bytes();
        if str_bytes_are(b, &[0x42, 0x69, 0x6e, 0x61, 0x6e, 0x63, 0x65]) || str_bytes_are(
            b,
            &[0x62, 0x69, 0x6e, 0x61, 0x6e, 0x63, 0x65],
        ) {
            Ok(Exchange::Binance)
        } else if str_bytes_are(b, &[0x42, 0x69, 0x74, 0x73, 0x74, 0x61, 0x6d, 0x70])
            || str_bytes_are(b, &[0x62, 0x69, 0x74, 0x73, 0x74, 0x61, 0x6d, 0x70]) {
            Ok(Exchange::Bitstamp)
        } else {
            Err(())
        }
    }
}

/// Whether a byte slice holds exactly the given bytes.
fn str_bytes_are(a: &[u8], b: &[u8]) -> (r: bool)
    ensures
        r == (a@ == b@),
{
    let n = a.len();
    if n != b.len() {
        return false;
    }
    let mut i: usize = 0;
    while i < n
        invariant
            i <= n == a@.len() == b@.len(),
            forall|k: int| 0 <= k < i ==> a@[k] == b@[k],
        decreases n - i,
    {
        if *vstd::slice::slice_index_get(a, i) != *vstd::slice::slice_index_get(b, i) {
            return false;
        }
        i = i + 1;
    }
    proof {
        assert(a@ =~= b@);
    }
    true
}

/// The wire fields a decoder can report in a failure.
#[derive(Clone, Copy, Debug, PartialEq, Eq, Structural)]
pub enum FieldTag {
    Document,
    Event,
    Symbol,
    FirstSeq,
    LastSeq,
    LastUpdateId,
    Timestamp,
    Microtimestamp,
    Bids,
    Asks,
    Data,
}

impl FieldTag {
    /// The wire name of the field, for reporting.
    pub fn text(&self) -> (r: &'static str)
        ensures
            *self is Document ==> r@ == "document"@,
            *self is Event ==> r@ == "event"@,
            *self is Symbol ==> r@ == "symbol"@,
            *self is FirstSeq ==> r@ == "first sequence"@,
            *self is LastSeq ==> r@ == "last sequence"@,
            *self is LastUpdateId ==> r@ == "lastUpdateId"@,
            *self is Timestamp ==> r@ == "timestamp"@,
            *self is Microtimestamp ==> r@ == "microtimestamp"@,
            *self is Bids ==> r@ == "bids"@,
            *self is Asks ==> r@ == "asks"@,
            *self is Data ==> r@ == "data"@,
    {
        match *self {
            FieldTag::Document => "document",
            FieldTag::Event => "event",
            FieldTag::Symbol => "symbol",
            FieldTag::FirstSeq => "first sequence",
            FieldTag::LastSeq => "last sequence",
            FieldTag::LastUpdateId => "lastUpdateId",
            FieldTag::Timestamp => "timestamp",
            FieldTag::Microtimestamp => "microtimestamp",
            FieldTag::Bids => "bids",
            FieldTag::Asks => "asks",
            FieldTag::Data => "data",
        }
    }
}

/// Why a raw exchange payload could not be decoded. Decode failures are
/// non-fatal: the caller skips the message and continues.
#[derive(Clone, Copy, Debug, PartialEq, Eq, Structural)]
pub enum DecodeError {
    /// The payload is not a well-formed document at all.
    Syntax,
    /// A required field is absent.
    MissingField(FieldTag),
    /// A field is present but has the wrong shape.
    WrongShape(FieldTag),
    /// A numeric field does not parse, or does not fit the admitted range.
    MalformedNumber(FieldTag),
}

/// An incremental, sequence-numbered update to a subset of price levels.
/// A change entry with volume zero removes that price; a non-zero volume
/// is the absolute resulting volume at that price.
#[derive(Clone, Debug, PartialEq, Eq)]
pub struct DepthData {
    pub exchange: Exchange,
    pub symbol: String,
    pub first_update_id_timestamp: u64,
    pub last_update_id_timestamp: u64,
    pub bid_to_update: BookSide,
    pub ask_to_update: BookSide,
}

impl DepthData {
    pub open spec fn wf(&self) -> bool {
        self.bid_to_update.wf() && self.ask_to_update.wf()
    }

    /// A feed with no discrete delta protocol sends a complete book in
    /// every frame: view such a frame as the full book it carries,
    /// stamped with its last sequence value.
    pub fn into_full_book(self) -> (r: SnapshotData)
        ensures
            r.exchange == self.exchange,
            r.symbol@ == self.symbol@,
            r.timestamp == self.last_update_id_timestamp,
            r.bid_to_update == self.bid_to_update,
            r.ask_to_update == self.ask_to_update,
            self.wf() ==> r.wf(),
    {
        SnapshotData {
            exchange: self.exchange,
            symbol: self.symbol,
            timestamp: self.last_update_id_timestamp,
            bid_to_update: self.bid_to_update,
            ask_to_update: self.ask_to_update,
        }
    }
}

/// A complete, self-consistent book state as of one moment.
#[derive(Clone, Debug, PartialEq, Eq)]
pub struct SnapshotData {
    pub exchange: Exchange,
    pub symbol: String,
    pub timestamp: u64,
    pub bid_to_update: BookSide,
    pub ask_to_update: BookSide,
}

impl SnapshotData {
    pub open spec fn wf(&self) -> bool {
        self.bid_to_update.wf() && self.ask_to_update.wf()
    }
}

/// The mathematical content of a delta.
#[verifier::ext_equal]
pub struct DepthM {
    pub exchange: Exchange,
    pub symbol: Seq<char>,
    pub first: u64,
    pub last: u64,
    pub bids: Seq<crate::side::Level2>,
    pub asks: Seq<crate::side::Level2>,
}

impl DepthData {
    pub open spec fn model(&self) -> DepthM {
        DepthM {
            exchange: self.exchange,
            symbol: self.symbol@,
            first: self.first_update_id_timestamp,
            last: self.last_update_id_timestamp,
            bids: self.bid_to_update@,
            asks: self.ask_to_update@,
        }
    }
}

/// The mathematical content of a snapshot.
#[verifier::ext_equal]
pub struct SnapM {
    pub exchange: Exchange,
    pub symbol: Seq<char>,
    pub timestamp: u64,
    pub bids: Seq<crate::side::Level2>,
    pub asks: Seq<crate::side::Level2>,
}

impl SnapshotData {
    pub open spec fn model(&self) -> SnapM {
        SnapM {
            exchange: self.exchange,
            symbol: self.symbol@,
            timestamp: self.timestamp,
            bids: self.bid_to_update@,
            asks: self.ask_to_update@,
        }
    }
}

/// The model of a delta-decode result.
pub open spec fn depth_result_model(r: Result<DepthData, DecodeError>) -> Result<
    DepthM,
    DecodeError,
> {
    match r {
        Ok(d) => Ok(d.model()),
        Err(e) => Err(e),
    }
}

/// The model of a snapshot-decode result.
pub open spec fn snap_result_model(r: Result<SnapshotData, DecodeError>) -> Result<
    SnapM,
    DecodeError,
> {
    match r {
        Ok(d) => Ok(d.model()),
        Err(e) => Err(e),
    }
}

} // verus!
