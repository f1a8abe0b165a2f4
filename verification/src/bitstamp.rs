//! The Bitstamp decoder: live order-book frames with a nested `data`
//! object, REST order-book snapshots, and the subscription handshake.
//!
//! The channel name `order_book_<pair>` becomes the upper-case symbol;
//! both timestamps arrive as quoted digit runs.

use vstd::prelude::*;

use crate::decode::{
    all_ascii, ascii_chars, ascii_string, bytes_eq, clone_bytes, get_field, get_field2,
    get_side_field, get_u64_str_field, lit_bytes, obj_get, obj_get2, side_field, strip_prefix,
    strip_prefix_spec, to_upper_bytes, u64_str_field, upper_ascii,
};
use crate::json::{jm_members, json_doc, parse_document, JsonM, JsonMember, JsonMemberM, JsonValue};
use crate::types::{
    depth_result_model, snap_result_model, DecodeError, DepthData, DepthM, Exchange, FieldTag,
    SnapM, SnapshotData,
};

verus! {

use vstd::string::StringSliceAdditionalSpecFns;

/// The symbol a channel name denotes: the `order_book_` prefix dropped
/// and ASCII letters raised to upper case.
pub open spec fn symbol_of_channel(channel: Seq<u8>) -> Seq<u8> {
    upper_ascii(strip_prefix_spec(channel, "order_book_".spec_bytes()))
}

/// The channel field of a frame, read as a symbol.
pub open spec fn channel_field(ms: Seq<JsonMemberM>) -> Result<Seq<char>, DecodeError> {
    match obj_get2(ms, "channel".spec_bytes(), "symbol".spec_bytes()) {
        None => Err(DecodeError::MissingField(FieldTag::Symbol)),
        Some(v) => match v {
            JsonM::Str(c) => if all_ascii(c) {
                Ok(ascii_chars(symbol_of_channel(c)))
            } else {
                Err(DecodeError::WrongShape(FieldTag::Symbol))
            },
            _ => Err(DecodeError::WrongShape(FieldTag::Symbol)),
        },
    }
}

/// Read the channel field of a frame as a symbol.
fn get_channel_field(ms: &Vec<JsonMember>) -> (r: Result<String, DecodeError>)
    ensures
        match r {
            Ok(s) => channel_field(jm_members(ms@)) == Ok::<_, DecodeError>(s@),
            Err(e) => channel_field(jm_members(ms@)) == Err::<Seq<char>, _>(e),
        },
{
    match get_field2(ms, lit_bytes("channel"), lit_bytes("symbol")) {
        None => Err(DecodeError::MissingField(FieldTag::Symbol)),
        Some(v) => match v {
            JsonValue::Str(c) => {
                let raw = clone_bytes(c);
                if !is_all_ascii(&raw) {
                    return Err(DecodeError::WrongShape(FieldTag::Symbol));
                }
                let sym = to_upper_bytes(&strip_prefix(&raw, lit_bytes("order_book_")));
                proof {
                    lemma_upper_strip_ascii(c@);
                }
                match ascii_string(sym) {
                    Some(s) => Ok(s),
                    None => Err(DecodeError::WrongShape(FieldTag::Symbol)),
                }
            },
            _ => Err(DecodeError::WrongShape(FieldTag::Symbol)),
        },
    }
}

/// Dropping a prefix and raising case keep a byte run ASCII.
proof fn lemma_upper_strip_ascii(c: Seq<u8>)
    requires
        all_ascii(c),
    ensures
        all_ascii(symbol_of_channel(c)),
{
    let stripped = strip_prefix_spec(c, "order_book_".spec_bytes());
    assert(forall|i: int|
        0 <= i < stripped.len() ==> (#[trigger] stripped[i]) < 0x80);
    assert(forall|i: int|
        0 <= i < symbol_of_channel(c).len() ==> (#[trigger] symbol_of_channel(c)[i]) < 0x80);
}

/// Whether every byte is ASCII, executably.
fn is_all_ascii(b: &Vec<u8>) -> (r: bool)
    ensures
        r == all_ascii(b@),
{
    let n = b.len();
    let mut i: usize = 0;
    while i < n
        invariant
            i <= n == b@.len(),
            forall|k: int| 0 <= k < i ==> (#[trigger] b@[k]) < 0x80,
        decreases n - i,
    {
        if b[i] >= 0x80 {
            return false;
        }
        i = i + 1;
    }
    true
}

/// The event field must be present as a string; its content is kept.
pub open spec fn event_field(ms: Seq<JsonMemberM>) -> Result<Seq<u8>, DecodeError> {
    match obj_get(ms, "event".spec_bytes()) {
        None => Err(DecodeError::MissingField(FieldTag::Event)),
        Some(v) => match v {
            JsonM::Str(c) => Ok(c),
            _ => Err(DecodeError::WrongShape(FieldTag::Event)),
        },
    }
}

/// The delta a live frame denotes: symbol from the channel name, both
/// timestamps from the nested `data` object's quoted digit runs, and
/// both change sets from `data`.
pub open spec fn delta_of(bytes: Seq<u8>) -> Result<DepthM, DecodeError> {
    match json_doc(bytes) {
        None => Err(DecodeError::Syntax),
        Some(doc) => match doc {
            JsonM::Obj(ms) => delta_of_obj(ms),
            _ => Err(DecodeError::WrongShape(FieldTag::Document)),
        },
    }
}

pub open spec fn delta_of_obj(ms: Seq<JsonMemberM>) -> Result<DepthM, DecodeError> {
    match event_field(ms) {
        Err(e) => Err(e),
        Ok(_) => match channel_field(ms) {
            Err(e) => Err(e),
            Ok(sym) => match obj_get(ms, "data".spec_bytes()) {
                None => Err(DecodeError::MissingField(FieldTag::Data)),
                Some(JsonM::Obj(dms)) => delta_of_data(sym, dms),
                Some(_) => Err(DecodeError::WrongShape(FieldTag::Data)),
            },
        },
    }
}

pub open spec fn delta_of_data(sym: Seq<char>, dms: Seq<JsonMemberM>) -> Result<
    DepthM,
    DecodeError,
> {
    match u64_str_field(
        dms,
        "timestamp".spec_bytes(),
        "first_update_id_timestamp".spec_bytes(),
        FieldTag::Timestamp,
    ) {
        Err(e) => Err(e),
        Ok(first) => match u64_str_field(
            dms,
            "microtimestamp".spec_bytes(),
            "last_update_id_timestamp".spec_bytes(),
            FieldTag::Microtimestamp,
        ) {
            Err(e) => Err(e),
            Ok(last) => match side_field(
                dms,
                "bids".spec_bytes(),
                "bid_to_update".spec_bytes(),
                FieldTag::Bids,
            ) {
                Err(e) => Err(e),
                Ok(bids) => match side_field(
                    dms,
                    "asks".spec_bytes(),
                    "ask_to_update".spec_bytes(),
                    FieldTag::Asks,
                ) {
                    Err(e) => Err(e),
                    Ok(asks) => Ok(
                        DepthM {
                            exchange: Exchange::Bitstamp,
                            symbol: sym,
                            first,
                            last,
                            bids,
                            asks,
                        },
                    ),
                },
            },
        },
    }
}

/// Decode one live order-book frame.
pub fn deserialize_stream(json_str: String) -> (r: Result<DepthData, DecodeError>)
    ensures
        depth_result_model(r) == delta_of(vstd::utf8::encode_utf8(json_str@)),
        r matches Ok(d) ==> d.wf(),
{
    let bytes = json_str.as_str().as_bytes();
    let doc = match parse_document(bytes) {
        None => {
            return Err(DecodeError::Syntax);
        },
        Some(v) => v,
    };
    let ms = match doc {
        JsonValue::Obj(ms) => ms,
        _ => {
            return Err(DecodeError::WrongShape(FieldTag::Document));
        },
    };
    match get_field(&ms, lit_bytes("event")) {
        None => {
            return Err(DecodeError::MissingField(FieldTag::Event));
        },
        Some(v) => match v {
            JsonValue::Str(_) => {},
            _ => {
                return Err(DecodeError::WrongShape(FieldTag::Event));
            },
        },
    }
    let symbol = match get_channel_field(&ms) {
        Ok(s) => s,
        Err(e) => {
            return Err(e);
        },
    };
    let dms = match get_field(&ms, lit_bytes("data")) {
        None => {
            return Err(DecodeError::MissingField(FieldTag::Data));
        },
        Some(v) => match v {
            JsonValue::Obj(dms) => dms,
            _ => {
                return Err(DecodeError::WrongShape(FieldTag::Data));
            },
        },
    };
    let first = match get_u64_str_field(
        dms,
        lit_bytes("timestamp"),
        lit_bytes("first_update_id_timestamp"),
        FieldTag::Timestamp,
    ) {
        Ok(x) => x,
        Err(e) => {
            return Err(e);
        },
    };
    let last = match get_u64_str_field(
        dms,
        lit_bytes("microtimestamp"),
        lit_bytes("last_update_id_timestamp"),
        FieldTag::Microtimestamp,
    ) {
        Ok(x) => x,
        Err(e) => {
            return Err(e);
        },
    };
    let bids = match get_side_field(
        dms,
        lit_bytes("bids"),
        lit_bytes("bid_to_update"),
        FieldTag::Bids,
    ) {
        Ok(x) => x,
        Err(e) => {
            return Err(e);
        },
    };
    let asks = match get_side_field(
        dms,
        lit_bytes("asks"),
        lit_bytes("ask_to_update"),
        FieldTag::Asks,
    ) {
        Ok(x) => x,
        Err(e) => {
            return Err(e);
        },
    };
    Ok(
        DepthData {
            exchange: Exchange::Bitstamp,
            symbol,
            first_update_id_timestamp: first,
            last_update_id_timestamp: last,
            bid_to_update: bids,
            ask_to_update: asks,
        },
    )
}

/// The snapshot a REST order-book document denotes for a given symbol:
/// marker from the quoted `microtimestamp`, and both complete sides.
pub open spec fn snapshot_of(symbol: Seq<char>, bytes: Seq<u8>) -> Result<SnapM, DecodeError> {
    match json_doc(bytes) {
        None => Err(DecodeError::Syntax),
        Some(doc) => match doc {
            JsonM::Obj(ms) => snapshot_of_obj(symbol, ms),
            _ => Err(DecodeError::WrongShape(FieldTag::Document)),
        },
    }
}

pub open spec fn snapshot_of_obj(symbol: Seq<char>, ms: Seq<JsonMemberM>) -> Result<
    SnapM,
    DecodeError,
> {
    match u64_str_field(
        ms,
        "microtimestamp".spec_bytes(),
        "micro_timestamp".spec_bytes(),
        FieldTag::Microtimestamp,
    ) {
        Err(e) => Err(e),
        Ok(ts) => match side_field(
            ms,
            "bids".spec_bytes(),
            "bid_to_update".spec_bytes(),
            FieldTag::Bids,
        ) {
            Err(e) => Err(e),
            Ok(bids) => match side_field(
                ms,
                "asks".spec_bytes(),
                "ask_to_update".spec_bytes(),
                FieldTag::Asks,
            ) {
                Err(e) => Err(e),
                Ok(asks) => Ok(
                    SnapM { exchange: Exchange::Bitstamp, symbol, timestamp: ts, bids, asks },
                ),
            },
        },
    }
}

/// Decode one REST order-book snapshot for `symbol`.
pub fn deserialize_snapshot(symbol: String, json_str: String) -> (r: Result<
    SnapshotData,
    DecodeError,
>)
    ensures
        snap_result_model(r) == snapshot_of(symbol@, vstd::utf8::encode_utf8(json_str@)),
        r matches Ok(d) ==> d.wf(),
{
    let bytes = json_str.as_str().as_bytes();
    let doc = match parse_document(bytes) {
        None => {
            return Err(DecodeError::Syntax);
        },
        Some(v) => v,
    };
    let ms = match doc {
        JsonValue::Obj(ms) => ms,
        _ => {
            return Err(DecodeError::WrongShape(FieldTag::Document));
        },
    };
    let ts = match get_u64_str_field(
        &ms,
        lit_bytes("microtimestamp"),
        lit_bytes("micro_timestamp"),
        FieldTag::Microtimestamp,
    ) {
        Ok(x) => x,
        Err(e) => {
            return Err(e);
        },
    };
    let bids = match get_side_field(
        &ms,
        lit_bytes("bids"),
        lit_bytes("bid_to_update"),
        FieldTag::Bids,
    ) {
        Ok(x) => x,
        Err(e) => {
            return Err(e);
        },
    };
    let asks = match get_side_field(
        &ms,
        lit_bytes("asks"),
        lit_bytes("ask_to_update"),
        FieldTag::Asks,
    ) {
        Ok(x) => x,
        Err(e) => {
            return Err(e);
        },
    };
    Ok(
        SnapshotData {
            exchange: Exchange::Bitstamp,
            symbol,
            timestamp: ts,
            bid_to_update: bids,
            ask_to_update: asks,
        },
    )
}

/// Whether a frame is the subscription acknowledgement: a document whose
/// `event` field is the string `bts:subscription_succeeded`.
pub open spec fn ack_of(bytes: Seq<u8>) -> bool {
    match json_doc(bytes) {
        Some(doc) => match doc {
            JsonM::Obj(ms) => event_field(ms) == Ok::<_, DecodeError>(
                "bts:subscription_succeeded".spec_bytes(),
            ),
            _ => false,
        },
        None => false,
    }
}

/// Recognize the subscription acknowledgement frame.
pub fn is_subscription_ack(json_str: &String) -> (r: bool)
    ensures
        r == ack_of(vstd::utf8::encode_utf8(json_str@)),
{
    let bytes = json_str.as_str().as_bytes();
    let doc = match parse_document(bytes) {
        None => {
            return false;
        },
        Some(v) => v,
    };
    let ms = match doc {
        JsonValue::Obj(ms) => ms,
        _ => {
            return false;
        },
    };
    match get_field(&ms, lit_bytes("event")) {
        None => false,
        Some(v) => match v {
            JsonValue::Str(c) => bytes_eq(c, lit_bytes("bts:subscription_succeeded")),
            _ => false,
        },
    }
}

} // verus!
