//! The Binance decoder: depth-update frames and REST depth snapshots,
//! translated to the canonical delta and snapshot types.

use vstd::prelude::*;

use crate::decode::{
    get_side_field, get_symbol_field, get_u64_field, lit_bytes, side_field, symbol_field,
    u64_field,
};
use crate::json::{json_doc, parse_document, JsonM, JsonMemberM, JsonValue};
use crate::types::{
    depth_result_model, snap_result_model, DecodeError, DepthData, DepthM, Exchange, FieldTag,
    SnapM, SnapshotData,
};

verus! {

use vstd::string::StringSliceAdditionalSpecFns;

/// The delta a depth-update frame denotes: symbol from `s`, sequence
/// range from `U` and `u`, and both change sets, with the long field
/// names admitted as aliases.
pub open spec fn delta_of(bytes: Seq<u8>) -> Result<DepthM, DecodeError> {
    match json_doc(bytes) {
        None => Err(DecodeError::Syntax),
        Some(doc) => match doc {
            JsonM::Obj(ms) => delta_of_obj(ms),
            _ => Err(DecodeError::WrongShape(FieldTag::Document)),
        },
    }
}

pub open spec fn delta_of_obj(ms: Seq<JsonMemberM>) -> Result<DepthM, DecodeError> {
    match symbol_field(ms, "s".spec_bytes(), "symbol".spec_bytes(), FieldTag::Symbol) {
        Err(e) => Err(e),
        Ok(sym) => match u64_field(
            ms,
            "U".spec_bytes(),
            "first_update_id_timestamp".spec_bytes(),
            FieldTag::FirstSeq,
        ) {
            Err(e) => Err(e),
            Ok(first) => match u64_field(
                ms,
                "u".spec_bytes(),
                "last_update_id_timestamp".spec_bytes(),
                FieldTag::LastSeq,
            ) {
                Err(e) => Err(e),
                Ok(last) => match side_field(
                    ms,
                    "b".spec_bytes(),
                    "bid_to_update".spec_bytes(),
                    FieldTag::Bids,
                ) {
                    Err(e) => Err(e),
                    Ok(bids) => match side_field(
                        ms,
                        "a".spec_bytes(),
                        "ask_to_update".spec_bytes(),
                        FieldTag::Asks,
                    ) {
                        Err(e) => Err(e),
                        Ok(asks) => Ok(
                            DepthM {
                                exchange: Exchange::Binance,
                                symbol: sym,
                                first,
                                last,
                                bids,
                                asks,
                            },
                        ),
                    },
                },
            },
        },
    }
}

/// Decode one depth-update frame.
pub fn deserialize_stream(json_str: String) -> (r: Result<DepthData, DecodeError>)
    ensures
        depth_result_model(r) == delta_of(vstd::utf8::encode_utf8(json_str@)),
        r matches Ok(d) ==> d.wf(),
{
    let bytes = json_str.as_str().as_bytes();
    let doc = match parse_document(bytes) {
        None => {
            return Err(DecodeError::Syntax);
        },
        Some(v) => v,
    };
    let ms = match doc {
        JsonValue::Obj(ms) => ms,
        _ => {
            return Err(DecodeError::WrongShape(FieldTag::Document));
        },
    };
    let symbol = match get_symbol_field(
        &ms,
        lit_bytes("s"),
        lit_bytes("symbol"),
        FieldTag::Symbol,
    ) {
        Ok(s) => s,
        Err(e) => {
            return Err(e);
        },
    };
    let first = match get_u64_field(
        &ms,
        lit_bytes("U"),
        lit_bytes("first_update_id_timestamp"),
        FieldTag::FirstSeq,
    ) {
        Ok(x) => x,
        Err(e) => {
            return Err(e);
        },
    };
    let last = match get_u64_field(
        &ms,
        lit_bytes("u"),
        lit_bytes("last_update_id_timestamp"),
        FieldTag::LastSeq,
    ) {
        Ok(x) => x,
        Err(e) => {
            return Err(e);
        },
    };
    let bids = match get_side_field(
        &ms,
        lit_bytes("b"),
        lit_bytes("bid_to_update"),
        FieldTag::Bids,
    ) {
        Ok(x) => x,
        Err(e) => {
            return Err(e);
        },
    };
    let asks = match get_side_field(
        &ms,
        lit_bytes("a"),
        lit_bytes("ask_to_update"),
        FieldTag::Asks,
    ) {
        Ok(x) => x,
        Err(e) => {
            return Err(e);
        },
    };
    Ok(
        DepthData {
            exchange: Exchange::Binance,
            symbol,
            first_update_id_timestamp: first,
            last_update_id_timestamp: last,
            bid_to_update: bids,
            ask_to_update: asks,
        },
    )
}

/// The snapshot a REST depth document denotes for a given symbol:
/// marker from `lastUpdateId`, and both complete sides.
pub open spec fn snapshot_of(symbol: Seq<char>, bytes: Seq<u8>) -> Result<SnapM, DecodeError> {
    match json_doc(bytes) {
        None => Err(DecodeError::Syntax),
        Some(doc) => match doc {
            JsonM::Obj(ms) => snapshot_of_obj(symbol, ms),
            _ => Err(DecodeError::WrongShape(FieldTag::Document)),
        },
    }
}

pub open spec fn snapshot_of_obj(symbol: Seq<char>, ms: Seq<JsonMemberM>) -> Result<
    SnapM,
    DecodeError,
> {
    match u64_field(
        ms,
        "lastUpdateId".spec_bytes(),
        "timestamp".spec_bytes(),
        FieldTag::LastUpdateId,
    ) {
        Err(e) => Err(e),
        Ok(ts) => match side_field(
            ms,
            "bids".spec_bytes(),
            "bid_to_update".spec_bytes(),
            FieldTag::Bids,
        ) {
            Err(e) => Err(e),
            Ok(bids) => match side_field(
                ms,
                "asks".spec_bytes(),
                "ask_to_update".spec_bytes(),
                FieldTag::Asks,
            ) {
                Err(e) => Err(e),
                Ok(asks) => Ok(
                    SnapM { exchange: Exchange::Binance, symbol, timestamp: ts, bids, asks },
                ),
            },
        },
    }
}

/// Decode one REST depth snapshot for `symbol`.
pub fn deserialize_snapshot(symbol: String, json_str: String) -> (r: Result<
    SnapshotData,
    DecodeError,
>)
    ensures
        snap_result_model(r) == snapshot_of(symbol@, vstd::utf8::encode_utf8(json_str@)),
        r matches Ok(d) ==> d.wf(),
{
    let bytes = json_str.as_str().as_bytes();
    let doc = match parse_document(bytes) {
        None => {
            return Err(DecodeError::Syntax);
        },
        Some(v) => v,
    };
    let ms = match doc {
        JsonValue::Obj(ms) => ms,
        _ => {
            return Err(DecodeError::WrongShape(FieldTag::Document));
        },
    };
    let ts = match get_u64_field(
        &ms,
        lit_bytes("lastUpdateId"),
        lit_bytes("timestamp"),
        FieldTag::LastUpdateId,
    ) {
        Ok(x) => x,
        Err(e) => {
            return Err(e);
        },
    };
    let bids = match get_side_field(
        &ms,
        lit_bytes("bids"),
        lit_bytes("bid_to_update"),
        FieldTag::Bids,
    ) {
        Ok(x) => x,
        Err(e) => {
            return Err(e);
        },
    };
    let asks = match get_side_field(
        &ms,
        lit_bytes("asks"),
        lit_bytes("ask_to_update"),
        FieldTag::Asks,
    ) {
        Ok(x) => x,
        Err(e) => {
            return Err(e);
        },
    };
    Ok(
        SnapshotData {
            exchange: Exchange::Binance,
            symbol,
            timestamp: ts,
            bid_to_update: bids,
            ask_to_update: asks,
        },
    )
}

} // verus!
