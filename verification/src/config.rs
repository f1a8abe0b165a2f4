//! Per-symbol endpoint text: the snapshot query, the stream path, and
//! the subscription payload that the connectors are configured with.

use vstd::prelude::*;

use crate::decode::{all_ascii, ascii_chars, ascii_string, lower_ascii, to_lower_bytes};

verus! {

use vstd::string::StringExecFns;
use vstd::string::StringSliceAdditionalSpecFns;

/// The decimal digits of a number, most significant first.
pub open spec fn dec_digits_of(n: nat) -> Seq<u8>
    decreases n,
{
    if n < 10 {
        seq![(0x30 + n) as u8]
    } else {
        dec_digits_of(n / 10).push((0x30 + n % 10) as u8)
    }
}

/// Every digit byte is ASCII.
pub proof fn lemma_dec_digits_ascii(n: nat)
    ensures
        all_ascii(dec_digits_of(n)),
    decreases n,
{
    if n < 10 {
        assert(dec_digits_of(n)[0] < 0x80);
    } else {
        lemma_dec_digits_ascii(n / 10);
        let d = dec_digits_of(n);
        assert forall|i: int| 0 <= i < d.len() implies (#[trigger] d[i]) < 0x80 by {
            if i < d.len() - 1 {
                assert(d[i] == dec_digits_of(n / 10)[i]);
            }
        }
    }
}

/// The decimal digits of a number, executably.
pub fn u32_digits(n: u32) -> (r: Vec<u8>)
    ensures
        r@ == dec_digits_of(n as nat),
    decreases n,
{
    if n < 10 {
        let mut v: Vec<u8> = Vec::new();
        v.push(0x30 + (n as u8));
        proof {
            assert(v@ =~= dec_digits_of(n as nat));
        }
        v
    } else {
        let mut v = u32_digits(n / 10);
        v.push(0x30 + ((n % 10) as u8));
        proof {
            assert(v@ =~= dec_digits_of(n as nat));
        }
        v
    }
}

/// The decimal digits of a number, as text.
pub fn u32_text(n: u32) -> (r: String)
    ensures
        r@ == ascii_chars(dec_digits_of(n as nat)),
{
    proof {
        lemma_dec_digits_ascii(n as nat);
    }
    match ascii_string(u32_digits(n)) {
        Some(s) => s,
        None => String::from_str(""),
    }
}

/// The snapshot query for one symbol: `symbol=<SYM>&limit=<depth>`.
pub fn binance_snapshot_query(symbol: &String, depth: u32) -> (r: String)
    ensures
        r@ == "symbol="@ + symbol@ + "&limit="@ + ascii_chars(dec_digits_of(depth as nat)),
{
    let mut s = String::from_str("symbol=");
    s.append(symbol.as_str());
    s.append("&limit=");
    let d = u32_text(depth);
    s.append(d.as_str());
    s
}

/// The stream path for one symbol: `/ws/<sym>@depth@<rate>ms`, with the
/// symbol lowered to the wire's case. The symbol must be ASCII.
pub fn binance_stream_path(symbol: &String, rate_ms: u32) -> (r: Option<String>)
    ensures
        all_ascii(vstd::utf8::encode_utf8(symbol@)) ==> (r matches Some(s) && s@ == "/ws/"@
            + ascii_chars(lower_ascii(vstd::utf8::encode_utf8(symbol@))) + "@depth@"@
            + ascii_chars(dec_digits_of(rate_ms as nat)) + "ms"@),
{
    let sb = symbol.as_str().as_bytes();
    let lowered = to_lower_bytes(&vstd::slice::slice_to_vec(sb));
    proof {
        if all_ascii(vstd::utf8::encode_utf8(symbol@)) {
            assert(forall|i: int|
                0 <= i < lowered@.len() ==> (#[trigger] lowered@[i]) < 0x80);
        }
    }
    match ascii_string(lowered) {
        None => None,
        Some(low) => {
            let mut s = String::from_str("/ws/");
            s.append(low.as_str());
            s.append("@depth@");
            let d = u32_text(rate_ms);
            s.append(d.as_str());
            s.append("ms");
            Some(s)
        },
    }
}

/// The channel-subscription payload for one symbol.
pub fn bitstamp_subscribe_payload(symbol: &String) -> (r: String)
    ensures
        r@ == "{\"event\": \"bts:subscribe\", \"data\": { \"channel\": \"order_book_"@ + symbol@
            + "\" } }"@,
{
    let mut s = String::from_str("{\"event\": \"bts:subscribe\", \"data\": { \"channel\": \"order_book_");
    s.append(symbol.as_str());
    s.append("\" } }");
    s
}

} // verus!
