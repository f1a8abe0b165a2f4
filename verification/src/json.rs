//! A verified JSON reader for the exchange wire formats.
//!
//! The value of a document is given by a recursive specification parser;
//! the executable parser is proved to return exactly that value. Numbers
//! keep their raw lexeme so that decimal text reaches the decimal parser
//! unrounded; strings admit the simple escapes and refuse `\u`, which the
//! exchange frames never carry.

use vstd::prelude::*;

use crate::dec::is_digit;

verus! {

/// A parsed JSON value. Numbers hold their raw lexeme; strings hold
/// their unescaped content bytes; objects keep their members in
/// document order.
#[derive(Debug)]
pub enum JsonValue {
    Null,
    Bool(bool),
    Num(Vec<u8>),
    Str(Vec<u8>),
    Arr(Vec<JsonValue>),
    Obj(Vec<JsonMember>),
}

/// One `"key": value` member of a JSON object.
#[derive(Debug)]
pub struct JsonMember {
    pub key: Vec<u8>,
    pub value: JsonValue,
}

/// The mathematical shape of a JSON value.
pub enum JsonM {
    Null,
    Bool(bool),
    Num(Seq<u8>),
    Str(Seq<u8>),
    Arr(Seq<JsonM>),
    Obj(Seq<JsonMemberM>),
}

/// One member of a modeled JSON object.
pub struct JsonMemberM {
    pub key: Seq<u8>,
    pub value: JsonM,
}

/// The model of a parsed value.
pub open spec fn jm(v: JsonValue) -> JsonM
    decreases v,
{
    match v {
        JsonValue::Null => JsonM::Null,
        JsonValue::Bool(b) => JsonM::Bool(b),
        JsonValue::Num(l) => JsonM::Num(l@),
        JsonValue::Str(c) => JsonM::Str(c@),
        JsonValue::Arr(xs) => JsonM::Arr(jm_arr(xs@)),
        JsonValue::Obj(ms) => JsonM::Obj(jm_members(ms@)),
    }
}

/// The models of an array's elements.
pub open spec fn jm_arr(xs: Seq<JsonValue>) -> Seq<JsonM>
    decreases xs,
{
    if xs.len() == 0 {
        Seq::empty()
    } else {
        jm_arr(xs.drop_last()).push(jm(xs.last()))
    }
}

/// The models of an object's members.
pub open spec fn jm_members(ms: Seq<JsonMember>) -> Seq<JsonMemberM>
    decreases ms,
{
    if ms.len() == 0 {
        Seq::empty()
    } else {
        jm_members(ms.drop_last()).push(
            JsonMemberM { key: ms.last().key@, value: jm(ms.last().value) },
        )
    }
}


/// JSON insignificant whitespace.
pub open spec fn is_ws(b: u8) -> bool {
    b == 0x20 || b == 0x09 || b == 0x0a || b == 0x0d
}

/// The first position at or after `i` holding no whitespace.
pub open spec fn skip_ws(s: Seq<u8>, i: int) -> int
    decreases s.len() - i,
{
    if 0 <= i < s.len() && is_ws(s[i]) {
        skip_ws(s, i + 1)
    } else {
        i
    }
}

/// What a backslash escape denotes, if it is admitted. The `\u` form is
/// not: the wire formats this crate decodes never carry it.
pub open spec fn esc_byte(b: u8) -> Option<u8> {
    if b == 0x22 {
        Some(0x22u8)
    } else if b == 0x5c {
        Some(0x5cu8)
    } else if b == 0x2f {
        Some(0x2fu8)
    } else if b == 0x62 {
        Some(0x08u8)
    } else if b == 0x66 {
        Some(0x0cu8)
    } else if b == 0x6e {
        Some(0x0au8)
    } else if b == 0x72 {
        Some(0x0du8)
    } else if b == 0x74 {
        Some(0x09u8)
    } else {
        None
    }
}

/// The content of a string token, read from just after the opening
/// quote: the unescaped bytes and the position after the closing quote.
pub open spec fn sp_string_body(s: Seq<u8>, i: int) -> Option<(Seq<u8>, int)>
    decreases s.len() - i,
{
    if i < 0 || i >= s.len() {
        None
    } else if s[i] == 0x22 {
        Some((Seq::empty(), i + 1))
    } else if s[i] == 0x5c {
        if i + 1 >= s.len() {
            None
        } else {
            match esc_byte(s[i + 1]) {
                None => None,
                Some(e) => match sp_string_body(s, i + 2) {
                    None => None,
                    Some((c, j)) => Some((seq![e] + c, j)),
                },
            }
        }
    } else if s[i] < 0x20 {
        None
    } else {
        match sp_string_body(s, i + 1) {
            None => None,
            Some((c, j)) => Some((seq![s[i]] + c, j)),
        }
    }
}

/// The first position at or after `i` holding no digit.
pub open spec fn digits_end(s: Seq<u8>, i: int) -> int
    decreases s.len() - i,
{
    if 0 <= i < s.len() && is_digit(s[i]) {
        digits_end(s, i + 1)
    } else {
        i
    }
}

/// An optional exponent after position `j` of a number token that began
/// at `start`: the full lexeme and the position after it.
pub open spec fn sp_number_exp(s: Seq<u8>, start: int, j: int) -> Option<(Seq<u8>, int)> {
    if j < s.len() && (s[j] == 0x65 || s[j] == 0x45) {
        let k = if j + 1 < s.len() && (s[j + 1] == 0x2b || s[j + 1] == 0x2d) {
            j + 2
        } else {
            j + 1
        };
        let k1 = digits_end(s, k);
        if k1 == k {
            None
        } else {
            Some((s.subrange(start, k1), k1))
        }
    } else {
        Some((s.subrange(start, j), j))
    }
}

/// A number token at `i`: its raw lexeme and the position after it.
pub open spec fn sp_number(s: Seq<u8>, i: int) -> Option<(Seq<u8>, int)> {
    let j = if i < s.len() && s[i] == 0x2d {
        i + 1
    } else {
        i
    };
    if j >= s.len() || !is_digit(s[j]) {
        None
    } else {
        let j1 = digits_end(s, j);
        if j1 < s.len() && s[j1] == 0x2e {
            let j2 = digits_end(s, j1 + 1);
            if j2 == j1 + 1 {
                None
            } else {
                sp_number_exp(s, i, j2)
            }
        } else {
            sp_number_exp(s, i, j1)
        }
    }
}

/// The literal `true` at `j`.
pub open spec fn kw_true(s: Seq<u8>, j: int) -> bool {
    j + 4 <= s.len() && s[j] == 0x74 && s[j + 1] == 0x72 && s[j + 2] == 0x75 && s[j + 3] == 0x65
}

/// The literal `false` at `j`.
pub open spec fn kw_false(s: Seq<u8>, j: int) -> bool {
    j + 5 <= s.len() && s[j] == 0x66 && s[j + 1] == 0x61 && s[j + 2] == 0x6c && s[j + 3] == 0x73
        && s[j + 4] == 0x65
}

/// The literal `null` at `j`.
pub open spec fn kw_null(s: Seq<u8>, j: int) -> bool {
    j + 4 <= s.len() && s[j] == 0x6e && s[j + 1] == 0x75 && s[j + 2] == 0x6c && s[j + 3] == 0x6c
}

/// A value at `i`, after whitespace: its model and the position after
/// it. The fuel bounds the nesting the parser descends into; the
/// document reader passes more fuel than any document of its length can
/// consume.
pub open spec fn sp_value(s: Seq<u8>, i: int, fuel: nat) -> Option<(JsonM, int)>
    decreases fuel,
{
    if fuel == 0 {
        None
    } else {
        let j = skip_ws(s, i);
        if j >= s.len() {
            None
        } else {
            let b = s[j];
            if b == 0x7b {
                let k = skip_ws(s, j + 1);
                if k < s.len() && s[k] == 0x7d {
                    Some((JsonM::Obj(Seq::empty()), k + 1))
                } else {
                    match sp_members(s, k, (fuel - 1) as nat) {
                        None => None,
                        Some((ms, m)) => Some((JsonM::Obj(ms), m)),
                    }
                }
            } else if b == 0x5b {
                let k = skip_ws(s, j + 1);
                if k < s.len() && s[k] == 0x5d {
                    Some((JsonM::Arr(Seq::empty()), k + 1))
                } else {
                    match sp_items(s, k, (fuel - 1) as nat) {
                        None => None,
                        Some((vs, m)) => Some((JsonM::Arr(vs), m)),
                    }
                }
            } else if b == 0x22 {
                match sp_string_body(s, j + 1) {
                    None => None,
                    Some((c, m)) => Some((JsonM::Str(c), m)),
                }
            } else if b == 0x2d || is_digit(b) {
                match sp_number(s, j) {
                    None => None,
                    Some((l, m)) => Some((JsonM::Num(l), m)),
                }
            } else if kw_true(s, j) {
                Some((JsonM::Bool(true), j + 4))
            } else if kw_false(s, j) {
                Some((JsonM::Bool(false), j + 5))
            } else if kw_null(s, j) {
                Some((JsonM::Null, j + 4))
            } else {
                None
            }
        }
    }
}

/// One or more comma-separated values ending in `]`.
pub open spec fn sp_items(s: Seq<u8>, i: int, fuel: nat) -> Option<(Seq<JsonM>, int)>
    decreases fuel,
{
    if fuel == 0 {
        None
    } else {
        match sp_value(s, i, (fuel - 1) as nat) {
            None => None,
            Some((v, j)) => {
                let k = skip_ws(s, j);
                if k < s.len() && s[k] == 0x2c {
                    match sp_items(s, k + 1, (fuel - 1) as nat) {
                        None => None,
                        Some((vs, m)) => Some((seq![v] + vs, m)),
                    }
                } else if k < s.len() && s[k] == 0x5d {
                    Some((seq![v], k + 1))
                } else {
                    None
                }
            },
        }
    }
}

/// One or more `"key": value` members ending in `}`.
pub open spec fn sp_members(s: Seq<u8>, i: int, fuel: nat) -> Option<(Seq<JsonMemberM>, int)>
    decreases fuel,
{
    if fuel == 0 {
        None
    } else {
        let j = skip_ws(s, i);
        if !(j < s.len() && s[j] == 0x22) {
            None
        } else {
            match sp_string_body(s, j + 1) {
                None => None,
                Some((key, j1)) => {
                    let k = skip_ws(s, j1);
                    if !(k < s.len() && s[k] == 0x3a) {
                        None
                    } else {
                        match sp_value(s, k + 1, (fuel - 1) as nat) {
                            None => None,
                            Some((v, j2)) => {
                                let m = skip_ws(s, j2);
                                if m < s.len() && s[m] == 0x2c {
                                    match sp_members(s, m + 1, (fuel - 1) as nat) {
                                        None => None,
                                        Some((ms, j3)) => Some(
                                            (seq![JsonMemberM { key, value: v }] + ms, j3),
                                        ),
                                    }
                                } else if m < s.len() && s[m] == 0x7d {
                                    Some((seq![JsonMemberM { key, value: v }], m + 1))
                                } else {
                                    None
                                }
                            },
                        }
                    }
                },
            }
        }
    }
}

/// The model of a whole document: one value, with nothing but
/// whitespace after it.
pub open spec fn json_doc(s: Seq<u8>) -> Option<JsonM> {
    match sp_value(s, 0, (2 * s.len() + 2) as nat) {
        None => None,
        Some((v, j)) => if skip_ws(s, j) == s.len() {
            Some(v)
        } else {
            None
        },
    }
}


/// The model of an executable value-parse result.
pub open spec fn om_value(r: Option<(JsonValue, usize)>) -> Option<(JsonM, int)> {
    match r {
        None => None,
        Some((v, j)) => Some((jm(v), j as int)),
    }
}

/// The model of an executable item-list result.
pub open spec fn om_items(r: Option<(Vec<JsonValue>, usize)>) -> Option<(Seq<JsonM>, int)> {
    match r {
        None => None,
        Some((vs, j)) => Some((jm_arr(vs@), j as int)),
    }
}

/// The model of an executable member-list result.
pub open spec fn om_members(r: Option<(Vec<JsonMember>, usize)>) -> Option<
    (Seq<JsonMemberM>, int),
> {
    match r {
        None => None,
        Some((ms, j)) => Some((jm_members(ms@), j as int)),
    }
}

/// The model of an executable byte-run result.
pub open spec fn om_bytes(r: Option<(Vec<u8>, usize)>) -> Option<(Seq<u8>, int)> {
    match r {
        None => None,
        Some((c, j)) => Some((c@, j as int)),
    }
}

/// Prepending an element prepends its model.
proof fn lemma_jm_arr_prepend(x: JsonValue, xs: Seq<JsonValue>)
    ensures
        jm_arr(seq![x] + xs) == seq![jm(x)] + jm_arr(xs),
    decreases xs.len(),
{
    let s = seq![x] + xs;
    if xs.len() == 0 {
        assert(s =~= seq![x]);
        assert(s.drop_last() =~= Seq::<JsonValue>::empty());
        assert(s.last() == x);
        assert(jm_arr(s) == jm_arr(s.drop_last()).push(jm(x)));
        assert(Seq::<JsonM>::empty().push(jm(x)) =~= seq![jm(x)] + jm_arr(xs));
    } else {
        lemma_jm_arr_prepend(x, xs.drop_last());
        assert(s.drop_last() =~= seq![x] + xs.drop_last());
        assert(s.last() == xs.last());
        assert(jm_arr(s) == (seq![jm(x)] + jm_arr(xs.drop_last())).push(jm(xs.last())));
        assert((seq![jm(x)] + jm_arr(xs.drop_last())).push(jm(xs.last())) =~= seq![jm(x)]
            + jm_arr(xs.drop_last()).push(jm(xs.last())));
        assert(jm_arr(xs) == jm_arr(xs.drop_last()).push(jm(xs.last())));
    }
}

/// Prepending a member prepends its model.
proof fn lemma_jm_members_prepend(x: JsonMember, xs: Seq<JsonMember>)
    ensures
        jm_members(seq![x] + xs) == seq![JsonMemberM { key: x.key@, value: jm(x.value) }]
            + jm_members(xs),
    decreases xs.len(),
{
    let s = seq![x] + xs;
    let xm = JsonMemberM { key: x.key@, value: jm(x.value) };
    if xs.len() == 0 {
        assert(s =~= seq![x]);
        assert(s.drop_last() =~= Seq::<JsonMember>::empty());
        assert(s.last() == x);
        assert(jm_members(s) == jm_members(s.drop_last()).push(xm));
        assert(Seq::<JsonMemberM>::empty().push(xm) =~= seq![xm] + jm_members(xs));
    } else {
        lemma_jm_members_prepend(x, xs.drop_last());
        assert(s.drop_last() =~= seq![x] + xs.drop_last());
        assert(s.last() == xs.last());
        let lm = JsonMemberM { key: xs.last().key@, value: jm(xs.last().value) };
        assert(jm_members(s) == (seq![xm] + jm_members(xs.drop_last())).push(lm));
        assert((seq![xm] + jm_members(xs.drop_last())).push(lm) =~= seq![xm] + jm_members(
            xs.drop_last(),
        ).push(lm));
        assert(jm_members(xs) == jm_members(xs.drop_last()).push(lm));
    }
}

/// Whether the byte at `r` is whitespace.
fn is_ws_at(s: &[u8], r: usize) -> (b: bool)
    requires
        r < s@.len(),
    ensures
        b == is_ws(s@[r as int]),
{
    let c = *vstd::slice::slice_index_get(s, r);
    c == 0x20 || c == 0x09 || c == 0x0a || c == 0x0d
}

/// Whether the byte at `r` is an ASCII digit.
fn is_digit_at(s: &[u8], r: usize) -> (b: bool)
    requires
        r < s@.len(),
    ensures
        b == is_digit(s@[r as int]),
{
    let c = *vstd::slice::slice_index_get(s, r);
    0x30 <= c && c <= 0x39
}

/// Skip whitespace, executably.
fn skip_ws_x(s: &[u8], i: usize) -> (r: usize)
    requires
        i <= s@.len(),
    ensures
        r as int == skip_ws(s@, i as int),
        i <= r <= s@.len(),
{
    let n = s.len();
    let mut r = i;
    while r < n && is_ws_at(s, r)
        invariant
            i <= r <= n == s@.len(),
            skip_ws(s@, i as int) == skip_ws(s@, r as int),
        decreases n - r,
    {
        r = r + 1;
    }
    r
}

/// A string token's content, executably.
fn string_body_x(s: &[u8], i: usize) -> (r: Option<(Vec<u8>, usize)>)
    requires
        i <= s@.len(),
    ensures
        om_bytes(r) == sp_string_body(s@, i as int),
        r matches Some((_, j)) ==> i < j <= s@.len(),
    decreases s@.len() - i,
{
    let n = s.len();
    if i >= n {
        return None;
    }
    let b = *vstd::slice::slice_index_get(s, i);
    if b == 0x22 {
        let empty: Vec<u8> = Vec::new();
        proof {
            assert(empty@ =~= Seq::<u8>::empty());
        }
        Some((empty, i + 1))
    } else if b == 0x5c {
        if i + 1 >= n {
            return None;
        }
        let e = *vstd::slice::slice_index_get(s, i + 1);
        let eb: u8 = if e == 0x22 {
            0x22
        } else if e == 0x5c {
            0x5c
        } else if e == 0x2f {
            0x2f
        } else if e == 0x62 {
            0x08
        } else if e == 0x66 {
            0x0c
        } else if e == 0x6e {
            0x0a
        } else if e == 0x72 {
            0x0d
        } else if e == 0x74 {
            0x09
        } else {
            return None;
        };
        match string_body_x(s, i + 2) {
            None => None,
            Some((mut c, j)) => {
                c.insert(0, eb);
                proof {
                    let rest = sp_string_body(s@, i + 2).unwrap().0;
                    assert(c@ =~= seq![eb] + rest);
                }
                Some((c, j))
            },
        }
    } else if b < 0x20 {
        None
    } else {
        match string_body_x(s, i + 1) {
            None => None,
            Some((mut c, j)) => {
                c.insert(0, b);
                proof {
                    let rest = sp_string_body(s@, i + 1).unwrap().0;
                    assert(c@ =~= seq![b] + rest);
                }
                Some((c, j))
            },
        }
    }
}

/// First non-digit position, executably.
fn digits_end_x(s: &[u8], i: usize) -> (r: usize)
    requires
        i <= s@.len(),
    ensures
        r as int == digits_end(s@, i as int),
        i <= r <= s@.len(),
{
    let n = s.len();
    let mut r = i;
    while r < n && is_digit_at(s, r)
        invariant
            i <= r <= n == s@.len(),
            digits_end(s@, i as int) == digits_end(s@, r as int),
        decreases n - r,
    {
        r = r + 1;
    }
    r
}

/// The scan for digits never moves left.
proof fn lemma_digits_end_lb(s: Seq<u8>, i: int)
    ensures
        digits_end(s, i) >= i,
    decreases s.len() - i,
{
    if 0 <= i < s.len() && is_digit(s[i]) {
        lemma_digits_end_lb(s, i + 1);
    }
}

/// A number token's lexeme, executably.
fn number_x(s: &[u8], i: usize) -> (r: Option<(Vec<u8>, usize)>)
    requires
        i <= s@.len(),
    ensures
        om_bytes(r) == sp_number(s@, i as int),
        r matches Some((_, j)) ==> i < j <= s@.len(),
{
    let n = s.len();
    let j = if i < n && *vstd::slice::slice_index_get(s, i) == 0x2d {
        i + 1
    } else {
        i
    };
    if j >= n {
        return None;
    }
    let bj = *vstd::slice::slice_index_get(s, j);
    if bj < 0x30 || bj > 0x39 {
        return None;
    }
    proof {
        lemma_digits_end_lb(s@, j + 1);
    }
    let j1 = digits_end_x(s, j);
    let j2 = if j1 < n && *vstd::slice::slice_index_get(s, j1) == 0x2e {
        let j2 = digits_end_x(s, j1 + 1);
        if j2 == j1 + 1 {
            return None;
        }
        j2
    } else {
        j1
    };
    // optional exponent
    let end = if j2 < n && {
        let be = *vstd::slice::slice_index_get(s, j2);
        be == 0x65 || be == 0x45
    } {
        let k = if j2 + 1 < n && {
            let bs = *vstd::slice::slice_index_get(s, j2 + 1);
            bs == 0x2b || bs == 0x2d
        } {
            j2 + 2
        } else {
            j2 + 1
        };
        let k1 = digits_end_x(s, k);
        if k1 == k {
            return None;
        }
        k1
    } else {
        j2
    };
    let lex = vstd::slice::slice_to_vec(vstd::slice::slice_subrange(s, i, end));
    Some((lex, end))
}

/// A value, executably.
fn value_x(s: &[u8], i: usize, fuel: u128) -> (r: Option<(JsonValue, usize)>)
    requires
        i <= s@.len(),
    ensures
        om_value(r) == sp_value(s@, i as int, fuel as nat),
        r matches Some((_, j)) ==> j <= s@.len(),
    decreases fuel,
{
    if fuel == 0 {
        return None;
    }
    let n = s.len();
    let j = skip_ws_x(s, i);
    if j >= n {
        return None;
    }
    let b = *vstd::slice::slice_index_get(s, j);
    if b == 0x7b {
        let k = skip_ws_x(s, j + 1);
        if k < n && *vstd::slice::slice_index_get(s, k) == 0x7d {
            let ms: Vec<JsonMember> = Vec::new();
            proof {
                assert(jm_members(ms@) =~= Seq::<JsonMemberM>::empty());
            }
            Some((JsonValue::Obj(ms), k + 1))
        } else {
            match members_x(s, k, fuel - 1) {
                None => None,
                Some((ms, m)) => Some((JsonValue::Obj(ms), m)),
            }
        }
    } else if b == 0x5b {
        let k = skip_ws_x(s, j + 1);
        if k < n && *vstd::slice::slice_index_get(s, k) == 0x5d {
            let vs: Vec<JsonValue> = Vec::new();
            proof {
                assert(jm_arr(vs@) =~= Seq::<JsonM>::empty());
            }
            Some((JsonValue::Arr(vs), k + 1))
        } else {
            match items_x(s, k, fuel - 1) {
                None => None,
                Some((vs, m)) => Some((JsonValue::Arr(vs), m)),
            }
        }
    } else if b == 0x22 {
        match string_body_x(s, j + 1) {
            None => None,
            Some((c, m)) => Some((JsonValue::Str(c), m)),
        }
    } else if b == 0x2d || (0x30 <= b && b <= 0x39) {
        match number_x(s, j) {
            None => None,
            Some((l, m)) => Some((JsonValue::Num(l), m)),
        }
    } else if b == 0x74 && n - j >= 4 && *vstd::slice::slice_index_get(s, j + 1) == 0x72
        && *vstd::slice::slice_index_get(s, j + 2) == 0x75 && *vstd::slice::slice_index_get(
        s,
        j + 3,
    ) == 0x65 {
        Some((JsonValue::Bool(true), j + 4))
    } else if b == 0x66 && n - j >= 5 && *vstd::slice::slice_index_get(s, j + 1) == 0x61
        && *vstd::slice::slice_index_get(s, j + 2) == 0x6c && *vstd::slice::slice_index_get(
        s,
        j + 3,
    ) == 0x73 && *vstd::slice::slice_index_get(s, j + 4) == 0x65 {
        Some((JsonValue::Bool(false), j + 5))
    } else if b == 0x6e && n - j >= 4 && *vstd::slice::slice_index_get(s, j + 1) == 0x75
        && *vstd::slice::slice_index_get(s, j + 2) == 0x6c && *vstd::slice::slice_index_get(
        s,
        j + 3,
    ) == 0x6c {
        Some((JsonValue::Null, j + 4))
    } else {
        None
    }
}

/// An array's items, executably.
fn items_x(s: &[u8], i: usize, fuel: u128) -> (r: Option<(Vec<JsonValue>, usize)>)
    requires
        i <= s@.len(),
    ensures
        om_items(r) == sp_items(s@, i as int, fuel as nat),
        r matches Some((_, j)) ==> j <= s@.len(),
    decreases fuel,
{
    if fuel == 0 {
        return None;
    }
    let n = s.len();
    match value_x(s, i, fuel - 1) {
        None => None,
        Some((v, j)) => {
            let k = skip_ws_x(s, j);
            if k < n && *vstd::slice::slice_index_get(s, k) == 0x2c {
                match items_x(s, k + 1, fuel - 1) {
                    None => None,
                    Some((mut vs, m)) => {
                        let ghost tail = vs@;
                        vs.insert(0, v);
                        proof {
                            assert(vs@ =~= seq![v] + tail);
                            lemma_jm_arr_prepend(v, tail);
                        }
                        Some((vs, m))
                    },
                }
            } else if k < n && *vstd::slice::slice_index_get(s, k) == 0x5d {
                let mut vs: Vec<JsonValue> = Vec::new();
                vs.push(v);
                proof {
                    assert(vs@ =~= seq![v]);
                    assert(vs@.drop_last() =~= Seq::<JsonValue>::empty());
                    assert(vs@.last() == v);
                    assert(jm_arr(vs@) == jm_arr(vs@.drop_last()).push(jm(v)));
                    assert(Seq::<JsonM>::empty().push(jm(v)) =~= seq![jm(v)]);
                }
                Some((vs, k + 1))
            } else {
                None
            }
        },
    }
}

/// An object's members, executably.
fn members_x(s: &[u8], i: usize, fuel: u128) -> (r: Option<(Vec<JsonMember>, usize)>)
    requires
        i <= s@.len(),
    ensures
        om_members(r) == sp_members(s@, i as int, fuel as nat),
        r matches Some((_, j)) ==> j <= s@.len(),
    decreases fuel,
{
    if fuel == 0 {
        return None;
    }
    let n = s.len();
    let j = skip_ws_x(s, i);
    if !(j < n && *vstd::slice::slice_index_get(s, j) == 0x22) {
        return None;
    }
    match string_body_x(s, j + 1) {
        None => None,
        Some((key, j1)) => {
            let k = skip_ws_x(s, j1);
            if !(k < n && *vstd::slice::slice_index_get(s, k) == 0x3a) {
                return None;
            }
            match value_x(s, k + 1, fuel - 1) {
                None => None,
                Some((v, j2)) => {
                    let m = skip_ws_x(s, j2);
                    if m < n && *vstd::slice::slice_index_get(s, m) == 0x2c {
                        match members_x(s, m + 1, fuel - 1) {
                            None => None,
                            Some((mut ms, j3)) => {
                                let ghost tail = ms@;
                                let head = JsonMember { key, value: v };
                                ms.insert(0, head);
                                proof {
                                    assert(ms@ =~= seq![head] + tail);
                                    lemma_jm_members_prepend(head, tail);
                                }
                                Some((ms, j3))
                            },
                        }
                    } else if m < n && *vstd::slice::slice_index_get(s, m) == 0x7d {
                        let mut ms: Vec<JsonMember> = Vec::new();
                        let head = JsonMember { key, value: v };
                        ms.push(head);
                        proof {
                            let hm = JsonMemberM { key: head.key@, value: jm(head.value) };
                            assert(ms@ =~= seq![head]);
                            assert(ms@.drop_last() =~= Seq::<JsonMember>::empty());
                            assert(ms@.last() == head);
                            assert(jm_members(ms@) == jm_members(ms@.drop_last()).push(hm));
                            assert(Seq::<JsonMemberM>::empty().push(hm) =~= seq![hm]);
                        }
                        Some((ms, m + 1))
                    } else {
                        None
                    }
                },
            }
        },
    }
}

/// Parse a whole document: one value with only whitespace after it.
pub fn parse_document(s: &[u8]) -> (r: Option<JsonValue>)
    ensures
        match r {
            None => json_doc(s@) is None,
            Some(v) => json_doc(s@) == Some(jm(v)),
        },
{
    let fuel: u128 = 2 * (s.len() as u128) + 2;
    match value_x(s, 0, fuel) {
        None => None,
        Some((v, j)) => {
            if skip_ws_x(s, j) == s.len() {
                Some(v)
            } else {
                None
            }
        },
    }
}

} // verus!
