//! Shared decoding machinery: object field lookup, numeric field
//! reading, price-level tables, and ASCII symbol strings.

use vstd::prelude::*;

use crate::dec::{all_digits, dec_of_bytes, digits_val, lemma_digits_val_prefix_le,
    lemma_digits_val_nonneg, Dec};
use crate::json::{jm, jm_arr, jm_members, JsonM, JsonMember, JsonMemberM, JsonValue};
use crate::side::{set_level, side_wf, BookSide, Level2};
use crate::types::{DecodeError, FieldTag};

verus! {

use vstd::string::StringSliceAdditionalSpecFns;

/// Indexing the model of a member list is modeling the indexed member.
pub proof fn lemma_jm_members_index(ms: Seq<JsonMember>, i: int)
    requires
        0 <= i < ms.len(),
    ensures
        jm_members(ms).len() == ms.len(),
        jm_members(ms)[i] == (JsonMemberM { key: ms[i].key@, value: jm(ms[i].value) }),
    decreases ms.len(),
{
    if ms.len() > 0 {
        if i < ms.len() - 1 {
            lemma_jm_members_index(ms.drop_last(), i);
        } else {
            if ms.len() > 1 {
                lemma_jm_members_index(ms.drop_last(), 0);
            }
        }
        assert(jm_members(ms).len() == jm_members(ms.drop_last()).len() + 1);
    }
}

/// The model of a member list has the list's length.
pub proof fn lemma_jm_members_len(ms: Seq<JsonMember>)
    ensures
        jm_members(ms).len() == ms.len(),
    decreases ms.len(),
{
    if ms.len() > 0 {
        lemma_jm_members_len(ms.drop_last());
    }
}

/// Indexing the model of an element list is modeling the indexed element.
pub proof fn lemma_jm_arr_index(xs: Seq<JsonValue>, i: int)
    requires
        0 <= i < xs.len(),
    ensures
        jm_arr(xs).len() == xs.len(),
        jm_arr(xs)[i] == jm(xs[i]),
    decreases xs.len(),
{
    if xs.len() > 0 {
        if i < xs.len() - 1 {
            lemma_jm_arr_index(xs.drop_last(), i);
        } else {
            if xs.len() > 1 {
                lemma_jm_arr_index(xs.drop_last(), 0);
            }
        }
        assert(jm_arr(xs).len() == jm_arr(xs.drop_last()).len() + 1);
    }
}

/// The model of an element list has the list's length.
pub proof fn lemma_jm_arr_len(xs: Seq<JsonValue>)
    ensures
        jm_arr(xs).len() == xs.len(),
    decreases xs.len(),
{
    if xs.len() > 0 {
        lemma_jm_arr_len(xs.drop_last());
    }
}

/// The value of the first member named `key`, if any.
pub open spec fn obj_get(ms: Seq<JsonMemberM>, key: Seq<u8>) -> Option<JsonM>
    decreases ms.len(),
{
    if ms.len() == 0 {
        None
    } else if ms[0].key == key {
        Some(ms[0].value)
    } else {
        obj_get(ms.drop_first(), key)
    }
}

/// The value of the first member named `key`, else the first named
/// `alias`: serde-style field aliasing.
pub open spec fn obj_get2(ms: Seq<JsonMemberM>, key: Seq<u8>, alias: Seq<u8>) -> Option<JsonM> {
    match obj_get(ms, key) {
        Some(v) => Some(v),
        None => obj_get(ms, alias),
    }
}

/// Whether two byte strings are equal.
pub fn bytes_eq(a: &Vec<u8>, b: &[u8]) -> (r: bool)
    ensures
        r == (a@ == b@),
{
    let n = a.len();
    if n != b.len() {
        return false;
    }
    let mut i: usize = 0;
    while i < n
        invariant
            i <= n == a@.len() == b@.len(),
            forall|k: int| 0 <= k < i ==> a@[k] == b@[k],
        decreases n - i,
    {
        if a[i] != *vstd::slice::slice_index_get(b, i) {
            return false;
        }
        i = i + 1;
    }
    proof {
        assert(a@ =~= b@);
    }
    true
}

/// Look a field up by name in a parsed object.
pub fn get_field<'a>(ms: &'a Vec<JsonMember>, name: &[u8]) -> (r: Option<&'a JsonValue>)
    ensures
        match r {
            Some(v) => obj_get(jm_members(ms@), name@) == Some(jm(*v)),
            None => obj_get(jm_members(ms@), name@) is None,
        },
{
    let ghost mm = jm_members(ms@);
    proof {
        lemma_jm_members_len(ms@);
        assert(mm.skip(0) =~= mm);
    }
    let n = ms.len();
    let mut i: usize = 0;
    while i < n
        invariant
            i <= n == ms@.len() == mm.len(),
            mm == jm_members(ms@),
            forall|k: int| 0 <= k < i ==> (#[trigger] mm[k]).key != name@,
            obj_get(mm, name@) == obj_get(mm.skip(i as int), name@),
        decreases n - i,
    {
        proof {
            lemma_jm_members_index(ms@, i as int);
            assert(mm.skip(i as int)[0] == mm[i as int]);
            assert(mm.skip(i as int).drop_first() =~= mm.skip(i + 1));
        }
        if bytes_eq(&ms[i].key, name) {
            return Some(&ms[i].value);
        }
        i = i + 1;
    }
    proof {
        assert(mm.skip(n as int) =~= Seq::<JsonMemberM>::empty());
    }
    None
}

/// Look a field up by name, then by alias.
pub fn get_field2<'a>(ms: &'a Vec<JsonMember>, name: &[u8], alias: &[u8]) -> (r: Option<
    &'a JsonValue,
>)
    ensures
        match r {
            Some(v) => obj_get2(jm_members(ms@), name@, alias@) == Some(jm(*v)),
            None => obj_get2(jm_members(ms@), name@, alias@) is None,
        },
{
    match get_field(ms, name) {
        Some(v) => Some(v),
        None => get_field(ms, alias),
    }
}

/// The unsigned integer a digit run denotes, if it is one and fits.
pub open spec fn u64_of_lexeme(l: Seq<u8>) -> Option<u64> {
    if l.len() >= 1 && all_digits(l) && digits_val(l) <= u64::MAX {
        Some(digits_val(l) as u64)
    } else {
        None
    }
}

/// Read a `u64` out of a digit run.
pub fn u64_from_bytes(l: &Vec<u8>) -> (r: Option<u64>)
    ensures
        r == u64_of_lexeme(l@),
{
    let n = l.len();
    if n == 0 {
        return None;
    }
    let mut acc: u128 = 0;
    let mut i: usize = 0;
    while i < n
        invariant
            i <= n == l@.len(),
            forall|k: int| 0 <= k < i ==> crate::dec::is_digit(#[trigger] l@[k]),
            acc <= u64::MAX,
            acc == digits_val(l@.take(i as int)),
        decreases n - i,
    {
        let b = l[i];
        if b < 0x30 || b > 0x39 {
            proof {
                assert(!crate::dec::is_digit(l@[i as int]));
            }
            return None;
        }
        proof {
            assert(l@.take(i + 1).drop_last() =~= l@.take(i as int));
            assert(l@.take(i + 1).last() == l@[i as int]);
        }
        let next: u128 = acc * 10 + ((b - 0x30) as u128);
        if next > u64::MAX as u128 {
            proof {
                assert(digits_val(l@.take(i + 1)) == next);
                if all_digits(l@) {
                    lemma_digits_val_prefix_le(l@, i + 1);
                }
            }
            return None;
        }
        acc = next;
        i = i + 1;
    }
    proof {
        assert(l@.take(n as int) =~= l@);
    }
    Some(acc as u64)
}

/// The decimal a JSON value denotes: a quoted decimal literal or a bare
/// number lexeme.
pub open spec fn dec_of_value(v: JsonM) -> Option<Dec> {
    match v {
        JsonM::Str(c) => dec_of_bytes(c),
        JsonM::Num(l) => dec_of_bytes(l),
        _ => None,
    }
}

/// Read a decimal out of a JSON value.
pub fn dec_from_value(v: &JsonValue) -> (r: Option<Dec>)
    ensures
        r == dec_of_value(jm(*v)),
        r matches Some(d) ==> d.wf(),
{
    match v {
        JsonValue::Str(c) => Dec::from_bytes(c.as_slice()),
        JsonValue::Num(l) => Dec::from_bytes(l.as_slice()),
        _ => None,
    }
}

/// A side built from rows of `[price, volume]` pairs, applied in order
/// with later rows overwriting earlier ones at the same price; the first
/// malformed row decides the error.
pub open spec fn side_of_rows(rows: Seq<JsonM>, tag: FieldTag) -> Result<Seq<Level2>, DecodeError>
    decreases rows.len(),
{
    if rows.len() == 0 {
        Ok(Seq::empty())
    } else {
        match side_of_rows(rows.drop_last(), tag) {
            Err(e) => Err(e),
            Ok(acc) => match rows.last() {
                JsonM::Arr(xs) => {
                    if xs.len() != 2 {
                        Err(DecodeError::WrongShape(tag))
                    } else {
                        match dec_of_value(xs[0]) {
                            None => Err(DecodeError::MalformedNumber(tag)),
                            Some(p) => match dec_of_value(xs[1]) {
                                None => Err(DecodeError::MalformedNumber(tag)),
                                Some(v) => Ok(set_level(acc, p, v)),
                            },
                        }
                    }
                },
                _ => Err(DecodeError::WrongShape(tag)),
            },
        }
    }
}

/// Build one side of a book from parsed rows.
pub fn side_from_rows(rows: &Vec<JsonValue>, tag: FieldTag) -> (r: Result<BookSide, DecodeError>)
    ensures
        match r {
            Ok(side) => side.wf() && side_of_rows(jm_arr(rows@), tag) == Ok::<_, DecodeError>(
                side@,
            ),
            Err(e) => side_of_rows(jm_arr(rows@), tag) == Err::<Seq<Level2>, _>(e),
        },
{
    let ghost rm = jm_arr(rows@);
    proof {
        lemma_jm_arr_len(rows@);
    }
    let mut side = BookSide::new();
    let n = rows.len();
    let mut i: usize = 0;
    proof {
        assert(rm.take(0) =~= Seq::<JsonM>::empty());
    }
    while i < n
        invariant
            i <= n == rows@.len() == rm.len(),
            rm == jm_arr(rows@),
            side.wf(),
            side_of_rows(rm.take(i as int), tag) == Ok::<_, DecodeError>(side@),
        decreases n - i,
    {
        proof {
            lemma_jm_arr_index(rows@, i as int);
            assert(rm.take(i + 1).drop_last() =~= rm.take(i as int));
            assert(rm.take(i + 1).last() == rm[i as int]);
        }
        let row = &rows[i];
        match row {
            JsonValue::Arr(xs) => {
                if xs.len() != 2 {
                    proof {
                        lemma_jm_arr_len(xs@);
                        lemma_side_of_rows_err_stable(rm, i + 1, tag, DecodeError::WrongShape(tag));
                    }
                    return Err(DecodeError::WrongShape(tag));
                }
                proof {
                    lemma_jm_arr_index(xs@, 0);
                    lemma_jm_arr_index(xs@, 1);
                }
                let p = match dec_from_value(&xs[0]) {
                    Some(p) => p,
                    None => {
                        proof {
                            lemma_side_of_rows_err_stable(
                                rm,
                                i + 1,
                                tag,
                                DecodeError::MalformedNumber(tag),
                            );
                        }
                        return Err(DecodeError::MalformedNumber(tag));
                    },
                };
                let v = match dec_from_value(&xs[1]) {
                    Some(v) => v,
                    None => {
                        proof {
                            lemma_side_of_rows_err_stable(
                                rm,
                                i + 1,
                                tag,
                                DecodeError::MalformedNumber(tag),
                            );
                        }
                        return Err(DecodeError::MalformedNumber(tag));
                    },
                };
                side.set(p, v);
            },
            _ => {
                proof {
                    lemma_side_of_rows_err_stable(rm, i + 1, tag, DecodeError::WrongShape(tag));
                }
                return Err(DecodeError::WrongShape(tag));
            },
        }
        i = i + 1;
    }
    proof {
        assert(rm.take(n as int) =~= rm);
    }
    Ok(side)
}

/// Once a prefix of the rows errs, the whole row list errs the same way.
proof fn lemma_side_of_rows_err_stable(rm: Seq<JsonM>, i: int, tag: FieldTag, e: DecodeError)
    requires
        0 <= i <= rm.len(),
        side_of_rows(rm.take(i), tag) == Err::<Seq<Level2>, _>(e),
    ensures
        side_of_rows(rm, tag) == Err::<Seq<Level2>, _>(e),
    decreases rm.len() - i,
{
    if i < rm.len() {
        assert(rm.take(i + 1).drop_last() =~= rm.take(i));
        lemma_side_of_rows_err_stable(rm, i + 1, tag, e);
    } else {
        assert(rm.take(i) =~= rm);
    }
}


/// Every byte is ASCII.
pub open spec fn all_ascii(s: Seq<u8>) -> bool {
    forall|i: int| 0 <= i < s.len() ==> (#[trigger] s[i]) < 0x80
}

/// The characters of a run of ASCII bytes.
pub open spec fn ascii_chars(s: Seq<u8>) -> Seq<char> {
    Seq::new(s.len(), |i: int| s[i] as char)
}

/// Relies on String::from_utf8: a vector of ASCII bytes is valid UTF-8
/// and decodes to the string of exactly those characters, one per byte.
#[verifier::external_body]
fn string_from_utf8_bytes(b: Vec<u8>) -> (r: Option<String>)
    ensures
        match r {
            Some(s) => all_ascii(b@) ==> s@ == ascii_chars(b@),
            None => !all_ascii(b@),
        },
{
    match String::from_utf8(b) {
        Ok(s) => Some(s),
        Err(_) => None,
    }
}

/// The string of a run of bytes, when every byte is ASCII.
pub fn ascii_string(b: Vec<u8>) -> (r: Option<String>)
    ensures
        all_ascii(b@) ==> (r matches Some(s) && s@ == ascii_chars(b@)),
        !all_ascii(b@) ==> r is None,
{
    let n = b.len();
    let mut i: usize = 0;
    while i < n
        invariant
            i <= n == b@.len(),
            forall|k: int| 0 <= k < i ==> (#[trigger] b@[k]) < 0x80,
        decreases n - i,
    {
        if b[i] >= 0x80 {
            return None;
        }
        i = i + 1;
    }
    string_from_utf8_bytes(b)
}

/// ASCII lower-case letters raised to upper case; other bytes unchanged.
pub open spec fn upper_ascii(s: Seq<u8>) -> Seq<u8> {
    Seq::new(
        s.len(),
        |i: int|
            if 0x61 <= s[i] <= 0x7a {
                (s[i] - 0x20) as u8
            } else {
                s[i]
            },
    )
}

/// Raise ASCII letters to upper case.
pub fn to_upper_bytes(b: &Vec<u8>) -> (r: Vec<u8>)
    ensures
        r@ == upper_ascii(b@),
{
    let n = b.len();
    let mut r: Vec<u8> = Vec::new();
    let mut i: usize = 0;
    while i < n
        invariant
            i <= n == b@.len(),
            r@.len() == i,
            forall|k: int| 0 <= k < i ==> r@[k] == upper_ascii(b@)[k],
        decreases n - i,
    {
        let c = b[i];
        if 0x61 <= c && c <= 0x7a {
            r.push(c - 0x20);
        } else {
            r.push(c);
        }
        i = i + 1;
    }
    proof {
        assert(r@ =~= upper_ascii(b@));
    }
    r
}

/// The bytes with a leading `p` removed, when they start with it.
pub open spec fn strip_prefix_spec(s: Seq<u8>, p: Seq<u8>) -> Seq<u8> {
    if p.len() <= s.len() && s.take(p.len() as int) == p {
        s.skip(p.len() as int)
    } else {
        s
    }
}

/// Remove a leading prefix, if present.
pub fn strip_prefix(b: &Vec<u8>, p: &[u8]) -> (r: Vec<u8>)
    ensures
        r@ == strip_prefix_spec(b@, p@),
{
    let n = b.len();
    let m = p.len();
    let mut starts = m <= n;
    let mut i: usize = 0;
    while starts && i < m
        invariant
            i <= m == p@.len(),
            starts ==> m <= n == b@.len(),
            starts ==> forall|k: int| 0 <= k < i ==> b@[k] == p@[k],
            !starts ==> !(p@.len() <= b@.len() && b@.take(p@.len() as int) == p@),
        decreases m - i,
    {
        if b[i] != *vstd::slice::slice_index_get(p, i) {
            proof {
                assert(b@.take(p@.len() as int)[i as int] == b@[i as int]);
            }
            starts = false;
            i = m;
        } else {
            i = i + 1;
        }
    }
    if starts {
        proof {
            assert(b@.take(p@.len() as int) =~= p@);
        }
        let mut r: Vec<u8> = Vec::new();
        let mut j: usize = m;
        while j < n
            invariant
                m <= j <= n == b@.len(),
                m == p@.len(),
                r@.len() == j - m,
                forall|k: int| 0 <= k < j - m ==> r@[k] == b@[k + m],
            decreases n - j,
        {
            r.push(b[j]);
            j = j + 1;
        }
        proof {
            assert(r@ =~= b@.skip(p@.len() as int));
        }
        r
    } else {
        let mut r: Vec<u8> = Vec::new();
        let mut j: usize = 0;
        while j < n
            invariant
                j <= n == b@.len(),
                r@.len() == j,
                forall|k: int| 0 <= k < j ==> r@[k] == b@[k],
            decreases n - j,
        {
            r.push(b[j]);
            j = j + 1;
        }
        proof {
            assert(r@ =~= b@);
        }
        r
    }
}

/// A copy of a byte vector.
pub fn clone_bytes(b: &Vec<u8>) -> (r: Vec<u8>)
    ensures
        r@ == b@,
{
    let n = b.len();
    let mut r: Vec<u8> = Vec::new();
    let mut i: usize = 0;
    while i < n
        invariant
            i <= n == b@.len(),
            r@.len() == i,
            forall|k: int| 0 <= k < i ==> r@[k] == b@[k],
        decreases n - i,
    {
        r.push(b[i]);
        i = i + 1;
    }
    proof {
        assert(r@ =~= b@);
    }
    r
}

/// The bytes of a string literal.
pub fn lit_bytes(s: &str) -> (r: &[u8])
    ensures
        r@ == s.spec_bytes(),
{
    s.as_bytes()
}

/// An unsigned sequence field holding a bare number.
pub open spec fn u64_field(ms: Seq<JsonMemberM>, key: Seq<u8>, alias: Seq<u8>, tag: FieldTag) -> Result<u64, DecodeError> {
    match obj_get2(ms, key, alias) {
        None => Err(DecodeError::MissingField(tag)),
        Some(JsonM::Num(l)) => match u64_of_lexeme(l) {
            None => Err(DecodeError::MalformedNumber(tag)),
            Some(v) => Ok(v),
        },
        Some(_) => Err(DecodeError::WrongShape(tag)),
    }
}

/// Read an unsigned field holding a bare number.
pub fn get_u64_field(ms: &Vec<JsonMember>, key: &[u8], alias: &[u8], tag: FieldTag) -> (r: Result<
    u64,
    DecodeError,
>)
    ensures
        r == u64_field(jm_members(ms@), key@, alias@, tag),
{
    match get_field2(ms, key, alias) {
        None => Err(DecodeError::MissingField(tag)),
        Some(v) => match v {
            JsonValue::Num(l) => match u64_from_bytes(l) {
                None => Err(DecodeError::MalformedNumber(tag)),
                Some(x) => Ok(x),
            },
            _ => Err(DecodeError::WrongShape(tag)),
        },
    }
}

/// An unsigned field holding a quoted digit run.
pub open spec fn u64_str_field(ms: Seq<JsonMemberM>, key: Seq<u8>, alias: Seq<u8>, tag: FieldTag) -> Result<u64, DecodeError> {
    match obj_get2(ms, key, alias) {
        None => Err(DecodeError::MissingField(tag)),
        Some(JsonM::Str(c)) => match u64_of_lexeme(c) {
            None => Err(DecodeError::MalformedNumber(tag)),
            Some(v) => Ok(v),
        },
        Some(_) => Err(DecodeError::WrongShape(tag)),
    }
}

/// Read an unsigned field holding a quoted digit run.
pub fn get_u64_str_field(ms: &Vec<JsonMember>, key: &[u8], alias: &[u8], tag: FieldTag) -> (r:
    Result<u64, DecodeError>)
    ensures
        r == u64_str_field(jm_members(ms@), key@, alias@, tag),
{
    match get_field2(ms, key, alias) {
        None => Err(DecodeError::MissingField(tag)),
        Some(v) => match v {
            JsonValue::Str(c) => match u64_from_bytes(c) {
                None => Err(DecodeError::MalformedNumber(tag)),
                Some(x) => Ok(x),
            },
            _ => Err(DecodeError::WrongShape(tag)),
        },
    }
}

/// A side field holding rows of `[price, volume]` pairs.
pub open spec fn side_field(ms: Seq<JsonMemberM>, key: Seq<u8>, alias: Seq<u8>, tag: FieldTag) -> Result<Seq<Level2>, DecodeError> {
    match obj_get2(ms, key, alias) {
        None => Err(DecodeError::MissingField(tag)),
        Some(JsonM::Arr(rows)) => side_of_rows(rows, tag),
        Some(_) => Err(DecodeError::WrongShape(tag)),
    }
}

/// Read a side field.
pub fn get_side_field(ms: &Vec<JsonMember>, key: &[u8], alias: &[u8], tag: FieldTag) -> (r: Result<
    BookSide,
    DecodeError,
>)
    ensures
        match r {
            Ok(side) => side.wf() && side_field(jm_members(ms@), key@, alias@, tag) == Ok::<
                _,
                DecodeError,
            >(side@),
            Err(e) => side_field(jm_members(ms@), key@, alias@, tag) == Err::<Seq<Level2>, _>(e),
        },
{
    match get_field2(ms, key, alias) {
        None => Err(DecodeError::MissingField(tag)),
        Some(v) => match v {
            JsonValue::Arr(rows) => side_from_rows(rows, tag),
            _ => Err(DecodeError::WrongShape(tag)),
        },
    }
}

/// A symbol field holding an ASCII string.
pub open spec fn symbol_field(ms: Seq<JsonMemberM>, key: Seq<u8>, alias: Seq<u8>, tag: FieldTag) -> Result<Seq<char>, DecodeError> {
    match obj_get2(ms, key, alias) {
        None => Err(DecodeError::MissingField(tag)),
        Some(JsonM::Str(c)) => if all_ascii(c) {
            Ok(ascii_chars(c))
        } else {
            Err(DecodeError::WrongShape(tag))
        },
        Some(_) => Err(DecodeError::WrongShape(tag)),
    }
}

/// Read a symbol field.
pub fn get_symbol_field(ms: &Vec<JsonMember>, key: &[u8], alias: &[u8], tag: FieldTag) -> (r:
    Result<String, DecodeError>)
    ensures
        match r {
            Ok(s) => symbol_field(jm_members(ms@), key@, alias@, tag) == Ok::<_, DecodeError>(s@),
            Err(e) => symbol_field(jm_members(ms@), key@, alias@, tag) == Err::<Seq<char>, _>(e),
        },
{
    match get_field2(ms, key, alias) {
        None => Err(DecodeError::MissingField(tag)),
        Some(v) => match v {
            JsonValue::Str(c) => match ascii_string(clone_bytes(c)) {
                Some(s) => Ok(s),
                None => Err(DecodeError::WrongShape(tag)),
            },
            _ => Err(DecodeError::WrongShape(tag)),
        },
    }
}


/// ASCII upper-case letters lowered; other bytes unchanged.
pub open spec fn lower_ascii(s: Seq<u8>) -> Seq<u8> {
    Seq::new(
        s.len(),
        |i: int|
            if 0x41 <= s[i] <= 0x5a {
                (s[i] + 0x20) as u8
            } else {
                s[i]
            },
    )
}

/// Lower ASCII letters to lower case.
pub fn to_lower_bytes(b: &Vec<u8>) -> (r: Vec<u8>)
    ensures
        r@ == lower_ascii(b@),
{
    let n = b.len();
    let mut r: Vec<u8> = Vec::new();
    let mut i: usize = 0;
    while i < n
        invariant
            i <= n == b@.len(),
            r@.len() == i,
            forall|k: int| 0 <= k < i ==> r@[k] == lower_ascii(b@)[k],
        decreases n - i,
    {
        let c = b[i];
        if 0x41 <= c && c <= 0x5a {
            r.push(c + 0x20);
        } else {
            r.push(c);
        }
        i = i + 1;
    }
    proof {
        assert(r@ =~= lower_ascii(b@));
    }
    r
}

} // verus!
