//! Exact decimal numbers for prices and volumes.
//!
//! A `Dec` holds `mantissa * 10^-scale` in a canonical form: a zero mantissa
//! forces a zero scale, and a positive scale means the mantissa does not end
//! in a zero digit. Canonical values are equal as numbers exactly when they
//! are equal as structs, so `Dec` can key an ordered book side directly.

use vstd::prelude::*;

verus! {

use vstd::string::StringSliceAdditionalSpecFns;

/// Largest admitted mantissa magnitude: eighteen decimal digits.
pub const MAX_MANTISSA: i128 = 1_000_000_000_000_000_000;

/// Largest admitted scale (digits after the decimal point).
pub const MAX_SCALE: u32 = 18;

/// An exact decimal number `mantissa * 10^-scale`.
#[derive(Clone, Copy, Debug, PartialEq, Eq, Structural)]
pub struct Dec {
    pub mantissa: i128,
    pub scale: u32,
}

/// `10^e` over the mathematical integers.
pub open spec fn pow10(e: nat) -> int
    decreases e,
{
    if e == 0 {
        1
    } else {
        10 * pow10((e - 1) as nat)
    }
}

pub proof fn lemma_pow10_positive(e: nat)
    ensures
        pow10(e) >= 1,
    decreases e,
{
    if e > 0 {
        lemma_pow10_positive((e - 1) as nat);
    }
}

pub proof fn lemma_pow10_increases(a: nat, b: nat)
    requires
        a <= b,
    ensures
        pow10(a) <= pow10(b),
    decreases b,
{
    if a < b {
        lemma_pow10_increases(a, (b - 1) as nat);
        lemma_pow10_positive((b - 1) as nat);
    }
}

pub proof fn lemma_pow10_adds(a: nat, b: nat)
    ensures
        pow10(a + b) == pow10(a) * pow10(b),
    decreases a,
{
    if a == 0 {
    } else {
        lemma_pow10_adds((a - 1) as nat, b);
        assert(pow10((a - 1) as nat + b) == pow10((a - 1) as nat) * pow10(b));
        assert(pow10(a + b) == 10 * (pow10((a - 1) as nat) * pow10(b)));
        assert(10 * (pow10((a - 1) as nat) * pow10(b)) == (10 * pow10((a - 1) as nat)) * pow10(
            b,
        )) by (nonlinear_arith);
    }
}

impl Dec {
    /// The mantissa is in range, the scale is in range, and the pair is
    /// canonical: zero is stored as (0, 0) and a fractional mantissa does
    /// not end in a zero digit.
    pub open spec fn wf(self) -> bool {
        &&& -MAX_MANTISSA < self.mantissa < MAX_MANTISSA
        &&& self.scale <= MAX_SCALE
        &&& (self.mantissa == 0 ==> self.scale == 0)
        &&& (self.scale > 0 ==> self.mantissa % 10 != 0)
    }

    /// The number this decimal denotes, as a scaled integer: the value of
    /// `self` is `self.num() / 10^self.scale`.
    pub open spec fn num(self) -> int {
        self.mantissa as int
    }

    /// Two decimals denote the same number when the cross products agree.
    pub open spec fn same_value(self, other: Dec) -> bool {
        self.mantissa * pow10(other.scale as nat) == other.mantissa * pow10(self.scale as nat)
    }

    /// Strict numeric order via cross multiplication.
    pub open spec fn lt_spec(self, other: Dec) -> bool {
        self.mantissa * pow10(other.scale as nat) < other.mantissa * pow10(self.scale as nat)
    }

    pub open spec fn le_spec(self, other: Dec) -> bool {
        self.mantissa * pow10(other.scale as nat) <= other.mantissa * pow10(self.scale as nat)
    }

    /// The zero decimal.
    pub fn zero() -> (r: Dec)
        ensures
            r.wf(),
            r.mantissa == 0,
            r.scale == 0,
    {
        Dec { mantissa: 0, scale: 0 }
    }

    pub open spec fn is_zero(self) -> bool {
        self.mantissa == 0
    }
}

pub proof fn lemma_pow10_18()
    ensures
        pow10(18) == MAX_MANTISSA as int,
{
    reveal_with_fuel(pow10, 19);
}

/// `10^e` as a machine integer.
pub fn pow10_i128(e: u32) -> (r: i128)
    requires
        e <= MAX_SCALE,
    ensures
        r == pow10(e as nat),
        1 <= r <= MAX_MANTISSA,
{
    proof {
        lemma_pow10_18();
    }
    let mut r: i128 = 1;
    let mut i: u32 = 0;
    while i < e
        invariant
            i <= e <= MAX_SCALE,
            r == pow10(i as nat),
            1 <= r <= MAX_MANTISSA,
        decreases e - i,
    {
        proof {
            lemma_pow10_18();
            lemma_pow10_increases((i + 1) as nat, 18);
            lemma_pow10_positive(i as nat);
        }
        r = r * 10;
        i = i + 1;
    }
    r
}

/// Bound on the cross products used to compare two well-formed decimals.
proof fn lemma_cross_bound(m: int, p: int)
    requires
        -(MAX_MANTISSA as int) < m < MAX_MANTISSA as int,
        1 <= p <= MAX_MANTISSA as int,
    ensures
        -(MAX_MANTISSA as int) * (MAX_MANTISSA as int) < m * p,
        m * p < (MAX_MANTISSA as int) * (MAX_MANTISSA as int),
{
    assert(-(MAX_MANTISSA as int) * (MAX_MANTISSA as int) < m * p < (MAX_MANTISSA as int) * (
    MAX_MANTISSA as int)) by (nonlinear_arith)
        requires
            -(MAX_MANTISSA as int) < m < MAX_MANTISSA as int,
            1 <= p <= MAX_MANTISSA as int,
    ;
}

impl Dec {
    /// Strict numeric comparison.
    pub fn lt(&self, other: &Dec) -> (r: bool)
        requires
            self.wf(),
            other.wf(),
        ensures
            r == self.lt_spec(*other),
    {
        let pa = pow10_i128(other.scale);
        let pb = pow10_i128(self.scale);
        proof {
            lemma_cross_bound(self.mantissa as int, pa as int);
            lemma_cross_bound(other.mantissa as int, pb as int);
        }
        self.mantissa * pa < other.mantissa * pb
    }

    /// Non-strict numeric comparison.
    pub fn le(&self, other: &Dec) -> (r: bool)
        requires
            self.wf(),
            other.wf(),
        ensures
            r == self.le_spec(*other),
    {
        let pa = pow10_i128(other.scale);
        let pb = pow10_i128(self.scale);
        proof {
            lemma_cross_bound(self.mantissa as int, pa as int);
            lemma_cross_bound(other.mantissa as int, pb as int);
        }
        self.mantissa * pa <= other.mantissa * pb
    }
}

/// The numeric order on decimals is transitive.
pub proof fn lemma_lt_trans(a: Dec, b: Dec, c: Dec)
    requires
        a.wf(),
        b.wf(),
        c.wf(),
        a.lt_spec(b),
        b.lt_spec(c),
    ensures
        a.lt_spec(c),
{
    lemma_pow10_positive(a.scale as nat);
    lemma_pow10_positive(b.scale as nat);
    lemma_pow10_positive(c.scale as nat);
    assert(a.mantissa * pow10(c.scale as nat) < c.mantissa * pow10(a.scale as nat))
        by (nonlinear_arith)
        requires
            a.mantissa * pow10(b.scale as nat) < b.mantissa * pow10(a.scale as nat),
            b.mantissa * pow10(c.scale as nat) < c.mantissa * pow10(b.scale as nat),
            pow10(a.scale as nat) >= 1,
            pow10(b.scale as nat) >= 1,
            pow10(c.scale as nat) >= 1,
    ;
}

pub proof fn lemma_le_trans(a: Dec, b: Dec, c: Dec)
    requires
        a.wf(),
        b.wf(),
        c.wf(),
        a.le_spec(b),
        b.le_spec(c),
    ensures
        a.le_spec(c),
{
    lemma_pow10_positive(a.scale as nat);
    lemma_pow10_positive(b.scale as nat);
    lemma_pow10_positive(c.scale as nat);
    assert(a.mantissa * pow10(c.scale as nat) <= c.mantissa * pow10(a.scale as nat))
        by (nonlinear_arith)
        requires
            a.mantissa * pow10(b.scale as nat) <= b.mantissa * pow10(a.scale as nat),
            b.mantissa * pow10(c.scale as nat) <= c.mantissa * pow10(b.scale as nat),
            pow10(a.scale as nat) >= 1,
            pow10(b.scale as nat) >= 1,
            pow10(c.scale as nat) >= 1,
    ;
}

/// Two canonical decimals that denote the same number are the same struct.
pub proof fn lemma_same_value_is_eq(a: Dec, b: Dec)
    requires
        a.wf(),
        b.wf(),
        a.same_value(b),
    ensures
        a == b,
    decreases a.scale + b.scale,
{
    lemma_pow10_positive(a.scale as nat);
    lemma_pow10_positive(b.scale as nat);
    if a.scale == b.scale {
        assert(a.mantissa == b.mantissa) by (nonlinear_arith)
            requires
                a.mantissa * pow10(b.scale as nat) == b.mantissa * pow10(a.scale as nat),
                a.scale == b.scale,
                pow10(a.scale as nat) >= 1,
        ;
    } else if a.scale < b.scale {
        lemma_same_value_scales_agree(a, b);
    } else {
        assert(b.same_value(a));
        lemma_same_value_scales_agree(b, a);
    }
}

/// Helper: of two canonical decimals denoting the same number, the one with
/// the smaller scale cannot exist; equal values force equal scales.
proof fn lemma_same_value_scales_agree(a: Dec, b: Dec)
    requires
        a.wf(),
        b.wf(),
        a.same_value(b),
        a.scale <= b.scale,
    ensures
        a.scale == b.scale,
{
    if a.scale < b.scale {
        let d = (b.scale - a.scale) as nat;
        lemma_pow10_positive(a.scale as nat);
        lemma_pow10_positive(d);
        lemma_pow10_adds(a.scale as nat, d);
        // a.mantissa * 10^a.s * 10^d == b.mantissa * 10^a.s, so b.mantissa == a.mantissa * 10^d
        assert(b.mantissa == a.mantissa * pow10(d)) by (nonlinear_arith)
            requires
                a.mantissa * pow10(b.scale as nat) == b.mantissa * pow10(a.scale as nat),
                pow10(b.scale as nat) == pow10(a.scale as nat) * pow10(d),
                pow10(a.scale as nat) >= 1,
        ;
        if b.mantissa == 0 {
            // zero forces scale zero, contradicting a.scale < b.scale
            assert(false);
        } else {
            // b.scale > 0, yet b.mantissa is a multiple of 10
            assert(d >= 1);
            assert(pow10(d) == 10 * pow10((d - 1) as nat));
            let k = a.mantissa * pow10((d - 1) as nat);
            assert(b.mantissa == k * 10) by (nonlinear_arith)
                requires
                    b.mantissa == a.mantissa * (10 * pow10((d - 1) as nat)),
                    k == a.mantissa * pow10((d - 1) as nat),
            ;
            vstd::arithmetic::div_mod::lemma_mod_multiples_basic(k, 10);
            assert(false);
        }
    }
}

/// Strip trailing zero digits from a non-negative mantissa while the scale
/// is positive; the canonical form of the pair.
pub open spec fn canon(m: int, s: nat) -> (int, nat)
    decreases s,
{
    if s == 0 || m % 10 != 0 {
        (m, s)
    } else {
        canon(m / 10, (s - 1) as nat)
    }
}

pub proof fn lemma_canon_props(m: int, s: nat)
    requires
        m >= 0,
    ensures
        0 <= canon(m, s).0 <= m,
        canon(m, s).1 <= s,
        canon(m, s).0 == 0 ==> canon(m, s).1 == 0,
        canon(m, s).1 > 0 ==> canon(m, s).0 % 10 != 0,
        m * pow10(canon(m, s).1) == canon(m, s).0 * pow10(s),
    decreases s,
{
    if s == 0 || m % 10 != 0 {
        if m == 0 && s > 0 {
            assert(m % 10 == 0);
        }
    } else {
        let m1 = m / 10;
        let s1 = (s - 1) as nat;
        vstd::arithmetic::div_mod::lemma_fundamental_div_mod(m, 10);
        assert(m == 10 * m1);
        lemma_canon_props(m1, s1);
        let (cm, cs) = canon(m1, s1);
        lemma_pow10_positive(cs);
        // m1 * pow10(cs) == cm * pow10(s1), so multiplying by 10 aligns the scales
        assert(m * pow10(cs) == cm * pow10(s)) by (nonlinear_arith)
            requires
                m == 10 * m1,
                pow10(s) == 10 * pow10(s1),
                m1 * pow10(cs) == cm * pow10(s1),
        ;
    }
}

/// Trailing-zero stripping, executably.
fn canonicalize(m0: i128, s0: u32) -> (r: (i128, u32))
    requires
        m0 >= 0,
        s0 <= MAX_SCALE,
    ensures
        r.0 as int == canon(m0 as int, s0 as nat).0,
        r.1 as nat == canon(m0 as int, s0 as nat).1,
        0 <= r.0 <= m0,
        r.1 <= s0,
{
    let mut m: i128 = m0;
    let mut s: u32 = s0;
    proof {
        lemma_canon_props(m0 as int, s0 as nat);
    }
    while s > 0 && m % 10 == 0
        invariant
            0 <= m <= m0,
            s <= s0 <= MAX_SCALE,
            canon(m as int, s as nat) == canon(m0 as int, s0 as nat),
        decreases s,
    {
        proof {
            vstd::arithmetic::div_mod::lemma_fundamental_div_mod(m as int, 10);
        }
        m = m / 10;
        s = s - 1;
    }
    (m, s)
}

/// ASCII digit test.
pub open spec fn is_digit(b: u8) -> bool {
    0x30 <= b <= 0x39
}

pub open spec fn all_digits(s: Seq<u8>) -> bool {
    forall|i: int| 0 <= i < s.len() ==> is_digit(#[trigger] s[i])
}

/// The number denoted by a run of ASCII digits, most significant first.
pub open spec fn digits_val(s: Seq<u8>) -> int
    decreases s.len(),
{
    if s.len() == 0 {
        0
    } else {
        digits_val(s.drop_last()) * 10 + (s.last() - 0x30)
    }
}

pub proof fn lemma_digits_val_nonneg(s: Seq<u8>)
    requires
        all_digits(s),
    ensures
        digits_val(s) >= 0,
    decreases s.len(),
{
    if s.len() > 0 {
        assert(all_digits(s.drop_last()));
        lemma_digits_val_nonneg(s.drop_last());
    }
}

/// A digit string's value only grows as digits are appended.
pub proof fn lemma_digits_val_prefix_le(s: Seq<u8>, k: int)
    requires
        all_digits(s),
        0 <= k <= s.len(),
    ensures
        digits_val(s.take(k)) <= digits_val(s),
    decreases s.len() - k,
{
    if k < s.len() {
        lemma_digits_val_prefix_le(s, k + 1);
        let t = s.take(k + 1);
        assert(t.drop_last() =~= s.take(k));
        assert(all_digits(s.take(k)));
        lemma_digits_val_nonneg(s.take(k));
        assert(digits_val(t) == digits_val(s.take(k)) * 10 + (t.last() - 0x30));
    } else {
        assert(s.take(k) =~= s);
    }
}

/// Index of the first `.` in `s`, or `s.len()` if there is none.
pub open spec fn first_dot(s: Seq<u8>) -> int
    decreases s.len(),
{
    if s.len() == 0 {
        0
    } else if s[0] == 0x2e {
        0
    } else {
        1 + first_dot(s.drop_first())
    }
}

pub proof fn lemma_first_dot_is(s: Seq<u8>, j: int)
    requires
        0 <= j <= s.len(),
        forall|i: int| 0 <= i < j ==> s[i] != 0x2e,
        j < s.len() ==> s[j] == 0x2e,
        j == s.len() || s[j] == 0x2e,
    ensures
        first_dot(s) == j,
    decreases j,
{
    if s.len() == 0 {
    } else if j == 0 {
    } else {
        let t = s.drop_first();
        assert(forall|i: int| 0 <= i < j - 1 ==> t[i] == s[i + 1] && s[i + 1] != 0x2e);
        lemma_first_dot_is(t, j - 1);
    }
}

/// The digit characters of a decimal literal, with the dot removed.
pub open spec fn dec_digits(t: Seq<u8>) -> Seq<u8> {
    let d = first_dot(t);
    if d == t.len() {
        t
    } else {
        t.subrange(0, d) + t.subrange(d + 1, t.len() as int)
    }
}

/// Number of digits after the dot.
pub open spec fn dec_scale_of(t: Seq<u8>) -> nat {
    let d = first_dot(t);
    if d == t.len() {
        0
    } else {
        (t.len() - d - 1) as nat
    }
}

/// Shape of an unsigned decimal literal: a nonempty run of digits,
/// optionally followed by a dot and a nonempty run of digits.
pub open spec fn dec_shape_ok(t: Seq<u8>) -> bool {
    let d = first_dot(t);
    &&& d >= 1
    &&& all_digits(t.subrange(0, d))
    &&& (d == t.len() || (t.len() - d >= 2 && all_digits(t.subrange(d + 1, t.len() as int))))
}

/// The decimal denoted by a byte string, if it is a well-formed literal
/// whose canonical mantissa and scale fit the bounds. The grammar is an
/// optional leading minus sign, digits, and an optional fractional part;
/// exponents are not part of the wire formats this crate decodes.
pub open spec fn dec_of_bytes(s: Seq<u8>) -> Option<Dec> {
    let neg = s.len() > 0 && s[0] == 0x2d;
    let t = if neg {
        s.drop_first()
    } else {
        s
    };
    if dec_shape_ok(t) && digits_val(dec_digits(t)) < MAX_MANTISSA as int && dec_scale_of(t)
        <= MAX_SCALE as nat {
        let c = canon(digits_val(dec_digits(t)), dec_scale_of(t));
        Some(
            Dec {
                mantissa: if neg {
                    (-c.0) as i128
                } else {
                    c.0 as i128
                },
                scale: c.1 as u32,
            },
        )
    } else {
        None
    }
}

pub proof fn lemma_dec_digits_all_digits(t: Seq<u8>)
    requires
        dec_shape_ok(t),
    ensures
        all_digits(dec_digits(t)),
{
    let d = first_dot(t);
    if d == t.len() {
        assert(t.subrange(0, d) =~= t);
    } else {
        let intp = t.subrange(0, d);
        let frac = t.subrange(d + 1, t.len() as int);
        assert forall|i: int| 0 <= i < dec_digits(t).len() implies is_digit(
            #[trigger] dec_digits(t)[i],
        ) by {
            if i < d {
                assert(dec_digits(t)[i] == intp[i]);
            } else {
                assert(dec_digits(t)[i] == frac[i - d]);
            }
        }
    }
}

pub proof fn lemma_dec_of_bytes_wf(s: Seq<u8>)
    ensures
        dec_of_bytes(s) matches Some(d) ==> d.wf(),
{
    if dec_of_bytes(s) is Some {
        let neg = s.len() > 0 && s[0] == 0x2d;
        let t = if neg {
            s.drop_first()
        } else {
            s
        };
        let m0 = digits_val(dec_digits(t));
        lemma_dec_digits_all_digits(t);
        lemma_digits_val_nonneg(dec_digits(t));
        lemma_canon_props(m0, dec_scale_of(t));
        let c = canon(m0, dec_scale_of(t));
        if neg && c.0 != 0 && c.1 > 0 {
            // a negated canonical mantissa still does not end in a zero digit
            assert((-c.0) % 10 != 0) by (nonlinear_arith)
                requires
                    c.0 % 10 != 0,
                    c.0 > 0,
            ;
        }
    }
}

impl Dec {
    /// Parse a decimal literal such as `-12.3400` into canonical form.
    #[verifier::rlimit(60)]
    pub fn from_bytes(s: &[u8]) -> (r: Option<Dec>)
        ensures
            r == dec_of_bytes(s@),
            r matches Some(d) ==> d.wf(),
    {
        proof {
            lemma_dec_of_bytes_wf(s@);
        }
        let n = s.len();
        let neg = n > 0 && *vstd::slice::slice_index_get(s, 0) == 0x2d;
        let t: &[u8] = if neg {
            vstd::slice::slice_subrange(s, 1, n)
        } else {
            s
        };
        proof {
            if neg {
                assert(t@ =~= s@.drop_first());
            }
        }
        let tn = t.len();
        // locate the dot
        let mut dp: usize = 0;
        while dp < tn && *vstd::slice::slice_index_get(t, dp) != 0x2e
            invariant
                dp <= tn == t@.len(),
                forall|i: int| 0 <= i < dp ==> t@[i] != 0x2e,
            decreases tn - dp,
        {
            dp = dp + 1;
        }
        proof {
            lemma_first_dot_is(t@, dp as int);
        }
        if dp == 0 {
            proof {
                assert(dec_of_bytes(s@) is None);
            }
            return None;
        }
        // integer part must be digits
        let mut i: usize = 0;
        while i < dp
            invariant
                neg == (s@.len() > 0 && s@[0] == 0x2d),
                t@ == (if neg { s@.drop_first() } else { s@ }),
                i <= dp <= tn == t@.len(),
                1 <= dp,
                first_dot(t@) == dp,
                forall|k: int| 0 <= k < i ==> is_digit(#[trigger] t@[k]),
            decreases dp - i,
        {
            let b = *vstd::slice::slice_index_get(t, i);
            if b < 0x30 || b > 0x39 {
                proof {
                    assert(t@.subrange(0, dp as int)[i as int] == t@[i as int]);
                    assert(!dec_shape_ok(t@));
                    assert(dec_of_bytes(s@) is None);
                }
                return None;
            }
            i = i + 1;
        }
        // fractional part, if any, must be nonempty digits
        if dp < tn {
            if tn - dp < 2 {
                return None;
            }
            let mut j: usize = dp + 1;
            while j < tn
                invariant
                neg == (s@.len() > 0 && s@[0] == 0x2d),
                t@ == (if neg { s@.drop_first() } else { s@ }),
                    dp + 1 <= j <= tn == t@.len(),
                    first_dot(t@) == dp < tn,
                    forall|k: int| dp < k < j ==> is_digit(#[trigger] t@[k]),
                decreases tn - j,
            {
                let b = *vstd::slice::slice_index_get(t, j);
                if b < 0x30 || b > 0x39 {
                    proof {
                        assert(t@.subrange(dp + 1, tn as int)[j - dp - 1] == t@[j as int]);
                        assert(!dec_shape_ok(t@));
                        assert(dec_of_bytes(s@) is None);
                    }
                    return None;
                }
                j = j + 1;
            }
        }
        proof {
            assert(all_digits(t@.subrange(0, dp as int)));
            if dp < tn {
                assert(all_digits(t@.subrange(dp + 1, tn as int)));
            }
            assert(dec_shape_ok(t@));
            lemma_dec_digits_all_digits(t@);
        }
        let scale_digits: usize = if dp < tn {
            tn - dp - 1
        } else {
            0
        };
        if scale_digits > 18 {
            return None;
        }
        // accumulate the digits, skipping the dot
        let ghost dd = dec_digits(t@);
        let mut m: i128 = 0;
        let mut k: usize = 0;
        while k < tn
            invariant
                neg == (s@.len() > 0 && s@[0] == 0x2d),
                t@ == (if neg { s@.drop_first() } else { s@ }),
                k <= tn == t@.len(),
                first_dot(t@) == dp,
                dec_shape_ok(t@),
                all_digits(dd),
                dd == dec_digits(t@),
                dd.len() == if dp < tn {
                    (tn - 1) as int
                } else {
                    tn as int
                },
                0 <= m < MAX_MANTISSA,
                m == if k <= dp {
                    digits_val(dd.take(k as int))
                } else {
                    digits_val(dd.take(k - 1))
                },
            decreases tn - k,
        {
            if k != dp {
                let b = *vstd::slice::slice_index_get(t, k);
                let ghost idx: int = if k < dp {
                    k as int
                } else {
                    k - 1
                };
                proof {
                    if k < dp {
                        assert(dd[idx] == t@.subrange(0, dp as int)[k as int]);
                    } else {
                        assert(dd[idx] == t@.subrange(dp + 1, tn as int)[k - dp - 1]);
                    }
                    assert(is_digit(dd[idx]));
                    assert(dd.take(idx + 1).drop_last() =~= dd.take(idx));
                    assert(dd.take(idx + 1).last() == dd[idx]);
                }
                let d = (b - 0x30) as i128;
                let nm = m * 10 + d;
                if nm >= MAX_MANTISSA {
                    proof {
                        lemma_digits_val_prefix_le(dd, idx + 1);
                        assert(dd.take(idx + 1) =~= dd.take(idx).push(dd[idx]));
                        assert(digits_val(dd.take(idx + 1)) == nm);
                        assert(digits_val(dd) >= MAX_MANTISSA as int);
                        assert(dec_of_bytes(s@) is None);
                    }
                    return None;
                }
                m = nm;
            }
            k = k + 1;
        }
        proof {
            assert(dd.take(dd.len() as int) =~= dd);
        }
        let c = canonicalize(m, scale_digits as u32);
        let mantissa = if neg {
            -c.0
        } else {
            c.0
        };
        Some(Dec { mantissa, scale: c.1 })
    }

    /// Parse a decimal literal from text; the bytes of the string are the
    /// literal.
    pub fn from_text(s: &str) -> (r: Option<Dec>)
        ensures
            r == dec_of_bytes(s.spec_bytes()),
            r matches Some(d) ==> d.wf(),
    {
        Dec::from_bytes(s.as_bytes())
    }
}

/// The difference of two decimals before canonicalization: the mantissas
/// aligned to the larger scale, subtracted, paired with that scale.
pub open spec fn sub_raw(a: Dec, b: Dec) -> (int, nat) {
    let s = if a.scale >= b.scale {
        a.scale as nat
    } else {
        b.scale as nat
    };
    (
        a.mantissa * pow10((s - a.scale as nat) as nat) - b.mantissa * pow10(
            (s - b.scale as nat) as nat,
        ),
        s,
    )
}

/// Magnitude of an integer.
pub open spec fn abs_int(m: int) -> int {
    if m < 0 {
        -m
    } else {
        m
    }
}

/// The canonical difference, while it fits the mantissa bound.
pub open spec fn sub_result(a: Dec, b: Dec) -> Option<Dec> {
    let (m, s) = sub_raw(a, b);
    let c = canon(abs_int(m), s);
    if c.0 < MAX_MANTISSA as int {
        Some(
            Dec {
                mantissa: if m < 0 {
                    (-c.0) as i128
                } else {
                    c.0 as i128
                },
                scale: c.1 as u32,
            },
        )
    } else {
        None
    }
}

impl Dec {
    /// Exact difference `self - other` in canonical form, or `None` when
    /// the canonical mantissa of the difference does not fit the bound.
    pub fn checked_sub(&self, other: &Dec) -> (r: Option<Dec>)
        requires
            self.wf(),
            other.wf(),
        ensures
            r == sub_result(*self, *other),
            r matches Some(d) ==> d.wf() && d.is_zero() == self.same_value(*other),
    {
        let s: u32 = if self.scale >= other.scale {
            self.scale
        } else {
            other.scale
        };
        let pa = pow10_i128(s - self.scale);
        let pb = pow10_i128(s - other.scale);
        proof {
            lemma_cross_bound(self.mantissa as int, pa as int);
            lemma_cross_bound(other.mantissa as int, pb as int);
        }
        let m: i128 = self.mantissa * pa - other.mantissa * pb;
        let neg = m < 0;
        let mm: i128 = if neg {
            -m
        } else {
            m
        };
        let c = canonicalize(mm, s);
        if c.0 >= MAX_MANTISSA {
            return None;
        }
        proof {
            lemma_canon_props(mm as int, s as nat);
            lemma_pow10_positive((s - self.scale) as nat);
            lemma_pow10_positive((s - other.scale) as nat);
            if neg && c.1 as nat > 0 {
                let cm = canon(mm as int, s as nat).0;
                assert((-cm) % 10 != 0) by (nonlinear_arith)
                    requires
                        cm % 10 != 0,
                        cm > 0,
                ;
            }
            if c.0 as int == 0 {
                // a zero canonical mantissa means the aligned mantissas agree
                assert(mm == 0) by {
                    if mm > 0 {
                        lemma_pow10_positive(canon(mm as int, s as nat).1);
                        assert(mm as int * pow10(canon(mm as int, s as nat).1) > 0)
                            by (nonlinear_arith)
                            requires
                                mm as int > 0,
                                pow10(canon(mm as int, s as nat).1) >= 1,
                        ;
                    }
                }
            }
            lemma_sub_aligned_value(*self, *other, s as nat);
        }
        let mantissa = if neg {
            -c.0
        } else {
            c.0
        };
        Some(Dec { mantissa, scale: c.1 })
    }
}

/// Aligning to the common scale preserves the sign and zero tests of the
/// cross-product comparison.
proof fn lemma_sub_aligned_value(a: Dec, b: Dec, s: nat)
    requires
        a.wf(),
        b.wf(),
        s == if a.scale >= b.scale {
            a.scale as nat
        } else {
            b.scale as nat
        },
    ensures
        (sub_raw(a, b).0 == 0) == (a.mantissa * pow10(b.scale as nat) == b.mantissa * pow10(
            a.scale as nat,
        )),
{
    let pa = pow10((s - a.scale as nat) as nat);
    let pb = pow10((s - b.scale as nat) as nat);
    lemma_pow10_positive((s - a.scale as nat) as nat);
    lemma_pow10_positive((s - b.scale as nat) as nat);
    lemma_pow10_positive(a.scale as nat);
    lemma_pow10_positive(b.scale as nat);
    lemma_pow10_adds(a.scale as nat, (s - a.scale as nat) as nat);
    lemma_pow10_adds(b.scale as nat, (s - b.scale as nat) as nat);
    assert((a.mantissa * pa - b.mantissa * pb == 0) == (a.mantissa * pow10(b.scale as nat)
        == b.mantissa * pow10(a.scale as nat))) by (nonlinear_arith)
        requires
            pow10(s) == pow10(a.scale as nat) * pa,
            pow10(s) == pow10(b.scale as nat) * pb,
            pa >= 1,
            pb >= 1,
            pow10(a.scale as nat) >= 1,
            pow10(b.scale as nat) >= 1,
    ;
}

} // verus!

