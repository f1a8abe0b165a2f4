use orderbook::dec::Dec;
use orderbook::ErrorMessage;

fn d(s: &str) -> Dec {
    Dec::from_text(s).unwrap()
}

#[test]
fn parse_keeps_exact_value_in_canonical_form() {
    let x = d("0.01074200");
    assert_eq!(10742, x.mantissa);
    assert_eq!(6, x.scale);
    assert_eq!(d("0.010742"), x);

    assert_eq!(d("10"), d("10.0000000"));
    assert_eq!(0, d("0.000").mantissa);
    assert_eq!(0, d("0.000").scale);
    assert_eq!(-2, d("-0.200").mantissa);
    assert_eq!(1, d("-0.200").scale);
    assert_eq!(1833980193555559, d("1833980193555559").mantissa);
}

#[test]
fn parse_rejects_what_is_not_a_plain_decimal() {
    assert_eq!(None, Dec::from_text(""));
    assert_eq!(None, Dec::from_text("-"));
    assert_eq!(None, Dec::from_text("."));
    assert_eq!(None, Dec::from_text("1."));
    assert_eq!(None, Dec::from_text(".5"));
    assert_eq!(None, Dec::from_text("1.2.3"));
    assert_eq!(None, Dec::from_text("1e5"));
    assert_eq!(None, Dec::from_text("abc"));
    assert_eq!(None, Dec::from_text("1 2"));
    // nineteen significant digits exceed the admitted mantissa
    assert_eq!(None, Dec::from_text("1234567890123456789"));
    // nineteen fractional digits exceed the admitted scale
    assert_eq!(None, Dec::from_text("0.0000000000000000001"));
}

#[test]
fn ordering_is_numeric_across_scales() {
    assert!(d("0.98").lt(&d("1.00")));
    assert!(!d("1.00").lt(&d("0.98")));
    assert!(d("0.5").le(&d("0.50")));
    assert!(d("0.50").le(&d("0.5")));
    assert!(d("-1.5").lt(&d("0")));
    assert!(d("9.9").lt(&d("10")));
}

#[test]
fn subtraction_is_exact() {
    assert_eq!(Some(d("0.31")), d("0.98").checked_sub(&d("0.67")));
    assert_eq!(Some(d("-0.200")), d("0.700").checked_sub(&d("0.900")));
    assert_eq!(Some(d("0")), d("2.50").checked_sub(&d("2.5")));
    assert_eq!(Some(d("1.25")), d("2").checked_sub(&d("0.75")));
}

#[test]
fn error_message_holds_code_and_text() {
    let e = ErrorMessage::new(42, "stream closed".to_string());
    assert_eq!(42, e.code);
    assert_eq!("stream closed".to_string(), e.message);
}
