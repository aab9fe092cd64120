use guid_manifest::GUID;

#[test]
fn round_trip_valid_guid() {
    let s = "0123456789abcdef0123456789abcdef";
    let g = GUID::from_str(s).unwrap();
    assert_eq!(g.bytes().as_slice(), s.as_bytes());
}

#[test]
fn round_trip_all_digits() {
    let s = "ffffffffffffffffffffffffffffffff";
    let g = GUID::from_str(s).unwrap();
    assert_eq!(g.bytes().as_slice(), s.as_bytes());
}

#[test]
fn rejects_31_characters() {
    assert!(GUID::from_str("0123456789abcdef0123456789abcde").is_err());
}

#[test]
fn rejects_33_characters() {
    assert!(GUID::from_str("0123456789abcdef0123456789abcdef0").is_err());
}

#[test]
fn rejects_uppercase() {
    assert!(GUID::from_str("0123456789ABCDEF0123456789abcdef").is_err());
}

#[test]
fn rejects_non_hex() {
    assert!(GUID::from_str("0123456789abcdeg0123456789abcdef").is_err());
}

#[test]
fn rejects_empty() {
    assert!(GUID::from_str("").is_err());
}

#[test]
fn precedes_orders_digit_before_letter() {
    let a = GUID::from_str("09999999999999999999999999999999").unwrap();
    let b = GUID::from_str("0a999999999999999999999999999999").unwrap();
    assert!(a.precedes(&b));
    assert!(!b.precedes(&a));
}

#[test]
fn precedes_is_irreflexive() {
    let a = GUID::from_str("0123456789abcdef0123456789abcdef").unwrap();
    let b = GUID::from_str("0123456789abcdef0123456789abcdef").unwrap();
    assert!(!a.precedes(&b));
    assert!(a.equals(&b));
}
