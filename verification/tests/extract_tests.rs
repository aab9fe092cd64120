use guid_manifest::{ExtractError, extract_guid};

#[test]
fn extracts_plain_guid_line() {
    let g = extract_guid(b"guid: 0123456789abcdef0123456789abcdef\n").unwrap();
    assert_eq!(g.bytes().as_slice(), b"0123456789abcdef0123456789abcdef");
}

#[test]
fn extracts_without_space_after_colon() {
    let g = extract_guid(b"guid:0123456789abcdef0123456789abcdef\n").unwrap();
    assert_eq!(g.bytes().as_slice(), b"0123456789abcdef0123456789abcdef");
}

#[test]
fn extracts_without_trailing_newline() {
    let g = extract_guid(b"guid: 0123456789abcdef0123456789abcdef").unwrap();
    assert_eq!(g.bytes().as_slice(), b"0123456789abcdef0123456789abcdef");
}

#[test]
fn extracts_with_carriage_return_line_ending() {
    let g = extract_guid(b"fileFormatVersion: 2\r\nguid: 0123456789abcdef0123456789abcdef\r\n")
        .unwrap();
    assert_eq!(g.bytes().as_slice(), b"0123456789abcdef0123456789abcdef");
}

#[test]
fn extracts_from_later_line() {
    let g = extract_guid(b"fileFormatVersion: 2\nguid: aaaaaaaaaaaaaaaaaaaaaaaaaaaaaaaa\nother: 1\n")
        .unwrap();
    assert_eq!(g.bytes().as_slice(), b"aaaaaaaaaaaaaaaaaaaaaaaaaaaaaaaa");
}

#[test]
fn first_marker_line_wins() {
    let g = extract_guid(
        b"guid: aaaaaaaaaaaaaaaaaaaaaaaaaaaaaaaa\nguid: bbbbbbbbbbbbbbbbbbbbbbbbbbbbbbbb\n",
    )
    .unwrap();
    assert_eq!(g.bytes().as_slice(), b"aaaaaaaaaaaaaaaaaaaaaaaaaaaaaaaa");
}

#[test]
fn missing_field_on_empty_file() {
    assert_eq!(extract_guid(b"").unwrap_err(), ExtractError::MissingField);
}

#[test]
fn missing_field_when_no_marker_line() {
    assert_eq!(
        extract_guid(b"fileFormatVersion: 2\nname: thing\n").unwrap_err(),
        ExtractError::MissingField,
    );
}

#[test]
fn marker_must_start_the_line() {
    assert_eq!(
        extract_guid(b"xguid: 0123456789abcdef0123456789abcdef\n").unwrap_err(),
        ExtractError::MissingField,
    );
}

#[test]
fn format_error_on_31_characters() {
    assert_eq!(
        extract_guid(b"guid: 0123456789abcdef0123456789abcde\n").unwrap_err(),
        ExtractError::Format,
    );
}

#[test]
fn format_error_on_33_characters() {
    assert_eq!(
        extract_guid(b"guid: 0123456789abcdef0123456789abcdef0\n").unwrap_err(),
        ExtractError::Format,
    );
}

#[test]
fn format_error_on_uppercase() {
    assert_eq!(
        extract_guid(b"guid: 0123456789ABCDEF0123456789abcdef\n").unwrap_err(),
        ExtractError::Format,
    );
}

#[test]
fn format_error_on_non_hex() {
    assert_eq!(
        extract_guid(b"guid: zzzzzzzzzzzzzzzzzzzzzzzzzzzzzzzz\n").unwrap_err(),
        ExtractError::Format,
    );
}

#[test]
fn format_error_on_empty_value() {
    assert_eq!(extract_guid(b"guid:\n").unwrap_err(), ExtractError::Format);
}

#[test]
fn strips_only_one_leading_space() {
    // A second space is part of the value and fails validation.
    assert_eq!(
        extract_guid(b"guid:  0123456789abcdef0123456789abcdef\n").unwrap_err(),
        ExtractError::Format,
    );
}
