use guid_manifest::{
    ExtractError, GUID, Insert, OrderedList, SortedSet, collect_guids, render_manifest,
};

#[test]
fn sorted_mode_yields_distinct_ascending() {
    // Unsorted discovery order with a duplicate: the sorted policy keeps
    // exactly the distinct identifiers, ascending.
    let contents = vec![
        b"guid: ffffffffffffffffffffffffffffffff\n".to_vec(),
        b"guid: 0123456789abcdef0123456789abcdef\n".to_vec(),
        b"guid: ffffffffffffffffffffffffffffffff\n".to_vec(),
        b"guid: aaaaaaaaaaaaaaaaaaaaaaaaaaaaaaaa\n".to_vec(),
    ];
    let v = collect_guids(&contents, true).unwrap();
    assert_eq!(v.len(), 3);
    assert_eq!(v[0].bytes().as_slice(), b"0123456789abcdef0123456789abcdef");
    assert_eq!(v[1].bytes().as_slice(), b"aaaaaaaaaaaaaaaaaaaaaaaaaaaaaaaa");
    assert_eq!(v[2].bytes().as_slice(), b"ffffffffffffffffffffffffffffffff");
}

#[test]
fn ordered_mode_keeps_discovery_order_and_duplicates() {
    let contents = vec![
        b"guid: ffffffffffffffffffffffffffffffff\n".to_vec(),
        b"guid: 0123456789abcdef0123456789abcdef\n".to_vec(),
        b"guid: ffffffffffffffffffffffffffffffff\n".to_vec(),
    ];
    let v = collect_guids(&contents, false).unwrap();
    assert_eq!(v.len(), 3);
    assert_eq!(v[0].bytes().as_slice(), b"ffffffffffffffffffffffffffffffff");
    assert_eq!(v[1].bytes().as_slice(), b"0123456789abcdef0123456789abcdef");
    assert_eq!(v[2].bytes().as_slice(), b"ffffffffffffffffffffffffffffffff");
}

#[test]
fn sorted_mode_is_idempotent() {
    let contents = vec![
        b"guid: bbbbbbbbbbbbbbbbbbbbbbbbbbbbbbbb\n".to_vec(),
        b"guid: aaaaaaaaaaaaaaaaaaaaaaaaaaaaaaaa\n".to_vec(),
        b"guid: bbbbbbbbbbbbbbbbbbbbbbbbbbbbbbbb\n".to_vec(),
    ];
    let first = render_manifest(b"Pack", None, &collect_guids(&contents, true).unwrap());
    let second = render_manifest(b"Pack", None, &collect_guids(&contents, true).unwrap());
    assert_eq!(first, second);
}

#[test]
fn one_bad_file_aborts_the_run() {
    // A 33-character value aborts the whole gathering with a format failure;
    // nothing is handed to the writer.
    let contents = vec![
        b"guid: aaaaaaaaaaaaaaaaaaaaaaaaaaaaaaaa\n".to_vec(),
        b"guid: 0123456789abcdef0123456789abcdef0\n".to_vec(),
        b"guid: bbbbbbbbbbbbbbbbbbbbbbbbbbbbbbbb\n".to_vec(),
    ];
    assert_eq!(collect_guids(&contents, true).unwrap_err(), ExtractError::Format);
    assert_eq!(collect_guids(&contents, false).unwrap_err(), ExtractError::Format);
}

#[test]
fn missing_marker_aborts_the_run() {
    let contents = vec![
        b"guid: aaaaaaaaaaaaaaaaaaaaaaaaaaaaaaaa\n".to_vec(),
        b"fileFormatVersion: 2\n".to_vec(),
    ];
    assert_eq!(collect_guids(&contents, true).unwrap_err(), ExtractError::MissingField);
}

#[test]
fn scenario_sorted_no_url() {
    // Tree: a/x.meta and b/y.meta, display name "Pack", no URL, sorted mode.
    let contents = vec![
        b"guid: 0123456789abcdef0123456789abcdef\n".to_vec(),
        b"guid: ffffffffffffffffffffffffffffffff\n".to_vec(),
    ];
    let v = collect_guids(&contents, true).unwrap();
    let out = render_manifest(b"Pack", None, &v);
    let expected = b"displayName: Pack\nguids:\n0123456789abcdef0123456789abcdef\nffffffffffffffffffffffffffffffff\n";
    assert_eq!(out, expected.to_vec());
}

#[test]
fn scenario_ordered_with_url() {
    // Same tree traversed b before a, URL supplied, order-preserving mode.
    let contents = vec![
        b"guid: ffffffffffffffffffffffffffffffff\n".to_vec(),
        b"guid: 0123456789abcdef0123456789abcdef\n".to_vec(),
    ];
    let v = collect_guids(&contents, false).unwrap();
    let out = render_manifest(b"Pack", Some(b"https://example.com/pack"), &v);
    let expected = b"displayName: Pack\nurl: https://example.com/pack\nguids:\nffffffffffffffffffffffffffffffff\n0123456789abcdef0123456789abcdef\n";
    assert_eq!(out, expected.to_vec());
}

#[test]
fn empty_tree_renders_header_only() {
    let contents: Vec<Vec<u8>> = vec![];
    let v = collect_guids(&contents, true).unwrap();
    assert!(v.is_empty());
    let out = render_manifest(b"Empty", None, &v);
    assert_eq!(out, b"displayName: Empty\nguids:\n".to_vec());
}

#[test]
fn sorted_set_deduplicates_on_insert() {
    let mut col = SortedSet::new();
    col.insert(GUID::from_str("bbbbbbbbbbbbbbbbbbbbbbbbbbbbbbbb").unwrap());
    col.insert(GUID::from_str("aaaaaaaaaaaaaaaaaaaaaaaaaaaaaaaa").unwrap());
    col.insert(GUID::from_str("bbbbbbbbbbbbbbbbbbbbbbbbbbbbbbbb").unwrap());
    let v = col.into_vec();
    assert_eq!(v.len(), 2);
    assert_eq!(v[0].bytes().as_slice(), b"aaaaaaaaaaaaaaaaaaaaaaaaaaaaaaaa");
    assert_eq!(v[1].bytes().as_slice(), b"bbbbbbbbbbbbbbbbbbbbbbbbbbbbbbbb");
}

#[test]
fn ordered_list_appends_on_insert() {
    let mut col = OrderedList::new();
    col.insert(GUID::from_str("bbbbbbbbbbbbbbbbbbbbbbbbbbbbbbbb").unwrap());
    col.insert(GUID::from_str("aaaaaaaaaaaaaaaaaaaaaaaaaaaaaaaa").unwrap());
    col.insert(GUID::from_str("bbbbbbbbbbbbbbbbbbbbbbbbbbbbbbbb").unwrap());
    let v = col.into_vec();
    assert_eq!(v.len(), 3);
    assert_eq!(v[0].bytes().as_slice(), b"bbbbbbbbbbbbbbbbbbbbbbbbbbbbbbbb");
    assert_eq!(v[1].bytes().as_slice(), b"aaaaaaaaaaaaaaaaaaaaaaaaaaaaaaaa");
    assert_eq!(v[2].bytes().as_slice(), b"bbbbbbbbbbbbbbbbbbbbbbbbbbbbbbbb");
}

#[test]
fn render_writes_name_verbatim() {
    let v: Vec<GUID> = Vec::new();
    let out = render_manifest(b"My Pack (v2)", None, &v);
    assert_eq!(out, b"displayName: My Pack (v2)\nguids:\n".to_vec());
}
