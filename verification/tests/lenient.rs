use heapsnap::lenient::{filter_bytes, LenientJsonReader};

#[test]
fn lone_high_surrogate_is_replaced() {
    let input = br#"{"s":"\uD800"}"#.to_vec();
    let out = filter_bytes(&input);
    assert_eq!(out, br#"{"s":"\uFFFD"}"#.to_vec());
}

#[test]
fn lone_low_surrogate_is_replaced() {
    let input = br#"{"s":"\uDC00"}"#.to_vec();
    let out = filter_bytes(&input);
    assert_eq!(out, br#"{"s":"\uFFFD"}"#.to_vec());
}

#[test]
fn valid_pair_passes_through() {
    let input = br#"{"s":"\uD83D\uDE00"}"#.to_vec();
    let out = filter_bytes(&input);
    assert_eq!(out, input);
}

#[test]
fn plain_ascii_passes_through() {
    let input = br#"{"snapshot":{},"nodes":[1,2],"strings":["a\n\"b\""]}"#.to_vec();
    let out = filter_bytes(&input);
    assert_eq!(out, input);
}

#[test]
fn non_hex_escape_payload_passes_through() {
    let input = br#"["A", 123, "\uZZ99"]"#.to_vec();
    let out = filter_bytes(&input);
    assert_eq!(out, input);
}

#[test]
fn reader_filters_its_stream() {
    let reader = LenientJsonReader::new(br#""\uDFFF""#.to_vec());
    let out = reader.into_filtered();
    assert_eq!(out, br#""\uFFFD""#.to_vec());
}

#[test]
fn partial_escape_at_end_passes_through() {
    let input = br#""\u12"#.to_vec();
    let out = filter_bytes(&input);
    assert_eq!(out, input);
}
