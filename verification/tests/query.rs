use heapsnap::query::{parse_query, query_u64, query_usize, split_target, url_decode, url_encode};

#[test]
fn parse_query_decodes_values() {
    let q = parse_query("name=Foo%20Bar&id=123");
    assert_eq!(q.get("name").map(String::as_str), Some("Foo Bar"));
    assert_eq!(q.get("id").map(String::as_str), Some("123"));
}

#[test]
fn split_target_handles_query() {
    let (path, query) = split_target("/detail?id=1");
    assert_eq!(path, "/detail");
    assert_eq!(query, "id=1");
}

#[test]
fn split_target_without_query_keeps_path() {
    let (path, query) = split_target("/summary");
    assert_eq!(path, "/summary");
    assert_eq!(query, "");
}

#[test]
fn url_codec_round_trips_plain_text() {
    let original = "Foo Bar-42_.~";
    let encoded = url_encode(original);
    assert_eq!(encoded, "Foo%20Bar-42_.~");
    let decoded = url_decode(&encoded);
    assert_eq!(decoded, original);
}

#[test]
fn numeric_query_parameters() {
    let q = parse_query("top=99&bad=zz");
    assert_eq!(query_usize(&q, "top", 50), 99);
    assert_eq!(query_usize(&q, "bad", 50), 50);
    assert_eq!(query_u64(&q, "top").expect("top"), 99);
    assert!(matches!(
        query_u64(&q, "missing"),
        Err(heapsnap::error::SnapshotError::InvalidData { .. })
    ));
}
