use heapsnap::cancel::CancelToken;
use heapsnap::parser::{read_snapshot, ReadOptions};

#[test]
fn parse_invalid_json() {
    let data = b"{ invalid json".to_vec();
    let options = ReadOptions::new(false, CancelToken::new());
    let result = read_snapshot(&data, &options);
    assert!(matches!(
        result,
        Err(heapsnap::error::SnapshotError::Json { .. })
    ));
}

#[test]
fn parse_missing_meta() {
    let json = r#"{ "snapshot": {}, "nodes": [], "edges": [], "strings": [] }"#;
    let data = json.as_bytes().to_vec();
    let options = ReadOptions::new(false, CancelToken::new());
    let result = read_snapshot(&data, &options);
    assert!(matches!(
        result,
        Err(heapsnap::error::SnapshotError::InvalidData { .. })
    ));
}

#[test]
fn parse_cancelled() {
    let json = r#"{ "snapshot": {}, "nodes": [], "edges": [], "strings": [] }"#;
    let data = json.as_bytes().to_vec();
    let token = CancelToken::new();
    token.cancel();
    let options = ReadOptions::new(false, token);
    let result = read_snapshot(&data, &options);
    assert!(matches!(
        result,
        Err(heapsnap::error::SnapshotError::Cancelled)
    ));
}
