use heapsnap::cancel::CancelToken;
use heapsnap::dominator::{dominator_chain, DominatorOptions};
use heapsnap::parser::{read_snapshot, ReadOptions};
use heapsnap::retainers::find_target_by_id;
use heapsnap::snapshot::SnapshotRaw;

fn small_fixture() -> SnapshotRaw {
    let json = r#"
    {
      "snapshot": { "meta": {
          "node_fields": ["type","name","id","self_size","edge_count"],
          "node_types": [["synthetic","object"],"string","number","number","number"],
          "edge_fields": ["type","name_or_index","to_node"],
          "edge_types": [["property"],"string_or_number","node"]
      }},
      "nodes": [0, 0, 1, 0, 1,
                1, 1, 2, 10, 1,
                1, 2, 3, 20, 0],
      "edges": [0, 1, 5,
                0, 2, 10],
      "strings": ["GC roots", "Node1", "Node2"]
    }
    "#;
    let data = json.as_bytes().to_vec();
    let options = ReadOptions::new(false, CancelToken::new());
    read_snapshot(&data, &options).expect("snapshot")
}

#[test]
fn dominator_chain_fixture_small() {
    let snapshot = small_fixture();
    let target = find_target_by_id(&snapshot, 3).expect("target");
    let result = dominator_chain(
        &snapshot,
        target,
        DominatorOptions {
            max_depth: 10,
            cancel: CancelToken::new(),
        },
    )
    .expect("dominator");
    assert!(result.chain.len() >= 2);
    assert_eq!(result.chain[0], 0);
    assert_eq!(*result.chain.last().unwrap(), target);
    assert_eq!(result.chain, vec![0, 1, 2]);
}

#[test]
fn dominator_cancelled() {
    let snapshot = small_fixture();
    let target = find_target_by_id(&snapshot, 3).expect("target");
    let token = CancelToken::new();
    token.cancel();
    let result = dominator_chain(
        &snapshot,
        target,
        DominatorOptions {
            max_depth: 10,
            cancel: token,
        },
    );
    assert!(matches!(
        result,
        Err(heapsnap::error::SnapshotError::Cancelled)
    ));
}

#[test]
fn dominator_unreachable_target_is_invalid_data() {
    let json = r#"
    {
      "snapshot": { "meta": {
          "node_fields": ["type","name","id","self_size","edge_count"],
          "node_types": [["synthetic","object"],"string","number","number","number"],
          "edge_fields": ["type","name_or_index","to_node"],
          "edge_types": [["property"],"string_or_number","node"]
      }},
      "nodes": [0, 0, 1, 0, 0,
                1, 1, 2, 10, 0],
      "edges": [],
      "strings": ["GC roots", "Island"]
    }
    "#;
    let data = json.as_bytes().to_vec();
    let options = ReadOptions::new(false, CancelToken::new());
    let snapshot = read_snapshot(&data, &options).expect("snapshot");
    let target = find_target_by_id(&snapshot, 2).expect("target");
    let result = dominator_chain(
        &snapshot,
        target,
        DominatorOptions {
            max_depth: 10,
            cancel: CancelToken::new(),
        },
    );
    assert!(matches!(
        result,
        Err(heapsnap::error::SnapshotError::InvalidData { .. })
    ));
}
