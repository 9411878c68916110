use heapsnap::cancel::CancelToken;
use heapsnap::offsets::compute_edge_offsets;
use heapsnap::parser::{read_snapshot, ReadOptions};

#[test]
fn parse_minimal_snapshot() {
    let json = r#"
    {
      "snapshot": {
        "meta": {
          "node_fields": ["type","name","id","self_size","edge_count"],
          "node_types": [
            ["object","string"],
            "string",
            "number",
            "number",
            "number"
          ],
          "edge_fields": ["type","name_or_index","to_node"],
          "edge_types": [
            ["property","element"],
            "string_or_number",
            "node"
          ]
        }
      },
      "nodes": [0, 0, 1, 10, 0],
      "edges": [],
      "strings": ["Root"]
    }
    "#;

    let data = json.as_bytes().to_vec();
    let options = ReadOptions::new(false, CancelToken::new());
    let snapshot = read_snapshot(&data, &options).expect("parse ok");
    assert_eq!(snapshot.node_count(), 1);
    let node = snapshot.node_view(0).expect("node");
    assert_eq!(node.node_type(), Some("object"));
    assert_eq!(node.name(), Some("Root"));
    assert_eq!(node.id(), Some(1));
    assert_eq!(node.self_size(), Some(10));
}

#[test]
fn parse_lone_surrogate() {
    let json = r#"
    {
      "snapshot": {
        "meta": {
          "node_fields": ["type","name","id","self_size","edge_count"],
          "node_types": [
            ["object"],
            "string",
            "number",
            "number",
            "number"
          ],
          "edge_fields": ["type","name_or_index","to_node"],
          "edge_types": [
            ["property"],
            "string_or_number",
            "node"
          ]
        }
      },
      "nodes": [0, 0, 1, 10, 0],
      "edges": [],
      "strings": ["\uD800"]
    }
    "#;

    let data = json.as_bytes().to_vec();
    let options = ReadOptions::new(false, CancelToken::new());
    let snapshot = read_snapshot(&data, &options).expect("parse ok");
    assert_eq!(snapshot.strings[0], "\u{FFFD}");
}

#[test]
fn parse_surrogate_pair_is_kept() {
    let json = r#"
    {
      "snapshot": {
        "meta": {
          "node_fields": ["type","name","id","self_size","edge_count"],
          "node_types": [["object"],"string","number","number","number"],
          "edge_fields": ["type","name_or_index","to_node"],
          "edge_types": [["property"],"string_or_number","node"]
        }
      },
      "nodes": [0, 0, 1, 10, 0],
      "edges": [],
      "strings": ["\uD83D\uDE00"]
    }
    "#;

    let data = json.as_bytes().to_vec();
    let options = ReadOptions::new(false, CancelToken::new());
    let snapshot = read_snapshot(&data, &options).expect("parse ok");
    assert_eq!(snapshot.strings[0], "\u{1F600}");
}

#[test]
fn parse_bad_column_shape_is_invalid_data() {
    let json = r#"
    {
      "snapshot": {
        "meta": {
          "node_fields": ["type","name","id","self_size","edge_count"],
          "node_types": [["object"],"string","number","number","number"],
          "edge_fields": ["type","name_or_index","to_node"],
          "edge_types": [["property"],"string_or_number","node"]
        }
      },
      "nodes": [0, 0, 1, 10],
      "edges": [],
      "strings": []
    }
    "#;

    let data = json.as_bytes().to_vec();
    let options = ReadOptions::new(false, CancelToken::new());
    let result = read_snapshot(&data, &options);
    assert!(matches!(
        result,
        Err(heapsnap::error::SnapshotError::InvalidData { .. })
    ));
}

#[test]
fn parse_bad_meta_is_meta_mismatch() {
    let json = r#"
    {
      "snapshot": {
        "meta": {
          "node_fields": ["type","name","id","self_size","edge_count"],
          "node_types": ["object","string","number","number","number"],
          "edge_fields": ["type","name_or_index","to_node"],
          "edge_types": [["property"],"string_or_number","node"]
        }
      },
      "nodes": [],
      "edges": [],
      "strings": []
    }
    "#;

    let data = json.as_bytes().to_vec();
    let options = ReadOptions::new(false, CancelToken::new());
    let result = read_snapshot(&data, &options);
    assert!(matches!(
        result,
        Err(heapsnap::error::SnapshotError::MetaMismatch { .. })
    ));
}

#[test]
fn columns_factor_into_whole_records() {
    let json = r#"
    {
      "snapshot": {
        "meta": {
          "node_fields": ["type","name","id","self_size","edge_count"],
          "node_types": [["object"],"string","number","number","number"],
          "edge_fields": ["type","name_or_index","to_node"],
          "edge_types": [["property"],"string_or_number","node"]
        }
      },
      "nodes": [0, 0, 1, 10, 1,
                0, 0, 2, 20, 0],
      "edges": [0, 0, 5],
      "strings": ["Only"]
    }
    "#;

    let data = json.as_bytes().to_vec();
    let options = ReadOptions::new(false, CancelToken::new());
    let snapshot = read_snapshot(&data, &options).expect("parse ok");
    assert_eq!(
        snapshot.node_count() * snapshot.index.node_field_count,
        snapshot.nodes.len()
    );
    assert_eq!(
        snapshot.edge_count() * snapshot.index.edge_field_count,
        snapshot.edges.len()
    );
}

#[test]
fn edge_count_sum_mismatch_is_invalid_data() {
    let json = r#"
    {
      "snapshot": {
        "meta": {
          "node_fields": ["type","name","id","self_size","edge_count"],
          "node_types": [["object"],"string","number","number","number"],
          "edge_fields": ["type","name_or_index","to_node"],
          "edge_types": [["property"],"string_or_number","node"]
        }
      },
      "nodes": [0, 0, 1, 10, 2],
      "edges": [0, 0, 0],
      "strings": ["Only"]
    }
    "#;

    let data = json.as_bytes().to_vec();
    let options = ReadOptions::new(false, CancelToken::new());
    let snapshot = read_snapshot(&data, &options).expect("parse ok");
    let result = compute_edge_offsets(&snapshot);
    assert!(matches!(
        result,
        Err(heapsnap::error::SnapshotError::InvalidData { .. })
    ));
}

#[test]
fn edge_offsets_are_prefix_sums() {
    let json = r#"
    {
      "snapshot": {
        "meta": {
          "node_fields": ["type","name","id","self_size","edge_count"],
          "node_types": [["object"],"string","number","number","number"],
          "edge_fields": ["type","name_or_index","to_node"],
          "edge_types": [["property"],"string_or_number","node"]
        }
      },
      "nodes": [0, 0, 1, 10, 2,
                0, 0, 2, 20, 1,
                0, 0, 3, 30, 0],
      "edges": [0, 0, 5,
                0, 0, 10,
                0, 0, 0],
      "strings": ["Only"]
    }
    "#;

    let data = json.as_bytes().to_vec();
    let options = ReadOptions::new(false, CancelToken::new());
    let snapshot = read_snapshot(&data, &options).expect("parse ok");
    let offsets = compute_edge_offsets(&snapshot).expect("offsets");
    assert_eq!(offsets, vec![0, 2, 3]);
}
