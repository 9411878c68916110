use heapsnap::cancel::CancelToken;
use heapsnap::detail::{detail, DetailOptions, DetailResult};
use heapsnap::parser::{read_snapshot, ReadOptions};
use heapsnap::snapshot::SnapshotRaw;

fn detail_fixture() -> SnapshotRaw {
    let json = r#"
    {
      "snapshot": { "meta": {
          "node_fields": ["type","name","id","self_size","edge_count"],
          "node_types": [["synthetic","object"],"string","number","number","number"],
          "edge_fields": ["type","name_or_index","to_node"],
          "edge_types": [["property","element"],"string_or_number","node"]
      }},
      "nodes": [0, 0, 1, 0, 2,
                1, 1, 2, 10, 1,
                1, 1, 3, 40, 0],
      "edges": [0, 1, 5,
                1, 0, 10,
                0, 2, 10],
      "strings": ["GC roots", "Widget", "slot"]
    }
    "#;
    let data = json.as_bytes().to_vec();
    let options = ReadOptions::new(false, CancelToken::new());
    read_snapshot(&data, &options).expect("snapshot")
}

#[test]
fn detail_by_name_aggregates() {
    let snapshot = detail_fixture();
    let result = detail(
        &snapshot,
        DetailOptions {
            id: None,
            name: Some("Widget".to_string()),
            skip: 0,
            limit: 10,
            top_retainers: 5,
            top_edges: 5,
        },
    )
    .expect("detail");
    match result {
        DetailResult::ByName(d) => {
            assert_eq!(d.name, "Widget");
            assert_eq!(d.total_count, 2);
            assert_eq!(d.self_size_sum, 50);
            assert_eq!(d.max_self_size, 40);
            assert_eq!(d.min_self_size, 10);
            assert_eq!(d.ids.len(), 2);
            assert_eq!(d.ids[0].index, 1);
            assert_eq!(d.ids[1].index, 2);
        }
        DetailResult::ById(_) => panic!("expected a by-name report"),
    }
}

#[test]
fn detail_by_id_report() {
    let snapshot = detail_fixture();
    let result = detail(
        &snapshot,
        DetailOptions {
            id: Some(3),
            name: None,
            skip: 0,
            limit: 10,
            top_retainers: 5,
            top_edges: 5,
        },
    )
    .expect("detail");
    match result {
        DetailResult::ById(d) => {
            assert_eq!(d.node_index, 2);
            assert_eq!(d.name, "Widget");
            assert_eq!(d.self_size, 40);
            assert_eq!(d.total_count, 2);
            // two edges arrive at the target: from the root and from
            // the other widget
            assert_eq!(d.retainers.len(), 2);
            assert_eq!(d.retainers[0].from_index, 1);
            assert_eq!(d.retainers[0].from_self_size, 10);
            assert_eq!(d.retainers[1].from_index, 0);
            // the property edge resolves its string; the element edge
            // renders with its bracketed index
            assert_eq!(d.retainers[0].edge_name.as_deref(), Some("slot"));
            assert_eq!(d.retainers[1].edge_name.as_deref(), Some("[0]"));
            // the size histogram puts one widget in [1,31] and one in
            // [32,127]
            assert_eq!(d.shallow_size_distribution.len(), 8);
            assert_eq!(d.shallow_size_distribution[1].label, "1-31");
            assert_eq!(d.shallow_size_distribution[1].count, 1);
            assert_eq!(d.shallow_size_distribution[2].label, "32-127");
            assert_eq!(d.shallow_size_distribution[2].count, 1);
            assert_eq!(d.shallow_size_distribution[7].label, "32768+");
            assert_eq!(d.shallow_size_distribution[7].count, 0);
        }
        DetailResult::ByName(_) => panic!("expected a by-id report"),
    }
}

#[test]
fn detail_edge_name_sentinels() {
    // an out-of-range string payload and a negative payload render as
    // sentinel forms
    let json = r#"
    {
      "snapshot": { "meta": {
          "node_fields": ["type","name","id","self_size","edge_count"],
          "node_types": [["object"],"string","number","number","number"],
          "edge_fields": ["type","name_or_index","to_node"],
          "edge_types": [["property"],"string_or_number","node"]
      }},
      "nodes": [0, 0, 1, 5, 2,
                0, 0, 2, 9, 0],
      "edges": [0, 99, 5,
                0, -5, 5],
      "strings": ["Thing"]
    }
    "#;
    let data = json.as_bytes().to_vec();
    let options = heapsnap::parser::ReadOptions::new(false, heapsnap::cancel::CancelToken::new());
    let snapshot = heapsnap::parser::read_snapshot(&data, &options).expect("snapshot");
    let result = detail(
        &snapshot,
        DetailOptions {
            id: Some(2),
            name: None,
            skip: 0,
            limit: 10,
            top_retainers: 5,
            top_edges: 5,
        },
    )
    .expect("detail");
    match result {
        DetailResult::ById(d) => {
            assert_eq!(d.retainers.len(), 2);
            let mut names: Vec<String> = d
                .retainers
                .iter()
                .map(|r| r.edge_name.clone().unwrap())
                .collect();
            names.sort();
            assert_eq!(names, vec!["<name:-5>".to_string(), "<string:99>".to_string()]);
        }
        DetailResult::ByName(_) => panic!("expected a by-id report"),
    }
}

#[test]
fn detail_selector_misuse_is_invalid_data() {
    let snapshot = detail_fixture();
    let both = detail(
        &snapshot,
        DetailOptions {
            id: Some(1),
            name: Some("Widget".to_string()),
            skip: 0,
            limit: 10,
            top_retainers: 5,
            top_edges: 5,
        },
    );
    assert!(matches!(
        both,
        Err(heapsnap::error::SnapshotError::InvalidData { .. })
    ));
    let neither = detail(
        &snapshot,
        DetailOptions {
            id: None,
            name: None,
            skip: 0,
            limit: 10,
            top_retainers: 5,
            top_edges: 5,
        },
    );
    assert!(matches!(
        neither,
        Err(heapsnap::error::SnapshotError::InvalidData { .. })
    ));
}

#[test]
fn detail_unknown_name_is_invalid_data() {
    let snapshot = detail_fixture();
    let result = detail(
        &snapshot,
        DetailOptions {
            id: None,
            name: Some("Nothing".to_string()),
            skip: 0,
            limit: 10,
            top_retainers: 5,
            top_edges: 5,
        },
    );
    assert!(matches!(
        result,
        Err(heapsnap::error::SnapshotError::InvalidData { .. })
    ));
}
