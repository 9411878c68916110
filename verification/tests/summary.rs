use heapsnap::snapshot::{MetaType, SnapshotMeta, SnapshotRaw};
use heapsnap::summary::{summarize, SummaryOptions};

fn minimal_snapshot() -> SnapshotRaw {
    let meta = SnapshotMeta {
        node_fields: vec![
            "type".to_string(),
            "name".to_string(),
            "id".to_string(),
            "self_size".to_string(),
            "edge_count".to_string(),
        ],
        node_types: vec![
            MetaType::Array(vec!["object".to_string()]),
            MetaType::Name("string".to_string()),
            MetaType::Name("number".to_string()),
            MetaType::Name("number".to_string()),
            MetaType::Name("number".to_string()),
        ],
        edge_fields: vec![
            "type".to_string(),
            "name_or_index".to_string(),
            "to_node".to_string(),
        ],
        edge_types: vec![
            MetaType::Array(vec!["property".to_string()]),
            MetaType::Name("string_or_number".to_string()),
            MetaType::Name("node".to_string()),
        ],
    };
    let index = meta.validate().expect("meta valid");

    SnapshotRaw {
        nodes: vec![
            0, 0, 1, 10, 0, // node 0: name index 0
            0, 1, 2, 20, 0, // node 1: name index 1
            0, 0, 3, 5, 0, // node 2: name index 0
        ],
        edges: vec![],
        strings: vec!["Foo".to_string(), "Bar".to_string()],
        meta,
        index,
    }
}

#[test]
fn summarize_counts() {
    let snapshot = minimal_snapshot();
    let result = summarize(
        &snapshot,
        SummaryOptions {
            top: 10,
            contains: None,
        },
    )
    .expect("summary");

    assert_eq!(result.total_nodes, 3);
    assert_eq!(result.rows.len(), 2);
    assert_eq!(result.rows[0].name, "Bar");
    assert_eq!(result.rows[0].self_size_sum, 20);
    assert_eq!(result.rows[1].name, "Foo");
    assert_eq!(result.rows[1].count, 2);
}

#[test]
fn summarize_contains_filter_matches_partial() {
    let snapshot = minimal_snapshot();
    let result = summarize(
        &snapshot,
        SummaryOptions {
            top: 10,
            contains: Some("Fo".to_string()),
        },
    )
    .expect("summary");

    assert_eq!(result.rows.len(), 1);
    assert_eq!(result.rows[0].name, "Foo");
    assert_eq!(result.rows[0].count, 2);
}

#[test]
fn summarize_contains_filter_is_case_sensitive() {
    let snapshot = minimal_snapshot();
    let result = summarize(
        &snapshot,
        SummaryOptions {
            top: 10,
            contains: Some("foo".to_string()),
        },
    )
    .expect("summary");

    assert!(result.rows.is_empty());
}

#[test]
fn summarize_raising_top_only_appends() {
    let snapshot = minimal_snapshot();
    let small = summarize(
        &snapshot,
        SummaryOptions {
            top: 1,
            contains: None,
        },
    )
    .expect("summary");
    let large = summarize(
        &snapshot,
        SummaryOptions {
            top: 2,
            contains: None,
        },
    )
    .expect("summary");

    assert_eq!(small.rows.len(), 1);
    assert_eq!(large.rows.len(), 2);
    assert_eq!(small.rows[0].name, large.rows[0].name);
    assert_eq!(small.rows[0].count, large.rows[0].count);
    assert_eq!(small.rows[0].self_size_sum, large.rows[0].self_size_sum);
}

#[test]
fn summarize_groups_empty_names_by_type() {
    let mut snapshot = minimal_snapshot();
    snapshot.strings = vec!["".to_string(), "Bar".to_string()];
    let result = summarize(
        &snapshot,
        SummaryOptions {
            top: 10,
            contains: None,
        },
    )
    .expect("summary");

    assert_eq!(result.empty_name_types.len(), 1);
    assert_eq!(result.empty_name_types[0].node_type, "object");
    assert_eq!(result.empty_name_types[0].count, 2);
    assert_eq!(result.empty_name_types[0].self_size_sum, 15);
}

#[test]
fn summarize_invalid_name_index_is_invalid_data() {
    let mut snapshot = minimal_snapshot();
    snapshot.nodes[1] = 99; // name index far out of the strings table
    let result = summarize(
        &snapshot,
        SummaryOptions {
            top: 10,
            contains: None,
        },
    );
    assert!(matches!(
        result,
        Err(heapsnap::error::SnapshotError::InvalidData { .. })
    ));
}
