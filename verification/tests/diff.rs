use heapsnap::cancel::CancelToken;
use heapsnap::diff::{diff_summaries, DiffOptions};
use heapsnap::parser::{read_snapshot, ReadOptions};
use heapsnap::snapshot::SnapshotRaw;

fn snapshot_from(json: &str) -> SnapshotRaw {
    let data = json.as_bytes().to_vec();
    let options = ReadOptions::new(false, CancelToken::new());
    read_snapshot(&data, &options).expect("snapshot")
}

fn base_doc(nodes: &str, strings: &str) -> String {
    format!(
        r#"
    {{
      "snapshot": {{ "meta": {{
          "node_fields": ["type","name","id","self_size","edge_count"],
          "node_types": [["object"],"string","number","number","number"],
          "edge_fields": ["type","name_or_index","to_node"],
          "edge_types": [["property"],"string_or_number","node"]
      }}}},
      "nodes": [{}],
      "edges": [],
      "strings": [{}]
    }}
    "#,
        nodes, strings
    )
}

#[test]
fn diff_identity_has_zero_deltas() {
    let doc = base_doc("0, 0, 1, 10, 0,  0, 1, 2, 20, 0", r#""Foo", "Bar""#);
    let a = snapshot_from(&doc);
    let b = snapshot_from(&doc);
    let result = diff_summaries(
        &a,
        &b,
        DiffOptions {
            top: 10,
            contains: None,
        },
    )
    .expect("diff");
    assert_eq!(result.rows.len(), 2);
    for row in &result.rows {
        assert_eq!(row.count_delta, 0);
        assert_eq!(row.self_size_sum_delta, 0);
        assert_eq!(row.count_a, row.count_b);
        assert_eq!(row.self_size_sum_a, row.self_size_sum_b);
    }
}

#[test]
fn diff_reports_growth() {
    let doc_a = base_doc("0, 0, 1, 10, 0", r#""Foo""#);
    let doc_b = base_doc("0, 0, 1, 10, 0,  0, 0, 2, 30, 0,  0, 1, 3, 5, 0", r#""Foo", "New""#);
    let a = snapshot_from(&doc_a);
    let b = snapshot_from(&doc_b);
    let result = diff_summaries(
        &a,
        &b,
        DiffOptions {
            top: 10,
            contains: None,
        },
    )
    .expect("diff");
    assert_eq!(result.total_nodes_a, 1);
    assert_eq!(result.total_nodes_b, 3);
    assert_eq!(result.rows.len(), 2);
    assert_eq!(result.rows[0].name, "Foo");
    assert_eq!(result.rows[0].count_a, 1);
    assert_eq!(result.rows[0].count_b, 2);
    assert_eq!(result.rows[0].count_delta, 1);
    assert_eq!(result.rows[0].self_size_sum_delta, 30);
    assert_eq!(result.rows[1].name, "New");
    assert_eq!(result.rows[1].count_a, 0);
    assert_eq!(result.rows[1].count_b, 1);
    assert_eq!(result.rows[1].self_size_sum_delta, 5);
}

#[test]
fn diff_contains_filter_limits_names() {
    let doc_a = base_doc("0, 0, 1, 10, 0,  0, 1, 2, 20, 0", r#""Foo", "Bar""#);
    let doc_b = base_doc("0, 0, 1, 15, 0,  0, 1, 2, 10, 0", r#""Foo", "Bar""#);
    let a = snapshot_from(&doc_a);
    let b = snapshot_from(&doc_b);
    let result = diff_summaries(
        &a,
        &b,
        DiffOptions {
            top: 10,
            contains: Some("Bar".to_string()),
        },
    )
    .expect("diff");
    assert_eq!(result.rows.len(), 1);
    assert_eq!(result.rows[0].name, "Bar");
    assert_eq!(result.rows[0].self_size_sum_delta, -10);
}
