use heapsnap::cancel::CancelToken;
use heapsnap::parser::{read_snapshot, ReadOptions};
use heapsnap::retainers::{
    find_retaining_paths, find_target_by_id, find_target_by_name, find_roots, PickStrategy,
    RetainersOptions,
};
use heapsnap::snapshot::{MetaType, SnapshotMeta, SnapshotRaw};

fn sample_snapshot() -> SnapshotRaw {
    let meta = SnapshotMeta {
        node_fields: vec![
            "type".to_string(),
            "name".to_string(),
            "id".to_string(),
            "self_size".to_string(),
            "edge_count".to_string(),
        ],
        node_types: vec![
            MetaType::Array(vec!["synthetic".to_string(), "object".to_string()]),
            MetaType::Name("string".to_string()),
            MetaType::Name("number".to_string()),
            MetaType::Name("number".to_string()),
            MetaType::Name("number".to_string()),
        ],
        edge_fields: vec![
            "type".to_string(),
            "name_or_index".to_string(),
            "to_node".to_string(),
        ],
        edge_types: vec![
            MetaType::Array(vec!["property".to_string()]),
            MetaType::Name("string_or_number".to_string()),
            MetaType::Name("node".to_string()),
        ],
    };
    let index = meta.validate().expect("meta ok");

    SnapshotRaw {
        nodes: vec![
            0, 0, 1, 0, 1, // node 0: GC roots
            1, 1, 2, 0, 0, // node 1: App
        ],
        edges: vec![
            0, 1, 5, // edge 0: from node 0 to node 1
        ],
        strings: vec!["GC roots".to_string(), "App".to_string()],
        meta,
        index,
    }
}

fn small_fixture_document() -> Vec<u8> {
    let json = r#"
    {
      "snapshot": { "meta": {
          "node_fields": ["type","name","id","self_size","edge_count"],
          "node_types": [["synthetic","object"],"string","number","number","number"],
          "edge_fields": ["type","name_or_index","to_node"],
          "edge_types": [["property"],"string_or_number","node"]
      }},
      "nodes": [0, 0, 1, 0, 1,
                1, 1, 2, 10, 1,
                1, 2, 3, 20, 0],
      "edges": [0, 1, 5,
                0, 2, 10],
      "strings": ["GC roots", "Node1", "Node2"]
    }
    "#;
    json.as_bytes().to_vec()
}

#[test]
fn find_path_from_root() {
    let snapshot = sample_snapshot();
    let result = find_retaining_paths(
        &snapshot,
        1,
        RetainersOptions {
            max_paths: 5,
            max_depth: 5,
            cancel: CancelToken::new(),
        },
    )
    .expect("paths");

    assert_eq!(result.paths.len(), 1);
    assert_eq!(result.paths[0].len(), 1);
    assert_eq!(result.paths[0][0].from_node, 0);
    assert_eq!(result.paths[0][0].to_node, 1);
}

#[test]
fn retainers_paths_fixture_small() {
    let bytes = small_fixture_document();
    let options = ReadOptions::new(false, CancelToken::new());
    let snapshot = read_snapshot(&bytes, &options).expect("snapshot");

    let target = find_target_by_id(&snapshot, 3).expect("target");
    let result = find_retaining_paths(
        &snapshot,
        target,
        RetainersOptions {
            max_paths: 5,
            max_depth: 10,
            cancel: CancelToken::new(),
        },
    )
    .expect("paths");

    assert_eq!(result.paths.len(), 1);
    assert_eq!(result.paths[0].len(), 2);
    assert_eq!(result.paths[0][0].from_node, 0);
    assert_eq!(result.paths[0].last().unwrap().to_node, target);
}

#[test]
fn retainers_cancelled() {
    let bytes = small_fixture_document();
    let options = ReadOptions::new(false, CancelToken::new());
    let snapshot = read_snapshot(&bytes, &options).expect("snapshot");

    let target = find_target_by_id(&snapshot, 3).expect("target");
    let token = CancelToken::new();
    token.cancel();

    let result = find_retaining_paths(
        &snapshot,
        target,
        RetainersOptions {
            max_paths: 5,
            max_depth: 10,
            cancel: token,
        },
    );

    assert!(matches!(
        result,
        Err(heapsnap::error::SnapshotError::Cancelled)
    ));
}

#[test]
fn target_by_name_picks_largest_group() {
    let bytes = small_fixture_document();
    let options = ReadOptions::new(false, CancelToken::new());
    let snapshot = read_snapshot(&bytes, &options).expect("snapshot");

    let target = find_target_by_name(&snapshot, "Node", PickStrategy::Largest).expect("target");
    assert_eq!(target, 2);
}

#[test]
fn roots_fall_back_to_node_zero() {
    let bytes = small_fixture_document();
    let options = ReadOptions::new(false, CancelToken::new());
    let mut snapshot = read_snapshot(&bytes, &options).expect("snapshot");
    snapshot.strings[0] = "not a root".to_string();

    let roots = find_roots(&snapshot).expect("roots");
    assert_eq!(roots, vec![0]);
}

#[test]
fn target_that_is_a_root_yields_one_empty_path() {
    let snapshot = sample_snapshot();
    let result = find_retaining_paths(
        &snapshot,
        0,
        RetainersOptions {
            max_paths: 5,
            max_depth: 5,
            cancel: CancelToken::new(),
        },
    )
    .expect("paths");
    assert_eq!(result.paths.len(), 1);
    assert!(result.paths[0].is_empty());
}
