use heapsnap::snapshot::{MetaType, SnapshotMeta};

#[test]
fn validate_meta_indexes() {
    let meta = SnapshotMeta {
        node_fields: vec![
            "type".to_string(),
            "name".to_string(),
            "id".to_string(),
            "self_size".to_string(),
            "edge_count".to_string(),
        ],
        node_types: vec![
            MetaType::Array(vec!["object".to_string(), "string".to_string()]),
            MetaType::Name("string".to_string()),
            MetaType::Name("number".to_string()),
            MetaType::Name("number".to_string()),
            MetaType::Name("number".to_string()),
        ],
        edge_fields: vec![
            "type".to_string(),
            "name_or_index".to_string(),
            "to_node".to_string(),
        ],
        edge_types: vec![
            MetaType::Array(vec!["property".to_string(), "element".to_string()]),
            MetaType::Name("string_or_number".to_string()),
            MetaType::Name("node".to_string()),
        ],
    };

    let index = meta.validate().expect("meta valid");
    assert_eq!(index.node_field_count, 5);
    assert_eq!(index.edge_field_count, 3);
    assert_eq!(index.node_type_names.len(), 2);
    assert_eq!(index.edge_type_names.len(), 2);
}

#[test]
fn validate_missing_field_is_meta_mismatch() {
    let meta = SnapshotMeta {
        node_fields: vec!["type".to_string(), "name".to_string()],
        node_types: vec![
            MetaType::Array(vec!["object".to_string()]),
            MetaType::Name("string".to_string()),
        ],
        edge_fields: vec![
            "type".to_string(),
            "name_or_index".to_string(),
            "to_node".to_string(),
        ],
        edge_types: vec![
            MetaType::Array(vec!["property".to_string()]),
            MetaType::Name("string_or_number".to_string()),
            MetaType::Name("node".to_string()),
        ],
    };

    let result = meta.validate();
    assert!(matches!(
        result,
        Err(heapsnap::error::SnapshotError::MetaMismatch { .. })
    ));
}
