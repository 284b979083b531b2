use succinct_json::kinds::{
    ARRAY_CLOSE_ID, ARRAY_OPEN_ID, BOOLEAN_CLOSE_ID, BOOLEAN_OPEN_ID, NULL_CLOSE_ID, NULL_OPEN_ID,
    NUMBER_CLOSE_ID, NUMBER_OPEN_ID, OBJECT_CLOSE_ID, OBJECT_OPEN_ID, STRING_CLOSE_ID,
    STRING_OPEN_ID,
};
use succinct_json::{NodeInfo, NodeInfoId, NodeLookup, NodeInfoVec, NodeType};

#[test]
fn test_register_predefined_nodes() {
    let mut lookup = NodeLookup::new();

    let object_open = NodeInfo::open(NodeType::Object);
    let object_close = NodeInfo::close(NodeType::Object);

    let object_open_id = lookup.register(object_open.clone());
    let object_close_id = lookup.register(object_close.clone());

    assert_eq!(object_open_id, NodeInfoId::new(OBJECT_OPEN_ID));
    assert_eq!(object_close_id, NodeInfoId::new(OBJECT_CLOSE_ID));

    let array_open = NodeInfo::open(NodeType::Array);
    let array_close = NodeInfo::close(NodeType::Array);

    let array_open_id = lookup.register(array_open.clone());
    let array_close_id = lookup.register(array_close.clone());

    assert_eq!(array_open_id, NodeInfoId::new(ARRAY_OPEN_ID));
    assert_eq!(array_close_id, NodeInfoId::new(ARRAY_CLOSE_ID));

    let string_open = NodeInfo::open(NodeType::String);
    let string_close = NodeInfo::close(NodeType::String);

    let string_open_id = lookup.register(string_open.clone());
    let string_close_id = lookup.register(string_close.clone());

    assert_eq!(string_open_id, NodeInfoId::new(STRING_OPEN_ID));
    assert_eq!(string_close_id, NodeInfoId::new(STRING_CLOSE_ID));

    let number_open = NodeInfo::open(NodeType::Number);
    let number_close = NodeInfo::close(NodeType::Number);

    let number_open_id = lookup.register(number_open.clone());
    let number_close_id = lookup.register(number_close.clone());

    assert_eq!(number_open_id, NodeInfoId::new(NUMBER_OPEN_ID));
    assert_eq!(number_close_id, NodeInfoId::new(NUMBER_CLOSE_ID));

    let boolean_open = NodeInfo::open(NodeType::Boolean);
    let boolean_close = NodeInfo::close(NodeType::Boolean);

    let boolean_open_id = lookup.register(boolean_open.clone());
    let boolean_close_id = lookup.register(boolean_close.clone());

    assert_eq!(boolean_open_id, NodeInfoId::new(BOOLEAN_OPEN_ID));
    assert_eq!(boolean_close_id, NodeInfoId::new(BOOLEAN_CLOSE_ID));

    let null_open = NodeInfo::open(NodeType::Null);
    let null_close = NodeInfo::close(NodeType::Null);

    let null_open_id = lookup.register(null_open.clone());
    let null_close_id = lookup.register(null_close.clone());

    assert_eq!(null_open_id, NodeInfoId::new(NULL_OPEN_ID));
    assert_eq!(null_close_id, NodeInfoId::new(NULL_CLOSE_ID));
}

#[test]
fn test_register_field_nodes() {
    let mut lookup = NodeLookup::new();

    let field1 = NodeInfo::open(NodeType::Field("name".to_string()));
    let field2 = NodeInfo::open(NodeType::Field("age".to_string()));

    let field1_id = lookup.register(field1.clone());
    let field2_id = lookup.register(field2.clone());

    let field1_id_again = lookup.register(field1.clone());
    let field2_id_again = lookup.register(field2.clone());

    assert_eq!(field1_id, field1_id_again);
    assert_eq!(field2_id, field2_id_again);
}

#[test]
fn test_lookup_by_node_info() {
    let mut lookup = NodeLookup::new();

    let object_open = NodeInfo::open(NodeType::Object);
    let field = NodeInfo::open(NodeType::Field("name".to_string()));

    let object_id = lookup.register(object_open.clone());
    let field_id = lookup.register(field.clone());

    let found_object_id = lookup.by_node_info(&object_open).unwrap();
    let found_field_id = lookup.by_node_info(&field).unwrap();

    assert_eq!(found_object_id, object_id);
    assert_eq!(found_field_id, field_id);

    let non_existent = NodeInfo::open(NodeType::Field("does_not_exist".to_string()));
    assert!(lookup.by_node_info(&non_existent).is_none());
}

#[test]
fn test_lookup_by_node_info_id() {
    let mut lookup = NodeLookup::new();

    let object_open = NodeInfo::open(NodeType::Object);
    let field = NodeInfo::open(NodeType::Field("name".to_string()));

    let object_id = lookup.register(object_open.clone());
    let field_id = lookup.register(field.clone());

    let found_object = lookup.by_node_info_id(object_id);
    let found_field = lookup.by_node_info_id(field_id);

    assert_eq!(found_object, &object_open);
    assert_eq!(found_field, &field);
}

#[test]
fn test_edge_case_empty_fields() {
    let mut lookup = NodeLookup::new();

    let empty_field = NodeInfo::open(NodeType::Field("".to_string()));
    let empty_field_id = lookup.register(empty_field.clone());

    let empty_field_close = NodeInfo::close(NodeType::Field("".to_string()));
    let empty_field_close_id = lookup.register(empty_field_close.clone());

    assert_ne!(empty_field_id, empty_field_close_id);
}

#[test]
fn test_node_info() {
    // 0, 1, 2, 3
    let v = NodeInfoVec::new(vec![vec![0], vec![1], vec![2], vec![3]], 4);
    assert_eq!(v.node_info_id(0), Some(NodeInfoId::new(0)));
    assert_eq!(v.node_info_id(1), Some(NodeInfoId::new(1)));
    assert_eq!(v.node_info_id(2), Some(NodeInfoId::new(2)));
    assert_eq!(v.node_info_id(10), None);
}

#[test]
fn test_rank() {
    // 0, 1, 1, 3, 2, 3
    let v = vec![vec![0], vec![1, 2], vec![4], vec![3, 5]];
    let v = NodeInfoVec::new(v, 6);
    assert_eq!(v.rank_node_info_id(0, NodeInfoId::new(0)), Some(0));
    assert_eq!(v.rank_node_info_id(1, NodeInfoId::new(0)), Some(1));
    assert_eq!(v.rank_node_info_id(2, NodeInfoId::new(1)), Some(1));
    assert_eq!(v.rank_node_info_id(3, NodeInfoId::new(1)), Some(2));
    assert_eq!(v.rank_node_info_id(6, NodeInfoId::new(3)), Some(2));
    assert_eq!(v.rank_node_info_id(10, NodeInfoId::new(3)), None);
}

#[test]
fn test_sa_select() {
    // 0, 1, 1, 3, 2, 3
    let v = vec![vec![0], vec![1, 2], vec![4], vec![3, 5]];
    let v = NodeInfoVec::new(v, 6);
    assert_eq!(v.select_node_info_id(0, NodeInfoId::new(0)), Some(0));
    assert_eq!(v.select_node_info_id(0, NodeInfoId::new(1)), Some(1));
    assert_eq!(v.select_node_info_id(1, NodeInfoId::new(1)), Some(2));
    assert_eq!(v.select_node_info_id(0, NodeInfoId::new(3)), Some(3));
    assert_eq!(v.select_node_info_id(1, NodeInfoId::new(3)), Some(5));
    assert_eq!(v.select_node_info_id(2, NodeInfoId::new(3)), None);
}

#[test]
fn test_rank_select_round_trip() {
    // rank of the position that select returns gives the rank back
    let v = NodeInfoVec::new(vec![vec![1, 4, 7], vec![0, 2, 3, 5, 6]], 8);
    for r in 0..3 {
        let pos = v.select_node_info_id(r, NodeInfoId::new(0)).unwrap();
        assert_eq!(v.rank_node_info_id(pos, NodeInfoId::new(0)), Some(r));
    }
    for r in 0..5 {
        let pos = v.select_node_info_id(r, NodeInfoId::new(1)).unwrap();
        assert_eq!(v.rank_node_info_id(pos, NodeInfoId::new(1)), Some(r));
    }
}
