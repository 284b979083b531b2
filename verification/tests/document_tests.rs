use succinct_json::{BitpackingUsageBuilder, Document, RoaringUsageBuilder, Value};

fn assert_round_trip(input: &str) {
    // parse document from a string
    let doc = BitpackingUsageBuilder::parse(input.as_bytes()).unwrap();
    // serialize to a string
    let output = doc.serialize();
    // check that the output is the same as the input
    assert_eq!(String::from_utf8(output).unwrap(), input);
}

#[test]
fn test_round_trip_number() {
    assert_round_trip("42");
}

#[test]
fn test_round_trip_boolean() {
    assert_round_trip("true");
    assert_round_trip("false");
}

#[test]
fn test_round_trip_null() {
    assert_round_trip("null");
}

#[test]
fn test_round_trip_string() {
    assert_round_trip(r#""hello""#);
}

#[test]
fn test_round_trip_array() {
    assert_round_trip(r#"["a","b","c"]"#);
}

#[test]
fn test_round_trip_object() {
    assert_round_trip(r#"{"key1":"value1","key2":"value2"}"#);
}

#[test]
fn test_number_value() {
    let doc = BitpackingUsageBuilder::parse("42".as_bytes()).unwrap();
    let v = doc.root_value();
    match v {
        Value::Number(n) => assert_eq!(n.parse::<f64>().unwrap(), 42f64),
        _ => panic!("Expected a number value"),
    }
}

#[test]
fn test_boolean_value_true() {
    let doc = BitpackingUsageBuilder::parse("true".as_bytes()).unwrap();
    let v = doc.root_value();
    assert!(matches!(v, Value::Boolean(true)));
}

#[test]
fn test_boolean_value_false() {
    let doc = BitpackingUsageBuilder::parse("false".as_bytes()).unwrap();
    let v = doc.root_value();
    assert!(matches!(v, Value::Boolean(false)));
}

#[test]
fn test_null_value() {
    let doc = BitpackingUsageBuilder::parse("null".as_bytes()).unwrap();
    let v = doc.root_value();
    assert!(matches!(v, Value::Null));
}

#[test]
fn test_string_value() {
    let doc = BitpackingUsageBuilder::parse(r#""hello""#.as_bytes()).unwrap();
    let v = doc.root_value();
    match v {
        Value::String(s) => assert_eq!(s.as_str(), "hello"),
        _ => panic!("Expected a string value"),
    }
}

fn expect_string(v: Option<Value>) -> String {
    match v {
        Some(Value::String(s)) => s,
        _ => panic!("Expected a string value"),
    }
}

fn expect_number(v: Option<Value>) -> f64 {
    match v {
        Some(Value::Number(n)) => n.parse::<f64>().unwrap(),
        _ => panic!("Expected a number value"),
    }
}

#[test]
fn test_array() {
    let doc = BitpackingUsageBuilder::parse(r#"["a", "b", "c"]"#.as_bytes()).unwrap();
    let v = doc.root_value();

    if let Value::Array(array_value) = v {
        let mut iter = array_value.iter(&doc);
        assert_eq!(expect_string(iter.next(&doc)).as_str(), "a");
        assert_eq!(expect_string(iter.next(&doc)).as_str(), "b");
        assert_eq!(expect_string(iter.next(&doc)).as_str(), "c");
        assert!(iter.next(&doc).is_none());
    } else {
        panic!("Expected an array value");
    }
}

#[test]
fn test_nested_array() {
    let doc = BitpackingUsageBuilder::parse(r#"[1, [2, 3], 4]"#.as_bytes()).unwrap();
    let v = doc.root_value();

    if let Value::Array(array_value) = v {
        let mut iter = array_value.iter(&doc);
        assert_eq!(expect_number(iter.next(&doc)), 1.0);

        if let Some(Value::Array(inner_array)) = iter.next(&doc) {
            let mut inner_iter = inner_array.iter(&doc);
            assert_eq!(expect_number(inner_iter.next(&doc)), 2.0);
            assert_eq!(expect_number(inner_iter.next(&doc)), 3.0);
            assert!(inner_iter.next(&doc).is_none());
        } else {
            panic!("Expected an inner array value");
        }

        assert_eq!(expect_number(iter.next(&doc)), 4.0);
        assert!(iter.next(&doc).is_none());
    } else {
        panic!("Expected an array value");
    }
}

#[test]
fn test_object() {
    let doc =
        BitpackingUsageBuilder::parse(r#"{"key1": "value1", "key2": 42}"#.as_bytes()).unwrap();
    let v = doc.root_value();

    if let Value::Object(object_value) = v {
        assert_eq!(expect_string(object_value.get(&doc, "key1")).as_str(), "value1");
        assert_eq!(expect_number(object_value.get(&doc, "key2")), 42.0);
    } else {
        panic!("Expected an object value");
    }
}

#[test]
fn test_object_keys() {
    let doc =
        BitpackingUsageBuilder::parse(r#"{"key1": "value1", "key2": 42}"#.as_bytes()).unwrap();
    let v = doc.root_value();

    if let Value::Object(object_value) = v {
        let mut it = object_value.keys(&doc);
        let mut keys: Vec<String> = Vec::new();
        while let Some(k) = it.next(&doc) {
            keys.push(k);
        }
        assert_eq!(keys, vec!["key1", "key2"]);
    } else {
        panic!("Expected an object value");
    }
}

#[test]
fn test_object_values() {
    let doc =
        BitpackingUsageBuilder::parse(r#"{"key1": "value1", "key2": 42}"#.as_bytes()).unwrap();

    let v = doc.root_value();

    if let Value::Object(object_value) = v {
        let mut it = object_value.values(&doc);
        assert_eq!(expect_string(it.next(&doc)).as_str(), "value1");
        assert_eq!(expect_number(it.next(&doc)), 42.0);
        assert!(it.next(&doc).is_none());
    } else {
        panic!("Expected an object value");
    }
}

#[test]
fn test_object_entries() {
    let doc =
        BitpackingUsageBuilder::parse(r#"{"key1": "value1", "key2": 42}"#.as_bytes()).unwrap();
    let v = doc.root_value();

    if let Value::Object(object_value) = v {
        let mut it = object_value.iter(&doc);
        let mut entries: Vec<(String, Value)> = Vec::new();
        while let Some(e) = it.next(&doc) {
            entries.push(e);
        }
        assert_eq!(entries.len(), 2);
        assert_eq!(entries[0].0, "key1");
        match &entries[0].1 {
            Value::String(s) => assert_eq!(s.as_str(), "value1"),
            _ => panic!("Expected a string value"),
        }
        assert_eq!(entries[1].0, "key2");
        match &entries[1].1 {
            Value::Number(n) => assert_eq!(n.parse::<f64>().unwrap(), 42.0),
            _ => panic!("Expected a number value"),
        }
    } else {
        panic!("Expected an object value");
    }
}

#[test]
fn test_roaring_variant_parses() {
    let doc = RoaringUsageBuilder::parse(r#"{"a": [1, "x", null], "b": false}"#.as_bytes())
        .unwrap();
    let out = doc.serialize();
    assert_eq!(String::from_utf8(out).unwrap(), r#"{"a":[1,"x",null],"b":false}"#);
}

#[test]
fn test_booleans_and_nulls() {
    let input = r#"{"a":null,"b":true,"c":false}"#;
    let doc = BitpackingUsageBuilder::parse(input.as_bytes()).unwrap();
    if let Value::Object(obj) = doc.root_value() {
        assert!(matches!(obj.get(&doc, "a"), Some(Value::Null)));
        assert!(matches!(obj.get(&doc, "b"), Some(Value::Boolean(true))));
        assert!(matches!(obj.get(&doc, "c"), Some(Value::Boolean(false))));
        assert!(obj.get(&doc, "d").is_none());
    } else {
        panic!("Expected an object value");
    }
    let out = doc.serialize();
    assert_eq!(String::from_utf8(out).unwrap(), input);
}

#[test]
fn test_duplicate_keys_first_wins() {
    let doc = BitpackingUsageBuilder::parse(r#"{"k": 1, "k": 2}"#.as_bytes()).unwrap();
    if let Value::Object(obj) = doc.root_value() {
        assert_eq!(expect_number(obj.get(&doc, "k")), 1.0);
    } else {
        panic!("Expected an object value");
    }
    // both occurrences stay for serialization
    let out = doc.serialize();
    assert_eq!(String::from_utf8(out).unwrap(), r#"{"k":1,"k":2}"#);
}

#[test]
fn test_reparse_idempotent() {
    // parse of serialize of parse equals parse: a second round trip
    // reproduces the first serialization exactly
    let input = r#"{"key1":"value1","list":[1,2.5,true,null,"s"],"empty":{}}"#;
    let doc = BitpackingUsageBuilder::parse(input.as_bytes()).unwrap();
    let once = doc.serialize();
    let doc2 = BitpackingUsageBuilder::parse(&once).unwrap();
    let twice = doc2.serialize();
    assert_eq!(once, twice);
}

#[test]
fn test_parse_error_reports() {
    assert!(BitpackingUsageBuilder::parse("{".as_bytes()).is_err());
    assert!(BitpackingUsageBuilder::parse("".as_bytes()).is_err());
    assert!(BitpackingUsageBuilder::parse("[1,".as_bytes()).is_err());
    assert!(BitpackingUsageBuilder::parse("trve".as_bytes()).is_err());
}

#[test]
fn test_string_escapes_round_trip() {
    // escaped input is unescaped on read and re-escaped on write
    let doc = BitpackingUsageBuilder::parse(r#""he\"llo\n""#.as_bytes()).unwrap();
    match doc.root_value() {
        Value::String(s) => assert_eq!(s.as_str(), "he\"llo\n"),
        _ => panic!("Expected a string value"),
    }
    let out = doc.serialize();
    let doc2 = BitpackingUsageBuilder::parse(&out).unwrap();
    match doc2.root_value() {
        Value::String(s) => assert_eq!(s.as_str(), "he\"llo\n"),
        _ => panic!("Expected a string value"),
    }
}

#[test]
fn test_bitpacked_many_nodes() {
    // more than one bit-packed block of positions per kind
    let mut input = String::from("[");
    for i in 0..300 {
        if i > 0 {
            input.push(',');
        }
        input.push_str(&i.to_string());
    }
    input.push(']');
    let doc = BitpackingUsageBuilder::parse(input.as_bytes()).unwrap();
    if let Value::Array(arr) = doc.root_value() {
        let mut it = arr.iter(&doc);
        for i in 0..300 {
            match it.next(&doc) {
                Some(Value::Number(n)) => assert_eq!(n.parse::<i64>().unwrap(), i),
                _ => panic!("Expected a number value"),
            }
        }
        assert!(it.next(&doc).is_none());
    } else {
        panic!("Expected an array value");
    }
    assert_eq!(String::from_utf8(doc.serialize()).unwrap(), input);
}

#[test]
fn test_navigation_primitives() {
    // first-child / next-sibling walk over the parenthesis structure
    let doc = Document::parse(r#"["a", "b", "c"]"#.as_bytes()).unwrap();
    let root = doc.root();
    assert_eq!(root.get(), 0);
    let first = doc.primitive_first_child(root).unwrap();
    assert_eq!(first.get(), 1);
    let second = doc.primitive_next_sibling(first).unwrap();
    assert_eq!(second.get(), 3);
    let third = doc.primitive_next_sibling(second).unwrap();
    assert_eq!(third.get(), 5);
    assert!(doc.primitive_next_sibling(third).is_none());
    // a leaf has no child
    assert!(doc.primitive_first_child(first).is_none());
}

#[test]
fn test_malformed_values_inside_containers() {
    // bodies that begin like a value but fail while being read
    assert!(Document::parse("[1e777777]".as_bytes()).is_err());
    assert!(Document::parse("[-x]".as_bytes()).is_err());
    assert!(Document::parse(r#"["\q"]"#.as_bytes()).is_err());
    assert!(Document::parse(r#"{"a\q": 1}"#.as_bytes()).is_err());
    assert!(Document::parse("{\"a\": 1e777777}".as_bytes()).is_err());
}

#[test]
fn test_document_cached_string_read() {
    // the mutable read path populates the text store's LRU cache; the
    // shared path leaves it alone
    let mut doc = Document::parse(r#""hello""#.as_bytes()).unwrap();
    assert_eq!(doc.text_usage.stats().cache_size, 0);
    match doc.root_value() {
        Value::String(s) => assert_eq!(s.as_str(), "hello"),
        _ => panic!("Expected a string value"),
    }
    assert_eq!(doc.text_usage.stats().cache_size, 0);
    let root = doc.root();
    let s = doc.string_value(root);
    assert_eq!(s.as_str(), "hello");
    assert_eq!(doc.text_usage.stats().cache_size, 1);
    let s2 = doc.string_value(root);
    assert_eq!(s2.as_str(), "hello");
    assert_eq!(doc.text_usage.stats().cache_size, 1);
}

#[test]
fn test_heap_size_stable_across_queries() {
    let input = r#"{"key1":"value1","key2":[1,2,3]}"#;
    let doc = Document::parse(input.as_bytes()).unwrap();
    let before = doc.heap_size();
    if let Value::Object(obj) = doc.root_value() {
        let _ = obj.get(&doc, "key1");
        let _ = obj.get(&doc, "key2");
    }
    let _ = doc.serialize();
    assert_eq!(doc.heap_size(), before);
    assert!(before > 0);
}

#[test]
fn test_scale_many_fields() {
    // a wide object with many distinct keys, each retrievable
    let mut input = String::from("{");
    for i in 0..2000 {
        if i > 0 {
            input.push(',');
        }
        input.push_str(&format!("\"k{}\":{}", i, i));
    }
    input.push('}');
    let doc = Document::parse(input.as_bytes()).unwrap();
    if let Value::Object(obj) = doc.root_value() {
        assert_eq!(expect_number(obj.get(&doc, "k0")), 0.0);
        assert_eq!(expect_number(obj.get(&doc, "k1234")), 1234.0);
        assert_eq!(expect_number(obj.get(&doc, "k1999")), 1999.0);
        assert!(obj.get(&doc, "k2000").is_none());
    } else {
        panic!("Expected an object value");
    }
    assert!(doc.heap_size() > 0);
}
