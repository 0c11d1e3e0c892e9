use serde_txtrecord::{
    from_txt_records, from_txt_records_with_config, to_txt_records, to_txt_records_with_config,
    ScalarKind, Shape, StructuredValue, TxtRecordConfig,
};

fn text(s: &str) -> StructuredValue {
    StructuredValue::Scalar(s.to_string())
}

fn list(items: Vec<StructuredValue>) -> StructuredValue {
    StructuredValue::Sequence(items)
}

fn mapping(entries: Vec<(&str, StructuredValue)>) -> StructuredValue {
    StructuredValue::Mapping(entries.into_iter().map(|(k, v)| (k.to_string(), v)).collect())
}

fn own_shape(value: &StructuredValue) -> Shape {
    match value {
        StructuredValue::Scalar(_) => Shape::Scalar(ScalarKind::Text),
        StructuredValue::Absent => Shape::Unit,
        StructuredValue::Sequence(items) => Shape::Tuple(items.iter().map(own_shape).collect()),
        StructuredValue::Mapping(entries) => Shape::Struct(
            entries.iter().map(|(name, value)| (name.clone(), own_shape(value))).collect(),
        ),
    }
}

fn samples() -> Vec<StructuredValue> {
    vec![
        text("alone"),
        text(""),
        StructuredValue::Absent,
        list(vec![]),
        mapping(vec![]),
        list(vec![text("a"), text("b")]),
        mapping(vec![("short_key", text(&"a".repeat(245)))]),
        mapping(vec![("a", text("1")), ("b", StructuredValue::Absent), ("c", list(vec![]))]),
        mapping(vec![
            ("name", text("John Doe")),
            (
                "contact",
                mapping(vec![
                    ("email", text("x@y")),
                    ("address", mapping(vec![("street", text("123 Main St"))])),
                ]),
            ),
        ]),
        mapping(vec![(
            "rows",
            list(vec![
                mapping(vec![("id", text("1")), ("tags", list(vec![text("x"), text("y")]))]),
                list(vec![text("p"), StructuredValue::Absent, list(vec![text("q")])]),
                StructuredValue::Absent,
            ]),
        )]),
    ]
}

#[test]
fn round_trip_with_own_shape() {
    for value in samples() {
        let records = to_txt_records(&value).unwrap();
        let result = from_txt_records(records, &own_shape(&value)).unwrap();
        assert_eq!(result, value);
    }
}

#[test]
fn round_trip_under_other_configurations() {
    let configs = || {
        vec![
            TxtRecordConfig {
                array_separator: "-".to_string(),
                object_separator: "/".to_string(),
                record_len: 300,
                array_len_suffix: ".count".to_string(),
            },
            TxtRecordConfig {
                array_separator: "[]".to_string(),
                object_separator: "::".to_string(),
                record_len: 1000,
                array_len_suffix: "#".to_string(),
            },
        ]
    };
    for value in samples() {
        for (encode_config, decode_config) in configs().into_iter().zip(configs()) {
            let records = to_txt_records_with_config(&value, encode_config).unwrap();
            let result =
                from_txt_records_with_config(records, decode_config, &own_shape(&value)).unwrap();
            assert_eq!(result, value);
        }
    }
}

#[test]
fn round_trip_of_uniform_sequences_reads_the_marker() {
    let value = mapping(vec![
        ("numbers", list(vec![text("1"), text("-2"), text("+3")])),
        ("flags", list(vec![text("true"), text("false")])),
        ("none", list(vec![])),
    ]);
    let shape = Shape::Struct(vec![
        ("numbers".to_string(), Shape::Sequence(Box::new(Shape::Scalar(ScalarKind::I8)))),
        ("flags".to_string(), Shape::Sequence(Box::new(Shape::Scalar(ScalarKind::Bool)))),
        ("none".to_string(), Shape::Sequence(Box::new(Shape::Scalar(ScalarKind::Char)))),
    ]);
    let records = to_txt_records(&value).unwrap();
    assert_eq!(from_txt_records(records, &shape).unwrap(), value);
}

#[test]
fn round_trip_fails_where_a_record_is_overwritten() {
    // the element "a_0" and the field "a_0" share a key
    let value = mapping(vec![("a", list(vec![text("x")])), ("a_0", text("y"))]);
    let records = to_txt_records(&value).unwrap();
    let result = from_txt_records(records, &own_shape(&value)).unwrap();
    assert_ne!(result, value);
    assert_eq!(result, mapping(vec![("a", list(vec![text("y")])), ("a_0", text("y"))]));
}

#[test]
fn sequence_layout() {
    let items = vec![
        text("zero"),
        mapping(vec![("x", text("one")), ("y", list(vec![text("deep")]))]),
        StructuredValue::Absent,
        text("three"),
    ];
    let n = items.len();
    let records = to_txt_records(&mapping(vec![("seq", list(items))])).unwrap();
    // one marker, last, carrying the length
    let markers: Vec<_> = records.iter().filter(|(key, _)| key == "seq_len").collect();
    assert_eq!(markers.len(), 1);
    assert_eq!(records.last().unwrap(), &("seq_len".to_string(), n.to_string()));
    // the element groups are contiguous and in order
    let mut group_of = Vec::new();
    for (key, _) in &records[..records.len() - 1] {
        let rest = key.strip_prefix("seq_").unwrap();
        let digits: String = rest.chars().take_while(|c| c.is_ascii_digit()).collect();
        group_of.push(digits.parse::<usize>().unwrap());
    }
    assert_eq!(group_of, vec![0, 1, 1, 1, 3]);
    assert!(group_of.windows(2).all(|w| w[0] <= w[1]));
    assert!(group_of.iter().all(|i| *i < n));
}

#[test]
fn inference_round_trip_of_plain_nesting() {
    let value = mapping(vec![
        ("name", text("n")),
        ("tags", list(vec![text("a"), text("b")])),
        ("contact", mapping(vec![("email", text("e")), ("phone", text("p"))])),
    ]);
    let records = to_txt_records(&value).unwrap();
    assert_eq!(from_txt_records(records, &Shape::Any).unwrap(), value);
}

#[test]
fn copies_hold_the_same_value() {
    for value in samples() {
        assert_eq!(value.duplicate(), value);
        assert_eq!(value.clone(), value);
        let shape = own_shape(&value);
        assert_eq!(shape.duplicate(), shape);
        assert_eq!(shape.clone(), shape);
    }
    let shape = Shape::Struct(vec![
        ("a".to_string(), Shape::Optional(Box::new(Shape::Any))),
        ("b".to_string(), Shape::Dictionary(Box::new(Shape::Sequence(Box::new(Shape::Unit))))),
        ("c".to_string(), Shape::Tuple(vec![Shape::Scalar(ScalarKind::Char), Shape::Any])),
    ]);
    assert_eq!(shape.clone(), shape);
}

#[test]
fn plain_names_give_distinct_keys() {
    for value in samples() {
        let records = to_txt_records(&value).unwrap();
        let mut keys: Vec<&String> = records.iter().map(|(key, _)| key).collect();
        keys.sort();
        keys.dedup();
        assert_eq!(keys.len(), records.len());
    }
}

#[test]
fn a_name_with_a_separator_character_may_collide() {
    let value = mapping(vec![("a", list(vec![text("x")])), ("a_len", text("y"))]);
    let records = to_txt_records(&value).unwrap();
    let keys: Vec<&str> = records.iter().map(|(key, _)| key.as_str()).collect();
    assert_eq!(keys, vec!["a_0", "a_len", "a_len"]);
}

fn solid_samples() -> Vec<StructuredValue> {
    vec![
        text("alone"),
        list(vec![]),
        list(vec![text("a"), list(vec![]), mapping(vec![("k", text("v"))])]),
        mapping(vec![("a", mapping(vec![("tags", list(vec![text("x")]))]))]),
        mapping(vec![
            ("name", text("n")),
            ("none", list(vec![])),
            (
                "rows",
                list(vec![
                    mapping(vec![("id", text("1")), ("tags", list(vec![text("x"), text("y")]))]),
                    mapping(vec![("id", text("2")), ("tags", list(vec![]))]),
                ]),
            ),
            ("deep", mapping(vec![("er", mapping(vec![("est", list(vec![text("z")]))]))])),
        ]),
    ]
}

#[test]
fn inference_round_trip_of_plain_values() {
    for value in solid_samples() {
        let records = to_txt_records(&value).unwrap();
        assert_eq!(from_txt_records(records, &Shape::Any).unwrap(), value);
    }
}

#[test]
fn inference_round_trip_under_other_strict_configurations() {
    let make = || TxtRecordConfig {
        array_separator: "[".to_string(),
        object_separator: "->".to_string(),
        record_len: 1000,
        array_len_suffix: "#n".to_string(),
    };
    for value in solid_samples() {
        let records = to_txt_records_with_config(&value, make()).unwrap();
        assert_eq!(from_txt_records_with_config(records, make(), &Shape::Any).unwrap(), value);
    }
}

#[test]
fn round_trip_with_optional_and_found_fields() {
    let value = mapping(vec![
        ("here", mapping(vec![("x", list(vec![text("1")])), ("y", text("2"))])),
        ("gone", StructuredValue::Absent),
        ("list", list(vec![])),
    ]);
    let shape = Shape::Struct(vec![
        (
            "here".to_string(),
            Shape::Optional(Box::new(Shape::Dictionary(Box::new(Shape::Any)))),
        ),
        ("gone".to_string(), Shape::Optional(Box::new(Shape::Scalar(ScalarKind::Text)))),
        (
            "list".to_string(),
            Shape::Optional(Box::new(Shape::Sequence(Box::new(Shape::Scalar(ScalarKind::U8))))),
        ),
    ]);
    let records = to_txt_records(&value).unwrap();
    assert_eq!(from_txt_records(records, &shape).unwrap(), value);
}

#[test]
fn sequence_inside_a_value_has_one_marker_and_no_index_beyond_its_length() {
    let value = mapping(vec![
        ("a", mapping(vec![("seq", list(vec![text("0"), text("1"), list(vec![text("in")])]))])),
        ("b", list(vec![text("other")])),
    ]);
    let records = to_txt_records(&value).unwrap();
    let keys: Vec<&str> = records.iter().map(|(key, _)| key.as_str()).collect();
    assert_eq!(keys.iter().filter(|key| **key == "a.seq_len").count(), 1);
    assert_eq!(records.iter().find(|(key, _)| key == "a.seq_len").unwrap().1, "3");
    for i in 0..3 {
        let path = format!("a.seq_{}", i);
        assert!(keys.iter().any(|key| *key == path || key.starts_with(&format!("{}_", path))));
    }
    for j in 3..20 {
        let path = format!("a.seq_{}", j);
        assert!(!keys.iter().any(|key| key.starts_with(&path)));
    }
    let marker = keys.iter().position(|key| *key == "a.seq_len").unwrap();
    let groups: Vec<usize> = keys
        .iter()
        .enumerate()
        .filter(|(_, key)| key.starts_with("a.seq_") && **key != "a.seq_len")
        .map(|(at, _)| at)
        .collect();
    assert_eq!(groups, vec![0, 1, 2, 3]);
    assert!(groups.iter().all(|at| *at < marker));
}
