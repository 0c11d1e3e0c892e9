use serde_txtrecord::path::{compose_index, compose_object, length_key};
use serde_txtrecord::{
    to_txt_records, to_txt_records_with_config, MapSerializer, SeqSerializer, StructuredValue,
    TxtRecordConfig, TxtRecordError, TxtRecordSerializer,
};

fn text(s: &str) -> StructuredValue {
    StructuredValue::Scalar(s.to_string())
}

fn list(items: Vec<StructuredValue>) -> StructuredValue {
    StructuredValue::Sequence(items)
}

fn mapping(entries: Vec<(&str, StructuredValue)>) -> StructuredValue {
    StructuredValue::Mapping(entries.into_iter().map(|(k, v)| (k.to_string(), v)).collect())
}

fn pairs(records: &[(&str, &str)]) -> Vec<(String, String)> {
    records.iter().map(|(k, v)| (k.to_string(), v.to_string())).collect()
}

fn config(array_separator: &str, object_separator: &str, record_len: usize, suffix: &str) -> TxtRecordConfig {
    TxtRecordConfig {
        array_separator: array_separator.to_string(),
        object_separator: object_separator.to_string(),
        record_len,
        array_len_suffix: suffix.to_string(),
    }
}

#[test]
fn default_config_values() {
    let config = TxtRecordConfig::default();
    assert_eq!(config.array_separator, "_");
    assert_eq!(config.object_separator, ".");
    assert_eq!(config.record_len, 255);
    assert_eq!(config.array_len_suffix, "_len");
    let copy = config.clone();
    assert_eq!(copy.array_separator, "_");
    assert_eq!(copy.object_separator, ".");
    assert_eq!(copy.record_len, 255);
    assert_eq!(copy.array_len_suffix, "_len");
}

#[test]
fn compose_object_at_root_is_the_field() {
    let config = TxtRecordConfig::default();
    assert_eq!(compose_object(&config, "", "name"), "name");
}

#[test]
fn compose_object_joins_with_separator() {
    let config = TxtRecordConfig::default();
    assert_eq!(compose_object(&config, "contact", "email"), "contact.email");
    assert_eq!(compose_object(&config, "a.b", ""), "a.b.");
    let custom = config_with_separators();
    assert_eq!(compose_object(&custom, "contact", "email"), "contact/email");
}

fn config_with_separators() -> TxtRecordConfig {
    config("-", "/", 255, ".count")
}

#[test]
fn compose_index_appends_decimal_index() {
    let config = TxtRecordConfig::default();
    assert_eq!(compose_index(&config, "items", 0), "items_0");
    assert_eq!(compose_index(&config, "items", 12), "items_12");
    assert_eq!(compose_index(&config, "", 7), "_7");
    assert_eq!(compose_index(&config_with_separators(), "items", 105), "items-105");
    assert_eq!(
        compose_index(&config, "n", usize::MAX),
        format!("n_{}", usize::MAX)
    );
}

#[test]
fn length_key_appends_suffix() {
    let config = TxtRecordConfig::default();
    assert_eq!(length_key(&config, "items"), "items_len");
    assert_eq!(length_key(&config, ""), "_len");
    assert_eq!(length_key(&config_with_separators(), "items"), "items.count");
}

#[test]
fn scalar_at_root_has_empty_key() {
    assert_eq!(to_txt_records(&text("v")).unwrap(), pairs(&[("", "v")]));
}

#[test]
fn absent_leaves_no_record() {
    assert_eq!(to_txt_records(&StructuredValue::Absent).unwrap(), pairs(&[]));
    let value = mapping(vec![("a", StructuredValue::Absent), ("b", text("x"))]);
    assert_eq!(to_txt_records(&value).unwrap(), pairs(&[("b", "x")]));
}

#[test]
fn empty_sequence_emits_its_length() {
    let value = mapping(vec![("items", list(vec![]))]);
    assert_eq!(to_txt_records(&value).unwrap(), pairs(&[("items_len", "0")]));
}

#[test]
fn empty_mapping_leaves_no_record() {
    assert_eq!(to_txt_records(&mapping(vec![])).unwrap(), pairs(&[]));
}

#[test]
fn sequence_elements_come_in_order_before_the_marker() {
    let value = mapping(vec![("key", list(vec![text("val"), text("bal")]))]);
    assert_eq!(
        to_txt_records(&value).unwrap(),
        pairs(&[("key_0", "val"), ("key_1", "bal"), ("key_len", "2")])
    );
}

#[test]
fn sequence_of_twelve_uses_decimal_indices() {
    let items: Vec<StructuredValue> = (0..12).map(|i| text(&format!("v{}", i))).collect();
    let records = to_txt_records(&mapping(vec![("k", list(items))])).unwrap();
    assert_eq!(records.len(), 13);
    assert_eq!(records[9], ("k_9".to_string(), "v9".to_string()));
    assert_eq!(records[10], ("k_10".to_string(), "v10".to_string()));
    assert_eq!(records[11], ("k_11".to_string(), "v11".to_string()));
    assert_eq!(records[12], ("k_len".to_string(), "12".to_string()));
}

#[test]
fn mapping_fields_come_in_the_given_order() {
    let value = mapping(vec![("key", mapping(vec![("foo", text("val")), ("bar", text("bal"))]))]);
    assert_eq!(
        to_txt_records(&value).unwrap(),
        pairs(&[("key.foo", "val"), ("key.bar", "bal")])
    );
}

#[test]
fn nested_sequences_and_mappings() {
    let value = mapping(vec![
        (
            "rows",
            list(vec![
                mapping(vec![("id", text("1")), ("tags", list(vec![text("a")]))]),
                list(vec![text("x"), StructuredValue::Absent, text("z")]),
            ]),
        ),
        ("last", text("end")),
    ]);
    assert_eq!(
        to_txt_records(&value).unwrap(),
        pairs(&[
            ("rows_0.id", "1"),
            ("rows_0.tags_0", "a"),
            ("rows_0.tags_len", "1"),
            ("rows_1_0", "x"),
            ("rows_1_2", "z"),
            ("rows_1_len", "3"),
            ("rows_len", "2"),
            ("last", "end"),
        ])
    );
}

#[test]
fn length_enforcement_at_the_limit() {
    let fits = mapping(vec![("short_key", text(&"a".repeat(245)))]);
    let records = to_txt_records(&fits).unwrap();
    assert_eq!(records.len(), 1);
    assert_eq!(records[0].0.len() + 1 + records[0].1.len(), 255);

    let too_long = mapping(vec![("short_key", text(&"a".repeat(246)))]);
    match to_txt_records(&too_long) {
        Err(TxtRecordError::RecordTooLong { key, value, max_len, actual_len }) => {
            assert_eq!(key, "short_key");
            assert_eq!(value, "a".repeat(246));
            assert_eq!(max_len, 255);
            assert_eq!(actual_len, 256);
        }
        other => panic!("Expected RecordTooLong error, got {:?}", other),
    }
}

#[test]
fn length_counts_bytes_of_utf8() {
    // "k=" and two characters of two bytes each: 6 bytes
    let value = mapping(vec![("k", text("éé"))]);
    assert!(to_txt_records_with_config(&value, config("_", ".", 6, "_len")).is_ok());
    match to_txt_records_with_config(&value, config("_", ".", 5, "_len")) {
        Err(TxtRecordError::RecordTooLong { max_len, actual_len, .. }) => {
            assert_eq!(max_len, 5);
            assert_eq!(actual_len, 6);
        }
        other => panic!("Expected RecordTooLong error, got {:?}", other),
    }
}

#[test]
fn encoding_fails_on_the_first_record_that_is_too_long() {
    let value = mapping(vec![
        ("a", text("1")),
        ("b", text("this one is too long")),
        ("c", text("and this one as well")),
    ]);
    match to_txt_records_with_config(&value, config("_", ".", 10, "_len")) {
        Err(TxtRecordError::RecordTooLong { key, value, max_len, actual_len }) => {
            assert_eq!(key, "b");
            assert_eq!(value, "this one is too long");
            assert_eq!(max_len, 10);
            assert_eq!(actual_len, 22);
        }
        other => panic!("Expected RecordTooLong error, got {:?}", other),
    }
}

#[test]
fn length_marker_may_be_the_record_that_is_too_long() {
    let value = mapping(vec![("abcdef", list(vec![]))]);
    // "abcdef_len=0" has 12 bytes
    assert!(to_txt_records_with_config(&value, config("_", ".", 12, "_len")).is_ok());
    match to_txt_records_with_config(&value, config("_", ".", 11, "_len")) {
        Err(TxtRecordError::RecordTooLong { key, value, actual_len, .. }) => {
            assert_eq!(key, "abcdef_len");
            assert_eq!(value, "0");
            assert_eq!(actual_len, 12);
        }
        other => panic!("Expected RecordTooLong error, got {:?}", other),
    }
}

#[test]
fn failed_serialize_keeps_what_was_emitted_before() {
    let mut ser = TxtRecordSerializer::with_config(config("_", ".", 8, "_len"));
    let value = mapping(vec![("a", text("1")), ("b", text("far too long")), ("c", text("2"))]);
    assert!(ser.serialize("", &value).is_err());
    assert_eq!(ser.finish(), pairs(&[("a", "1")]));
}

#[test]
fn custom_separators_and_suffix() {
    let value = mapping(vec![("items", list(vec![text("apple"), text("banana"), text("cherry")]))]);
    let records = to_txt_records_with_config(&value, config("_", ".", 255, ".count")).unwrap();
    assert_eq!(records.len(), 4);
    let mut sorted = records.clone();
    sorted.sort();
    assert_eq!(
        sorted,
        pairs(&[
            ("items.count", "3"),
            ("items_0", "apple"),
            ("items_1", "banana"),
            ("items_2", "cherry"),
        ])
    );
    assert_eq!(records[3], ("items.count".to_string(), "3".to_string()));
}

#[test]
fn nested_mapping_keys_and_count() {
    let value = mapping(vec![
        ("name", text("John Doe")),
        (
            "contact",
            mapping(vec![
                ("email", text("x@y")),
                ("address", mapping(vec![("street", text("123 Main St"))])),
            ]),
        ),
    ]);
    let records = to_txt_records(&value).unwrap();
    let keys: Vec<&str> = records.iter().map(|(k, _)| k.as_str()).collect();
    assert!(keys.contains(&"name"));
    assert!(keys.contains(&"contact.email"));
    assert!(keys.contains(&"contact.address.street"));
    // three scalar leaves, no sequence
    assert_eq!(records.len(), 3);
    assert_eq!(
        records,
        pairs(&[
            ("name", "John Doe"),
            ("contact.email", "x@y"),
            ("contact.address.street", "123 Main St"),
        ])
    );
}

#[test]
fn record_count_is_scalars_plus_sequences() {
    let value = mapping(vec![
        ("a", list(vec![text("1"), list(vec![text("2"), text("3")]), StructuredValue::Absent])),
        ("b", mapping(vec![("c", list(vec![])), ("d", text("4"))])),
    ]);
    // four scalars and three sequences
    assert_eq!(to_txt_records(&value).unwrap().len(), 7);
}

#[test]
fn new_serializer_is_empty_and_uses_defaults() {
    let ser = TxtRecordSerializer::new();
    assert_eq!(ser.config().record_len, 255);
    assert_eq!(ser.config().array_separator, "_");
    assert_eq!(ser.finish(), pairs(&[]));
    let ser = TxtRecordSerializer::default();
    assert_eq!(ser.config().array_len_suffix, "_len");
    assert_eq!(ser.finish(), pairs(&[]));
}

#[test]
fn push_record_appends_or_fails() {
    let mut ser = TxtRecordSerializer::with_config(config("_", ".", 5, "_len"));
    assert!(ser.push_record("ab".to_string(), "cd".to_string()).is_ok());
    match ser.push_record("ab".to_string(), "cde".to_string()) {
        Err(TxtRecordError::RecordTooLong { key, value, max_len, actual_len }) => {
            assert_eq!(key, "ab");
            assert_eq!(value, "cde");
            assert_eq!(max_len, 5);
            assert_eq!(actual_len, 6);
        }
        other => panic!("Expected RecordTooLong error, got {:?}", other),
    }
    assert!(ser.push_record("".to_string(), "".to_string()).is_ok());
    assert_eq!(ser.finish(), pairs(&[("ab", "cd"), ("", "")]));
}

#[test]
fn record_len_zero_rejects_every_record() {
    let mut ser = TxtRecordSerializer::with_config(config("_", ".", 0, "_len"));
    match ser.push_record(String::new(), String::new()) {
        Err(TxtRecordError::RecordTooLong { max_len, actual_len, .. }) => {
            assert_eq!(max_len, 0);
            assert_eq!(actual_len, 1);
        }
        other => panic!("Expected RecordTooLong error, got {:?}", other),
    }
}

#[test]
fn typed_scalars_have_canonical_text() {
    let mut ser = TxtRecordSerializer::new();
    ser.serialize_bool("t", true).unwrap();
    ser.serialize_bool("f", false).unwrap();
    ser.serialize_i8("i8", -128).unwrap();
    ser.serialize_i16("i16", -1000).unwrap();
    ser.serialize_i32("i32", i32::MIN).unwrap();
    ser.serialize_i64("i64", i64::MIN).unwrap();
    ser.serialize_i64("i64max", i64::MAX).unwrap();
    ser.serialize_i64("zero", 0).unwrap();
    ser.serialize_u8("u8", 255).unwrap();
    ser.serialize_u16("u16", 65535).unwrap();
    ser.serialize_u32("u32", 1234567890).unwrap();
    ser.serialize_u64("u64", u64::MAX).unwrap();
    ser.serialize_char("c", 'x').unwrap();
    ser.serialize_char("snow", '☃').unwrap();
    ser.serialize_str("s", "text").unwrap();
    ser.serialize_unit_variant("v", "Red").unwrap();
    ser.serialize_none().unwrap();
    assert_eq!(
        ser.finish(),
        pairs(&[
            ("t", "true"),
            ("f", "false"),
            ("i8", "-128"),
            ("i16", "-1000"),
            ("i32", "-2147483648"),
            ("i64", "-9223372036854775808"),
            ("i64max", "9223372036854775807"),
            ("zero", "0"),
            ("u8", "255"),
            ("u16", "65535"),
            ("u32", "1234567890"),
            ("u64", "18446744073709551615"),
            ("c", "x"),
            ("snow", "☃"),
            ("s", "text"),
            ("v", "Red"),
        ])
    );
}

#[test]
fn seq_serializer_walks_elements_and_ends_with_marker() {
    let mut ser = TxtRecordSerializer::new();
    let mut seq = SeqSerializer::new("items");
    assert_eq!(seq.index(), 0);
    assert_eq!(seq.element_key(ser.config()), "items_0");
    seq.serialize_element(&mut ser, &text("a")).unwrap();
    assert_eq!(seq.index(), 1);
    assert_eq!(seq.element_key(ser.config()), "items_1");
    seq.advance();
    assert_eq!(seq.index(), 2);
    seq.serialize_element(&mut ser, &mapping(vec![("x", text("b"))])).unwrap();
    seq.end(&mut ser).unwrap();
    assert_eq!(
        ser.finish(),
        pairs(&[("items_0", "a"), ("items_2.x", "b"), ("items_len", "3")])
    );
}

#[test]
fn seq_serializer_marker_carries_the_number_of_elements() {
    let mut ser = TxtRecordSerializer::new();
    let mut seq = SeqSerializer::new("t");
    seq.serialize_element(&mut ser, &text("a")).unwrap();
    seq.end(&mut ser).unwrap();
    assert_eq!(ser.finish(), pairs(&[("t_0", "a"), ("t_len", "1")]));

    let mut ser = TxtRecordSerializer::new();
    let seq = SeqSerializer::new("p");
    seq.end(&mut ser).unwrap();
    assert_eq!(ser.finish(), pairs(&[("p_len", "0")]));
}

#[test]
fn seq_serializer_end_that_fails_leaves_the_output() {
    let mut ser = TxtRecordSerializer::with_config(config("_", ".", 6, "_len"));
    let mut seq = SeqSerializer::new("k");
    seq.serialize_element(&mut ser, &text("v")).unwrap();
    // "k_len=1" has 7 bytes
    match seq.end(&mut ser) {
        Err(TxtRecordError::RecordTooLong { key, value, actual_len, .. }) => {
            assert_eq!(key, "k_len");
            assert_eq!(value, "1");
            assert_eq!(actual_len, 7);
        }
        other => panic!("Expected RecordTooLong error, got {:?}", other),
    }
    assert_eq!(ser.finish(), pairs(&[("k_0", "v")]));
}

#[test]
fn seq_serializer_does_not_advance_on_failure() {
    let mut ser = TxtRecordSerializer::with_config(config("_", ".", 6, "_len"));
    let mut seq = SeqSerializer::new("k");
    assert!(seq.serialize_element(&mut ser, &text("too long")).is_err());
    assert_eq!(seq.index(), 0);
}

#[test]
fn map_serializer_fields_and_keys() {
    let mut ser = TxtRecordSerializer::new();
    let mut map = MapSerializer::new("base");
    assert_eq!(map.entry_key(), "base");
    map.serialize_field(&mut ser, "f", &text("1")).unwrap();
    assert_eq!(map.entry_key(), "base.f");
    map.select_field(ser.config(), "g");
    assert_eq!(map.entry_key(), "base.g");
    map.serialize_value(&mut ser, &text("2")).unwrap();
    map.serialize_key(&ser, &text("h")).unwrap();
    assert_eq!(map.entry_key(), "base.h");
    map.serialize_value(&mut ser, &list(vec![text("3")])).unwrap();
    map.end().unwrap();
    assert_eq!(
        ser.finish(),
        pairs(&[("base.f", "1"), ("base.g", "2"), ("base.h_0", "3"), ("base.h_len", "1")])
    );
}

#[test]
fn map_serializer_at_root_uses_the_bare_field() {
    let mut ser = TxtRecordSerializer::new();
    let mut map = MapSerializer::new("");
    map.serialize_field(&mut ser, "f", &text("1")).unwrap();
    assert_eq!(map.entry_key(), "f");
    assert_eq!(ser.finish(), pairs(&[("f", "1")]));
}

#[test]
fn map_key_is_the_first_value_of_its_own_encoding() {
    let ser = TxtRecordSerializer::new();
    let mut map = MapSerializer::new("m");
    // a sequence as key: its first record is that of its first element
    map.serialize_key(&ser, &list(vec![text("first"), text("second")])).unwrap();
    assert_eq!(map.entry_key(), "m.first");
    // an empty sequence as key: its only record is its length marker
    map.serialize_key(&ser, &list(vec![])).unwrap();
    assert_eq!(map.entry_key(), "m.0");
    // a key without any record leaves the entry where it was
    map.serialize_key(&ser, &StructuredValue::Absent).unwrap();
    assert_eq!(map.entry_key(), "m.0");
    map.accept_key(ser.config(), pairs(&[("ignored", "k1"), ("", "k2")]));
    assert_eq!(map.entry_key(), "m.k1");
    map.accept_key(ser.config(), pairs(&[]));
    assert_eq!(map.entry_key(), "m.k1");
}

#[test]
fn map_key_that_is_too_long_on_its_own_fails() {
    let ser = TxtRecordSerializer::with_config(config("_", ".", 4, "_len"));
    let mut map = MapSerializer::new("");
    assert!(map.serialize_key(&ser, &text("abc")).is_ok());
    match map.serialize_key(&ser, &text("abcd")) {
        Err(TxtRecordError::RecordTooLong { key, value, max_len, actual_len }) => {
            assert_eq!(key, "");
            assert_eq!(value, "abcd");
            assert_eq!(max_len, 4);
            assert_eq!(actual_len, 5);
        }
        other => panic!("Expected RecordTooLong error, got {:?}", other),
    }
    assert_eq!(map.entry_key(), "abc");
}

#[test]
fn error_messages() {
    assert_eq!(TxtRecordError::Custom("boom".to_string()).message(), "boom");
    assert_eq!(
        TxtRecordError::UnsupportedType("thing".to_string()).message(),
        "Unsupported type: thing"
    );
    let error = TxtRecordError::RecordTooLong {
        key: "k".to_string(),
        value: "v".to_string(),
        max_len: 2,
        actual_len: 3,
    };
    assert_eq!(
        error.message(),
        "Record 'k=v' is too long: 3 characters exceeds maximum of 2"
    );
    let error = TxtRecordError::RecordTooLong {
        key: "short_key".to_string(),
        value: "aaa".to_string(),
        max_len: 255,
        actual_len: 1024,
    };
    assert_eq!(
        error.message(),
        "Record 'short_key=aaa' is too long: 1024 characters exceeds maximum of 255"
    );
}
