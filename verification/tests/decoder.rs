use serde_txtrecord::{
    from_txt_records, from_txt_records_with_config, DeserializeError, MapAccess, Resolution,
    ScalarKind, SeqAccess, Shape, StructuredValue, TxtRecordConfig, TxtRecordDeserializer,
};

fn text(s: &str) -> StructuredValue {
    StructuredValue::Scalar(s.to_string())
}

fn list(items: Vec<StructuredValue>) -> StructuredValue {
    StructuredValue::Sequence(items)
}

fn mapping(entries: Vec<(&str, StructuredValue)>) -> StructuredValue {
    StructuredValue::Mapping(entries.into_iter().map(|(k, v)| (k.to_string(), v)).collect())
}

fn fields(entries: Vec<(&str, Shape)>) -> Shape {
    Shape::Struct(entries.into_iter().map(|(k, v)| (k.to_string(), v)).collect())
}

fn scalar(kind: ScalarKind) -> Shape {
    Shape::Scalar(kind)
}

fn pairs(records: &[(&str, &str)]) -> Vec<(String, String)> {
    records.iter().map(|(k, v)| (k.to_string(), v.to_string())).collect()
}

fn names(keys: &[&str]) -> Vec<String> {
    keys.iter().map(|k| k.to_string()).collect()
}

fn config(array_separator: &str, object_separator: &str, record_len: usize, suffix: &str) -> TxtRecordConfig {
    TxtRecordConfig {
        array_separator: array_separator.to_string(),
        object_separator: object_separator.to_string(),
        record_len,
        array_len_suffix: suffix.to_string(),
    }
}

fn missing(result: Result<StructuredValue, DeserializeError>) -> String {
    match result {
        Err(DeserializeError::MissingField(path)) => path,
        other => panic!("Expected MissingField error, got {:?}", other),
    }
}

fn invalid_value<T: std::fmt::Debug>(result: Result<T, DeserializeError>) -> String {
    match result {
        Err(DeserializeError::InvalidValue(message)) => message,
        other => panic!("Expected InvalidValue error, got {:?}", other),
    }
}

fn invalid_format<T: std::fmt::Debug>(result: Result<T, DeserializeError>) -> String {
    match result {
        Err(DeserializeError::InvalidFormat(message)) => message,
        other => panic!("Expected InvalidFormat error, got {:?}", other),
    }
}

#[test]
fn get_value_finds_the_record() {
    let de = TxtRecordDeserializer::new(pairs(&[("a", "1"), ("b", "2")]));
    assert_eq!(de.get_value("a"), Some(&"1".to_string()));
    assert_eq!(de.get_value("b"), Some(&"2".to_string()));
    assert_eq!(de.get_value("c"), None);
    assert_eq!(de.get_value(""), None);
}

#[test]
fn get_value_last_record_wins() {
    let de = TxtRecordDeserializer::new(pairs(&[("a", "1"), ("b", "2"), ("a", "3")]));
    assert_eq!(de.get_value("a"), Some(&"3".to_string()));
}

#[test]
fn get_array_length_reads_the_marker() {
    let de = TxtRecordDeserializer::new(pairs(&[
        ("a_len", "3"),
        ("b_len", "x"),
        ("c_len", "+7"),
        ("d_len", "-1"),
        ("e_len", "007"),
        ("f_len", ""),
        ("g_len", "99999999999999999999999999"),
        ("_len", "1"),
    ]));
    assert_eq!(de.get_array_length("a"), Some(3));
    assert_eq!(de.get_array_length("b"), None);
    assert_eq!(de.get_array_length("c"), Some(7));
    assert_eq!(de.get_array_length("d"), None);
    assert_eq!(de.get_array_length("e"), Some(7));
    assert_eq!(de.get_array_length("f"), None);
    assert_eq!(de.get_array_length("g"), None);
    assert_eq!(de.get_array_length(""), Some(1));
    assert_eq!(de.get_array_length("missing"), None);
}

#[test]
fn get_array_length_uses_the_configured_suffix() {
    let de = TxtRecordDeserializer::with_config(
        pairs(&[("items.count", "3"), ("other_len", "4")]),
        config("_", ".", 255, ".count"),
    );
    assert_eq!(de.get_array_length("items"), Some(3));
    assert_eq!(de.get_array_length("other"), None);
    assert_eq!(de.config().array_len_suffix, ".count");
}

#[test]
fn object_keys_at_root() {
    let de = TxtRecordDeserializer::new(pairs(&[
        ("name", "n"),
        ("contact.email", "e"),
        ("contact.address.street", "s"),
        ("items_0", "a"),
        ("items_len", "1"),
        ("name", "again"),
        ("_0", "rootless"),
        ("deep_1.x", "y"),
    ]));
    assert_eq!(de.get_object_keys(""), names(&["name", "contact", "items", "", "deep"]));
}

#[test]
fn object_keys_from_bare_markers() {
    // a sequence without elements is found by its marker alone
    let de = TxtRecordDeserializer::new(pairs(&[("tags_len", "0"), ("a.list_len", "0")]));
    assert_eq!(de.get_object_keys(""), names(&["tags", "a"]));
    assert_eq!(de.get_object_keys("a"), names(&["list"]));
    // also where the suffix holds no separator
    let de = TxtRecordDeserializer::with_config(
        pairs(&[("tags#", "0"), ("a.list#", "0"), ("a.list_0.deep#", "0")]),
        config("_", ".", 255, "#"),
    );
    assert_eq!(de.get_object_keys(""), names(&["tags", "a"]));
    assert_eq!(de.get_object_keys("a"), names(&["list"]));
    assert_eq!(de.get_object_keys("a.list_0"), names(&["deep"]));
    // the marker of a sequence at the root lies under no name
    let de = TxtRecordDeserializer::new(pairs(&[("_len", "0"), ("x", "1")]));
    assert_eq!(de.get_object_keys(""), names(&["", "x"]));
}

#[test]
fn object_keys_under_a_path_hold_sequences() {
    let de = TxtRecordDeserializer::new(pairs(&[
        ("a.tags_0", "x"),
        ("a.tags_len", "1"),
        ("a.name", "n"),
    ]));
    let mut keys = de.get_object_keys("a");
    assert_eq!(keys, names(&["tags", "name"]));
    keys.sort();
    assert_eq!(keys, names(&["name", "tags"]));
}

#[test]
fn object_keys_cut_at_the_first_separator_of_either_kind() {
    let de = TxtRecordDeserializer::new(pairs(&[
        ("rows_0.id", "1"),
        ("rows_1.id", "2"),
        ("rows_len", "2"),
        ("m.rows_0.id", "1"),
        ("m.x.y_0", "2"),
        ("m.", "empty name"),
    ]));
    assert_eq!(de.get_object_keys(""), names(&["rows", "m"]));
    assert_eq!(de.get_object_keys("m"), names(&["rows", "x", ""]));
    assert_eq!(de.get_object_keys("m.x"), names(&["y"]));
    assert_eq!(de.get_object_keys("rows_0"), names(&["id"]));
}

#[test]
fn inference_reads_back_sequences_inside_mappings() {
    let value = mapping(vec![(
        "a",
        mapping(vec![
            ("tags", list(vec![text("x")])),
            ("none", list(vec![])),
            ("rows", list(vec![mapping(vec![("id", text("1"))]), mapping(vec![("id", text("2"))])])),
        ]),
    )]);
    let records = serde_txtrecord::to_txt_records(&value).unwrap();
    assert_eq!(
        records,
        pairs(&[
            ("a.tags_0", "x"),
            ("a.tags_len", "1"),
            ("a.none_len", "0"),
            ("a.rows_0.id", "1"),
            ("a.rows_1.id", "2"),
            ("a.rows_len", "2"),
        ])
    );
    assert_eq!(from_txt_records(records, &Shape::Any).unwrap(), value);
}

#[test]
fn object_keys_under_a_path() {
    let de = TxtRecordDeserializer::new(pairs(&[
        ("contact.email", "e"),
        ("contact.address.street", "s"),
        ("contact.address.city", "c"),
        ("contact.phones_0", "p"),
        ("contact.phones_len", "1"),
        ("contactless.x", "no"),
        ("contact", "scalar"),
        ("other.contact.email", "no"),
    ]));
    assert_eq!(de.get_object_keys("contact"), names(&["email", "address", "phones"]));
    assert_eq!(de.get_object_keys("contact.address"), names(&["street", "city"]));
    assert_eq!(de.get_object_keys("nothing"), names(&[]));
}

#[test]
fn object_keys_with_custom_separators() {
    let de = TxtRecordDeserializer::with_config(
        pairs(&[("a/b", "1"), ("a/c/d", "2"), ("a/e-0", "3"), ("a.b", "4")]),
        config("-", "/", 255, "_len"),
    );
    assert_eq!(de.get_object_keys("a"), names(&["b", "c", "e"]));
    assert_eq!(de.get_object_keys(""), names(&["a", "a.b"]));
}

#[test]
fn resolve_follows_the_order_of_precedence() {
    let de = TxtRecordDeserializer::new(pairs(&[
        ("foo", "bar"),
        ("foo.baz", "qux"),
        ("foo_len", "2"),
        ("list_len", "2"),
        ("list.x", "1"),
        ("map.x", "1"),
        ("map.y", "2"),
        ("bad_len", "many"),
    ]));
    match de.resolve("foo") {
        Ok(Resolution::Scalar(text)) => assert_eq!(text, "bar"),
        other => panic!("Expected a scalar, got {:?}", other),
    }
    match de.resolve("list") {
        Ok(Resolution::Sequence(len)) => assert_eq!(len, 2),
        other => panic!("Expected a sequence, got {:?}", other),
    }
    match de.resolve("map") {
        Ok(Resolution::Mapping(keys)) => assert_eq!(keys, names(&["x", "y"])),
        other => panic!("Expected a mapping, got {:?}", other),
    }
    match de.resolve("nothing") {
        Err(DeserializeError::MissingField(path)) => assert_eq!(path, "nothing"),
        other => panic!("Expected MissingField error, got {:?}", other),
    }
    assert_eq!(invalid_format(de.resolve("bad")), "Invalid array length 'many'");
}

#[test]
fn ambiguity_scalar_takes_precedence() {
    let de = TxtRecordDeserializer::new(pairs(&[("foo", "bar"), ("foo.baz", "qux")]));
    assert_eq!(de.deserialize_any("foo").unwrap(), text("bar"));
    assert_eq!(de.deserialize("foo", &Shape::Any).unwrap(), text("bar"));
    let de = TxtRecordDeserializer::new(pairs(&[("foo.baz", "qux"), ("foo", "bar")]));
    assert_eq!(de.deserialize_any("foo").unwrap(), text("bar"));
}

#[test]
fn inference_decodes_nested_values() {
    let records = pairs(&[
        ("name", "John"),
        ("contact.email", "x@y"),
        ("contact.address.street", "123 Main St"),
        ("tags_0", "a"),
        ("tags_1", "b"),
        ("tags_len", "2"),
    ]);
    let expected = mapping(vec![
        ("name", text("John")),
        (
            "contact",
            mapping(vec![
                ("email", text("x@y")),
                ("address", mapping(vec![("street", text("123 Main St"))])),
            ]),
        ),
        ("tags", list(vec![text("a"), text("b")])),
    ]);
    assert_eq!(from_txt_records(records, &Shape::Any).unwrap(), expected);
}

#[test]
fn inference_of_nothing_is_a_missing_root() {
    assert_eq!(missing(from_txt_records(pairs(&[]), &Shape::Any)), "");
}

#[test]
fn inference_reports_the_missing_element() {
    let records = pairs(&[("items_0", "a"), ("items_len", "2")]);
    let de = TxtRecordDeserializer::new(records);
    assert_eq!(missing(de.deserialize_any("items")), "items_1");
}

#[test]
fn inference_rejects_a_field_at_the_path_of_its_mapping() {
    // the key ".a" shows a field with no name at the root
    let records = pairs(&[(".a", "x")]);
    assert_eq!(
        invalid_format(from_txt_records(records, &Shape::Any)),
        "Empty field name under ''"
    );
}

#[test]
fn malformed_length_marker_is_a_format_failure() {
    let records = pairs(&[("items_0", "a"), ("items_len", "two")]);
    let shape = fields(vec![("items", Shape::Sequence(Box::new(scalar(ScalarKind::Text))))]);
    assert_eq!(
        invalid_format(from_txt_records(records.clone(), &shape)),
        "Invalid array length 'two'"
    );
    let de = TxtRecordDeserializer::new(records);
    assert_eq!(invalid_format(de.deserialize_any("items")), "Invalid array length 'two'");
    assert_eq!(invalid_format(de.deserialize_seq("items")), "Invalid array length 'two'");
}

#[test]
fn sequence_without_marker_is_missing_its_marker() {
    let records = pairs(&[("items_0", "a")]);
    let shape = fields(vec![("items", Shape::Sequence(Box::new(scalar(ScalarKind::Text))))]);
    assert_eq!(missing(from_txt_records(records, &shape)), "items_len");
}

#[test]
fn decoding_with_another_suffix_misses_the_marker() {
    let records = pairs(&[
        ("items_0", "apple"),
        ("items_1", "banana"),
        ("items_2", "cherry"),
        ("items.count", "3"),
    ]);
    let shape =
        Shape::Dictionary(Box::new(Shape::Sequence(Box::new(scalar(ScalarKind::Text)))));
    let expected = mapping(vec![("items", list(vec![text("apple"), text("banana"), text("cherry")]))]);
    assert_eq!(
        from_txt_records_with_config(records.clone(), config("_", ".", 255, ".count"), &shape)
            .unwrap(),
        expected
    );
    assert_eq!(
        missing(from_txt_records_with_config(records, config("_", ".", 255, "_len"), &shape)),
        "items_len"
    );
}

#[test]
fn struct_reports_the_missing_field() {
    let records = pairs(&[("name", "Alice")]);
    let shape = fields(vec![("name", scalar(ScalarKind::Text)), ("age", scalar(ScalarKind::U32))]);
    assert_eq!(missing(from_txt_records(records, &shape)), "age");
    let nested = fields(vec![("person", shape_of_person())]);
    assert_eq!(missing(from_txt_records(pairs(&[("person.name", "Bob")]), &nested)), "person.age");
}

fn shape_of_person() -> Shape {
    fields(vec![("name", scalar(ScalarKind::Text)), ("age", scalar(ScalarKind::U32))])
}

#[test]
fn struct_takes_fields_in_the_order_of_the_shape() {
    let records = pairs(&[("age", "30"), ("name", "Alice"), ("extra", "ignored")]);
    assert_eq!(
        from_txt_records(records, &shape_of_person()).unwrap(),
        mapping(vec![("name", text("Alice")), ("age", text("30"))])
    );
}

#[test]
fn scalar_of_the_wrong_kind_is_an_invalid_value() {
    let records = pairs(&[("name", "Alice"), ("age", "thirty")]);
    assert_eq!(
        invalid_value(from_txt_records(records, &shape_of_person())),
        "Cannot parse 'thirty' as u32"
    );
}

#[test]
fn unit_reads_nothing() {
    assert_eq!(from_txt_records(pairs(&[]), &Shape::Unit).unwrap(), StructuredValue::Absent);
    assert_eq!(
        from_txt_records(pairs(&[("", "x")]), &Shape::Unit).unwrap(),
        StructuredValue::Absent
    );
}

#[test]
fn optional_is_absent_only_where_nothing_lies() {
    let optional_text = Shape::Optional(Box::new(scalar(ScalarKind::Text)));
    let de = TxtRecordDeserializer::new(pairs(&[
        ("a", "1"),
        ("b_len", "0"),
        ("c.d", "2"),
        ("e_len", "zz"),
    ]));
    assert_eq!(de.deserialize("a", &optional_text).unwrap(), text("1"));
    assert_eq!(de.deserialize("none", &optional_text).unwrap(), StructuredValue::Absent);
    assert!(de.deserialize_option("a"));
    assert!(de.deserialize_option("b"));
    assert!(de.deserialize_option("c"));
    assert!(de.deserialize_option("e"));
    assert!(!de.deserialize_option("none"));
    // present, but not as the scalar that is asked for
    assert_eq!(missing(de.deserialize("b", &optional_text)), "b");
    let optional_list = Shape::Optional(Box::new(Shape::Sequence(Box::new(scalar(ScalarKind::Text)))));
    assert_eq!(de.deserialize("b", &optional_list).unwrap(), list(vec![]));
    assert_eq!(de.deserialize("none", &optional_list).unwrap(), StructuredValue::Absent);
    assert_eq!(invalid_format(de.deserialize("e", &optional_list)), "Invalid array length 'zz'");
    let optional_number = Shape::Optional(Box::new(scalar(ScalarKind::I8)));
    assert_eq!(invalid_value(de.deserialize("a", &Shape::Optional(Box::new(scalar(ScalarKind::Bool))))), "Cannot parse '1' as bool");
    assert_eq!(de.deserialize("a", &optional_number).unwrap(), text("1"));
}

#[test]
fn tuple_reads_its_arity_from_the_shape() {
    let records = pairs(&[("p_0", "1"), ("p_1", "true"), ("p_2", "ignored")]);
    let shape = fields(vec![(
        "p",
        Shape::Tuple(vec![scalar(ScalarKind::U8), scalar(ScalarKind::Bool)]),
    )]);
    assert_eq!(
        from_txt_records(records, &shape).unwrap(),
        mapping(vec![("p", list(vec![text("1"), text("true")]))])
    );
    let records = pairs(&[("p_0", "1")]);
    assert_eq!(missing(from_txt_records(records, &shape)), "p_1");
}

#[test]
fn dictionary_without_fields_is_empty() {
    let shape = Shape::Dictionary(Box::new(scalar(ScalarKind::Text)));
    assert_eq!(from_txt_records(pairs(&[]), &shape).unwrap(), mapping(vec![]));
}

#[test]
fn dictionary_of_numbers_checks_each_value() {
    let shape = Shape::Dictionary(Box::new(scalar(ScalarKind::I16)));
    assert_eq!(
        from_txt_records(pairs(&[("a", "-5"), ("b", "7")]), &shape).unwrap(),
        mapping(vec![("a", text("-5")), ("b", text("7"))])
    );
    assert_eq!(
        invalid_value(from_txt_records(pairs(&[("a", "-5"), ("b", "70000")]), &shape)),
        "Cannot parse '70000' as i16"
    );
}

#[test]
fn typed_readers() {
    let de = TxtRecordDeserializer::new(pairs(&[
        ("t", "true"),
        ("f", "false"),
        ("n", "-128"),
        ("big", "18446744073709551615"),
        ("c", "x"),
        ("snow", "☃"),
        ("s", "some text"),
        ("e", ""),
    ]));
    assert_eq!(de.deserialize_bool("t").unwrap(), true);
    assert_eq!(de.deserialize_bool("f").unwrap(), false);
    assert_eq!(invalid_value(de.deserialize_bool("n")), "Cannot parse '-128' as bool");
    assert_eq!(invalid_value(de.deserialize_bool("e")), "Cannot parse '' as bool");
    assert_eq!(de.deserialize_i8("n").unwrap(), -128);
    assert_eq!(de.deserialize_i16("n").unwrap(), -128);
    assert_eq!(de.deserialize_i32("n").unwrap(), -128);
    assert_eq!(de.deserialize_i64("n").unwrap(), -128);
    assert_eq!(invalid_value(de.deserialize_u8("n")), "Cannot parse '-128' as u8");
    assert_eq!(invalid_value(de.deserialize_u16("n")), "Cannot parse '-128' as u16");
    assert_eq!(invalid_value(de.deserialize_u32("n")), "Cannot parse '-128' as u32");
    assert_eq!(invalid_value(de.deserialize_u64("n")), "Cannot parse '-128' as u64");
    assert_eq!(de.deserialize_u64("big").unwrap(), u64::MAX);
    assert_eq!(invalid_value(de.deserialize_i64("big")), "Cannot parse '18446744073709551615' as i64");
    assert_eq!(invalid_value(de.deserialize_i32("big")), "Cannot parse '18446744073709551615' as i32");
    assert_eq!(invalid_value(de.deserialize_i16("t")), "Cannot parse 'true' as i16");
    assert_eq!(invalid_value(de.deserialize_i8("s")), "Cannot parse 'some text' as i8");
    assert_eq!(de.deserialize_char("c").unwrap(), 'x');
    assert_eq!(de.deserialize_char("snow").unwrap(), '☃');
    assert_eq!(invalid_value(de.deserialize_char("s")), "Cannot parse 'some text' as char");
    assert_eq!(invalid_value(de.deserialize_char("e")), "Cannot parse '' as char");
    assert_eq!(de.deserialize_str("s").unwrap(), "some text");
    assert_eq!(de.deserialize_str("e").unwrap(), "");
    assert_eq!(de.deserialize_bytes("snow").unwrap(), "☃".as_bytes().to_vec());
    assert_eq!(de.read_scalar("n", ScalarKind::I8).unwrap(), "-128");
    assert_eq!(invalid_value(de.read_scalar("n", ScalarKind::Char)), "Cannot parse '-128' as char");
    for result in [
        de.deserialize_str("x").map(|_| ()),
        de.deserialize_bytes("x").map(|_| ()),
        de.deserialize_bool("x").map(|_| ()),
        de.deserialize_char("x").map(|_| ()),
        de.deserialize_i8("x").map(|_| ()),
        de.deserialize_i16("x").map(|_| ()),
        de.deserialize_i32("x").map(|_| ()),
        de.deserialize_i64("x").map(|_| ()),
        de.deserialize_u8("x").map(|_| ()),
        de.deserialize_u16("x").map(|_| ()),
        de.deserialize_u32("x").map(|_| ()),
        de.deserialize_u64("x").map(|_| ()),
    ] {
        match result {
            Err(DeserializeError::MissingField(path)) => assert_eq!(path, "x"),
            other => panic!("Expected MissingField error, got {:?}", other),
        }
    }
}

#[test]
fn seq_access_walks_the_elements() {
    let config = TxtRecordConfig::default();
    let mut access = SeqAccess::new("items", 2);
    assert_eq!(access.len(), 2);
    assert_eq!(access.next_key(&config), Some("items_0".to_string()));
    assert_eq!(access.next_key(&config), Some("items_1".to_string()));
    assert_eq!(access.next_key(&config), None);
    assert_eq!(access.next_key(&config), None);
    let de = TxtRecordDeserializer::new(pairs(&[("items_len", "3")]));
    let mut access = de.deserialize_seq("items").unwrap();
    assert_eq!(access.len(), 3);
    assert_eq!(access.next_key(de.config()), Some("items_0".to_string()));
    let mut access = de.deserialize_tuple("t", 1);
    assert_eq!(access.next_key(de.config()), Some("t_0".to_string()));
    assert_eq!(access.next_key(de.config()), None);
    match de.deserialize_seq("other") {
        Err(DeserializeError::MissingField(path)) => assert_eq!(path, "other_len"),
        other => panic!("Expected MissingField error, got {:?}", other.map(|a| a.len())),
    }
}

#[test]
fn map_access_walks_the_fields() {
    let config = TxtRecordConfig::default();
    let mut access = MapAccess::new("base", names(&["a", "b"]));
    assert_eq!(access.len(), 2);
    assert_eq!(access.next_key(), Some(&"a".to_string()));
    assert_eq!(access.next_key(), Some(&"a".to_string()));
    assert_eq!(access.next_value_key(&config), "base.a");
    assert_eq!(access.next_key(), Some(&"b".to_string()));
    assert_eq!(access.next_value_key(&config), "base.b");
    assert_eq!(access.next_key(), None);
    let mut access = MapAccess::new("", names(&["a"]));
    assert_eq!(access.next_value_key(&config), "a");
    let de = TxtRecordDeserializer::new(pairs(&[("m.x", "1"), ("m.y.z", "2")]));
    let mut access = de.deserialize_map("m");
    assert_eq!(access.len(), 2);
    assert_eq!(access.next_value_key(de.config()), "m.x");
    assert_eq!(access.next_value_key(de.config()), "m.y");
    let access = de.deserialize_struct("m", names(&["q"]));
    assert_eq!(access.next_key(), Some(&"q".to_string()));
}

#[test]
fn failure_messages() {
    assert_eq!(DeserializeError::Custom("boom".to_string()).message(), "boom");
    assert_eq!(
        DeserializeError::InvalidFormat("bad".to_string()).message(),
        "Invalid format: bad"
    );
    assert_eq!(
        DeserializeError::MissingField("a.b".to_string()).message(),
        "Missing field: a.b"
    );
    assert_eq!(
        DeserializeError::InvalidValue("Cannot parse 'x' as u8".to_string()).message(),
        "Invalid value: Cannot parse 'x' as u8"
    );
}
