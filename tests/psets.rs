use psets::{
    err_to_string, DynamicValue, HostNumber, JsonNumber, LeafField, ParseError, Pset,
    PsetFlattenedValue, PsetId, PsetNestedValue, Psets,
};

fn num(i: i128) -> DynamicValue {
    DynamicValue::Number(JsonNumber::Int(i))
}

fn text(s: &str) -> DynamicValue {
    DynamicValue::String(s.to_string())
}

fn obj(entries: Vec<(&str, DynamicValue)>) -> DynamicValue {
    DynamicValue::Object(entries.into_iter().map(|(k, v)| (k.to_string(), v)).collect())
}

fn sample_pset() -> Pset {
    Pset::new(
        1,
        "c".to_string(),
        DynamicValue::Array(vec![num(1), DynamicValue::Bool(true), DynamicValue::Null]),
        None,
    )
}

fn nested_sample() -> Psets {
    Psets::Nested(vec![
        ("a".to_string(), PsetNestedValue::Psets(Psets::PsetId(PsetId::new(1)))),
        (
            "b".to_string(),
            PsetNestedValue::Psets(Psets::Nested(vec![("c".to_string(), PsetNestedValue::Any(num(2)))])),
        ),
    ])
}

#[test]
fn leaf_discrimination_reads_pset_id() {
    let v = obj(vec![("id", num(5))]);
    match Psets::from_json(&v) {
        Ok(Psets::PsetId(x)) => assert_eq!(x, PsetId { id_: 5 }),
        other => panic!("unexpected {:?}", other),
    }
}

#[test]
fn strict_schema_rejects_extra_field() {
    let v = obj(vec![("id", num(5)), ("extra", num(1))]);
    assert_eq!(PsetId::from_json(&v), Err(ParseError::UnknownField));
    match Psets::from_json(&v) {
        Ok(Psets::Nested(e)) => {
            assert_eq!(e.len(), 2);
            assert!(matches!(e[0].1, PsetNestedValue::Any(_)));
            assert!(matches!(e[1].1, PsetNestedValue::Any(_)));
        }
        other => panic!("unexpected {:?}", other),
    }
}

#[test]
fn object_without_id_is_nested_with_two_values() {
    let v = obj(vec![("a", num(1)), ("b", num(2))]);
    match Psets::from_json(&v) {
        Ok(Psets::Nested(e)) => {
            assert_eq!(e.len(), 2);
            assert_eq!(e[0].0, "a");
            assert_eq!(e[1].0, "b");
            assert_eq!(e[0].1.to_string(), "1");
            assert_eq!(e[1].1.to_string(), "2");
            assert!(matches!(e[0].1, PsetNestedValue::Any(_)));
        }
        other => panic!("unexpected {:?}", other),
    }
}

#[test]
fn flatten_nested_content() {
    let flat = nested_sample().flatten(&":".to_string());
    assert_eq!(flat.len(), 2);
    assert_eq!(flat[0].0, "a");
    assert!(matches!(flat[0].1, PsetFlattenedValue::PsetId(PsetId { id_: 1 })));
    assert_eq!(flat[1].0, "b:c");
    assert!(matches!(flat[1].1, PsetFlattenedValue::Value(DynamicValue::Number(JsonNumber::Int(2)))));
}

#[test]
fn flatten_uses_given_delimiter_and_default() {
    let flat = nested_sample().flatten(&"/".to_string());
    assert_eq!(flat[1].0, "b/c");
    let flat = nested_sample().rust_flatten(None, None);
    assert_eq!(flat[1].0, "b:c");
    let root = "r".to_string();
    let flat = nested_sample().rust_flatten(None, Some(&root));
    assert_eq!(flat[0].0, "r:a");
    assert_eq!(flat[1].0, "r:b:c");
}

#[test]
fn flatten_leaf_gives_single_empty_address() {
    let flat = Psets::PsetId(PsetId::new(3)).flatten(&":".to_string());
    assert_eq!(flat.len(), 1);
    assert_eq!(flat[0].0, "");
    let flat = Psets::Pset(sample_pset()).flatten(&":".to_string());
    assert_eq!(flat.len(), 1);
    assert_eq!(flat[0].0, "");
    assert!(matches!(flat[0].1, PsetFlattenedValue::Pset(_)));
}

#[test]
fn flatten_empty_nested_is_empty() {
    assert_eq!(Psets::Nested(vec![]).flatten(&":".to_string()).len(), 0);
}

#[test]
fn iterating_a_leaf_yields_one_pair() {
    let p = Psets::Pset(sample_pset());
    let mut it = p.iter();
    match it.next() {
        Some((None, PsetNestedValue::Psets(Psets::Pset(x)))) => assert_eq!(x.id_, 1),
        other => panic!("unexpected {:?}", other),
    }
    assert!(it.next().is_none());
    assert!(it.next().is_none());
}

#[test]
fn iterating_nested_yields_one_pair_per_key() {
    let p = Psets::Nested(vec![
        ("x".to_string(), PsetNestedValue::Any(num(1))),
        ("y".to_string(), PsetNestedValue::Any(text("z"))),
    ]);
    let mut it = p.iter();
    match it.next() {
        Some((Some(k), v)) => {
            assert_eq!(k, "x");
            assert_eq!(v.to_string(), "1");
        }
        other => panic!("unexpected {:?}", other),
    }
    match it.next() {
        Some((Some(k), v)) => {
            assert_eq!(k, "y");
            assert_eq!(v.to_string(), "\"z\"");
        }
        other => panic!("unexpected {:?}", other),
    }
    assert!(it.next().is_none());
    assert!(it.next().is_none());
    let mut again = p.iter();
    assert!(again.next().is_some());
}

#[test]
fn pset_id_round_trip() {
    let x = PsetId::new(-42);
    assert_eq!(PsetId::from_json(&x.to_json()), Ok(x));
}

#[test]
fn pset_round_trip() {
    let x = Pset::new(7, "IfcWall".to_string(), obj(vec![("h", num(3))]), Some("len".to_string()));
    let back = Pset::from_json(&x.to_json()).unwrap();
    assert_eq!(back.id_, 7);
    assert_eq!(back.class_, "IfcWall");
    assert_eq!(back.value_type, Some("len".to_string()));
    assert_eq!(back.to_string(), x.to_string());
    let y = sample_pset();
    let back = Pset::from_json(&y.to_json()).unwrap();
    assert_eq!(back.value_type, None);
    assert_eq!(back.to_string(), y.to_string());
}

#[test]
fn psets_round_trip() {
    let p = Psets::Nested(vec![
        ("a".to_string(), PsetNestedValue::Psets(Psets::Pset(sample_pset()))),
        ("b".to_string(), PsetNestedValue::Any(DynamicValue::Array(vec![num(1)]))),
        ("c".to_string(), PsetNestedValue::Psets(nested_sample())),
    ]);
    let j = p.to_json();
    let back = Psets::from_json(&j).unwrap();
    assert_eq!(back.to_json().to_json_text(), j.to_json_text());
    assert_eq!(back.to_string(), p.to_string());
}

#[test]
fn nested_any_object_reads_back_as_tree() {
    let p = Psets::Nested(vec![("a".to_string(), PsetNestedValue::Any(obj(vec![("id", num(1))])))]);
    match Psets::from_json(&p.to_json()) {
        Ok(Psets::Nested(e)) => {
            assert!(matches!(e[0].1, PsetNestedValue::Psets(Psets::PsetId(PsetId { id_: 1 }))))
        }
        other => panic!("unexpected {:?}", other),
    }
}

#[test]
fn host_numbers_keep_their_kind() {
    assert_eq!(JsonNumber::Int(7).to_host(), HostNumber::Unsigned(7));
    assert_eq!(JsonNumber::Float("7.5".to_string()).to_host(), HostNumber::Float("7.5".to_string()));
    assert_eq!(JsonNumber::Int(-3).to_host(), HostNumber::Signed(-3));
    assert_eq!(
        JsonNumber::Int(u64::MAX as i128).to_host(),
        HostNumber::Unsigned(u64::MAX)
    );
    assert_eq!(
        JsonNumber::Int(u64::MAX as i128 + 1).to_host(),
        HostNumber::Float("18446744073709551616".to_string())
    );
}

#[test]
fn leaf_text_forms() {
    assert_eq!(PsetId::new(5).to_string(), "PsetId({\"id\":5})");
    assert_eq!(
        sample_pset().to_string(),
        "Pset({\"class\":\"c\",\"id\":1,\"value\":[1,true,null],\"value-type\":null})"
    );
    assert_eq!(PsetId::__class_name__(), "PsetId");
    assert_eq!(Pset::__class_name__(), "Pset");
    assert_eq!(Psets::__class_name__(), "Psets");
}

#[test]
fn json_text_escapes_strings_and_writes_numbers() {
    assert_eq!(text("a\"b\n").to_json_text(), "\"a\\\"b\\n\"");
    assert_eq!(num(-42).to_json_text(), "-42");
    assert_eq!(num(i64::MIN as i128).to_json_text(), "-9223372036854775808");
    assert_eq!(num(0).to_json_text(), "0");
    let v = obj(vec![("k\"", DynamicValue::Array(vec![])), ("e", obj(vec![]))]);
    assert_eq!(v.to_json_text(), "{\"k\\\"\":[],\"e\":{}}");
    assert_eq!(DynamicValue::Number(JsonNumber::Float("0.5".to_string())).to_json_text(), "0.5");
}

#[test]
fn tree_text_lists_every_leaf() {
    let t = nested_sample().to_string();
    assert_eq!(t, "Psets\n  a: PsetId({\"id\":1})\n  b\n    c: 2\n");
    assert_eq!(Psets::PsetId(PsetId::new(2)).to_string(), "Psets: PsetId({\"id\":2})\n");
}

#[test]
fn as_tree_shapes() {
    let t = nested_sample().as_tree(None);
    assert!(t.node.addr.is_none());
    assert!(t.node.entity.is_none());
    assert_eq!(t.children.len(), 2);
    assert_eq!(t.children[0].node.addr, Some("a".to_string()));
    assert_eq!(t.children[1].children.len(), 1);
    assert_eq!(t.children[1].children[0].node.to_string(), "c: 2");
}

#[test]
fn missing_field_errors() {
    assert_eq!(
        Pset::from_json(&obj(vec![("id", num(1))])).map(|p| p.id_),
        Err(ParseError::MissingField(LeafField::Class))
    );
    assert_eq!(
        Pset::from_json(&obj(vec![("id", num(1)), ("class", text("c"))])).map(|p| p.id_),
        Err(ParseError::MissingField(LeafField::Value))
    );
    assert_eq!(PsetId::from_json(&obj(vec![])), Err(ParseError::MissingField(LeafField::Id)));
}

#[test]
fn duplicate_and_type_errors() {
    assert_eq!(
        PsetId::from_json(&obj(vec![("id", num(1)), ("id_", num(2))])),
        Err(ParseError::DuplicateField(LeafField::Id))
    );
    assert_eq!(PsetId::from_json(&obj(vec![("id", text("x"))])), Err(ParseError::InvalidType));
    assert_eq!(
        PsetId::from_json(&obj(vec![("id", num(i64::MAX as i128 + 1))])),
        Err(ParseError::InvalidType)
    );
    assert_eq!(PsetId::from_json(&num(5)), Err(ParseError::InvalidType));
    assert!(matches!(Psets::from_json(&num(5)), Err(ParseError::InvalidType)));
    assert!(matches!(Psets::from_json(&DynamicValue::Array(vec![num(5)])), Err(ParseError::InvalidType)));
}

#[test]
fn aliases_are_accepted() {
    let v = obj(vec![
        ("id_", num(4)),
        ("class_", text("k")),
        ("value", DynamicValue::Null),
        ("value_type", text("t")),
    ]);
    let p = Pset::from_json(&v).unwrap();
    assert_eq!(p.id_, 4);
    assert_eq!(p.class_, "k");
    assert_eq!(p.value_type, Some("t".to_string()));
}

#[test]
fn error_messages() {
    assert_eq!(err_to_string(&ParseError::UnknownField), "unknown field");
    assert_eq!(err_to_string(&ParseError::MissingField(LeafField::ValueType)), "missing field `value-type`");
    assert_eq!(err_to_string(&ParseError::DuplicateField(LeafField::Id)), "duplicate field `id`");
    assert_eq!(err_to_string(&ParseError::InvalidType), "invalid type");
}

#[test]
fn nested_value_reads_subtree_or_value() {
    let v = PsetNestedValue::new(&obj(vec![("id", num(9))])).unwrap();
    assert!(matches!(v, PsetNestedValue::Psets(Psets::PsetId(PsetId { id_: 9 }))));
    let v = PsetNestedValue::model_validate(&text("s")).unwrap();
    assert!(matches!(v, PsetNestedValue::Any(DynamicValue::String(_))));
    assert_eq!(v.to_json().to_json_text(), "\"s\"");
}

#[test]
fn long_delimiter_can_repeat_an_address() {
    let p = Psets::Nested(vec![
        (
            "x".to_string(),
            PsetNestedValue::Psets(Psets::Nested(vec![("az".to_string(), PsetNestedValue::Any(num(1)))])),
        ),
        (
            "xa".to_string(),
            PsetNestedValue::Psets(Psets::Nested(vec![("z".to_string(), PsetNestedValue::Any(num(2)))])),
        ),
    ]);
    let flat = p.flatten(&"aa".to_string());
    assert_eq!(flat.len(), 2);
    assert_eq!(flat[0].0, "xaaaz");
    assert_eq!(flat[1].0, "xaaaz");
    let flat = p.flatten(&":".to_string());
    assert_eq!(flat[0].0, "x:az");
    assert_eq!(flat[1].0, "xa:z");
}
