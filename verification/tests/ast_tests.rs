use yami::{Entry, Yaml};

#[test]
fn test_scalar_helpers() {
    let scalar = Yaml::Scalar("42");
    assert!(scalar.is_scalar());
    assert!(!scalar.is_sequence());
    assert!(!scalar.is_mapping());
    assert_eq!(scalar.as_scalar(), Some("42"));
    assert_eq!(scalar.as_str(), Some("42"));
    assert_eq!(scalar.to_i64().expect("should parse 42 as i64"), 42);
}

#[test]
fn test_boolean_conversions() {
    assert!(Yaml::Scalar("true").to_bool().expect("true should parse"));
    assert!(Yaml::Scalar("yes").to_bool().expect("yes should parse"));
    assert!(Yaml::Scalar("ON").to_bool().expect("ON should parse"));
    assert!(Yaml::Scalar("1").to_bool().expect("1 should parse"));

    assert!(!Yaml::Scalar("false").to_bool().expect("false should parse"));
    assert!(!Yaml::Scalar("no").to_bool().expect("no should parse"));
    assert!(!Yaml::Scalar("off").to_bool().expect("off should parse"));
    assert!(!Yaml::Scalar("0").to_bool().expect("0 should parse"));

    assert!(Yaml::Scalar("invalid").to_bool().is_err());
}

#[test]
fn test_sequence_helpers() {
    let seq = Yaml::Sequence(vec![
        Yaml::Scalar("first"),
        Yaml::Scalar("second"),
        Yaml::Scalar("third"),
    ]);
    assert!(seq.is_sequence());
    assert_eq!(seq.len(), 3);
    assert_eq!(seq.get_idx(1), Some(&Yaml::Scalar("second")));
    assert_eq!(seq[0], Yaml::Scalar("first"));
    assert_eq!(seq[2], Yaml::Scalar("third"));
}

#[test]
fn test_mapping_helpers() {
    let mapping = Yaml::Mapping(vec![
        Entry::new(Yaml::Scalar("name"), Yaml::Scalar("Alice")),
        Entry::new(Yaml::Scalar("age"), Yaml::Scalar("30")),
    ]);

    assert!(mapping.is_mapping());
    assert_eq!(mapping.len(), 2);
    assert_eq!(mapping.get("name"), Some(&Yaml::Scalar("Alice")));
    assert_eq!(mapping["age"], Yaml::Scalar("30"));
    assert_eq!(mapping["age"].to_i64().expect("age should parse as integer"), 30);
    assert_eq!(mapping.get("nonexistent"), None);
}

#[test]
fn test_display_formatting() {
    let mapping = Yaml::Mapping(vec![
        Entry::new(Yaml::Scalar("host"), Yaml::Scalar("localhost")),
        Entry::new(Yaml::Scalar("port"), Yaml::Scalar("8080")),
    ]);
    let formatted = mapping.to_string();
    assert!(formatted.contains("host: localhost"));
    assert!(formatted.contains("port: 8080"));
}

#[test]
fn display_of_nested_collections() {
    let doc = Yaml::Mapping(vec![
        Entry::new(Yaml::Scalar("name"), Yaml::Scalar("yami")),
        Entry::new(
            Yaml::Scalar("tags"),
            Yaml::Sequence(vec![Yaml::Scalar("a"), Yaml::Scalar("b")]),
        ),
        Entry::new(
            Yaml::Scalar("db"),
            Yaml::Mapping(vec![Entry::new(Yaml::Scalar("port"), Yaml::Scalar("5432"))]),
        ),
        Entry::new(Yaml::Scalar("empty"), Yaml::Sequence(vec![])),
    ]);
    assert_eq!(
        doc.to_string(),
        "name: yami\ntags: \n  - a\n  - b\ndb: \n  port: 5432\nempty: \n[]"
    );
    assert_eq!(Yaml::Mapping(vec![]).to_string(), "{}");
    assert_eq!(Yaml::Sequence(vec![]).to_string(), "[]");
    assert_eq!(Yaml::Scalar("x").to_string(), "x");
}

#[test]
fn display_of_sequence_of_sequences() {
    let doc = Yaml::Sequence(vec![
        Yaml::Sequence(vec![Yaml::Scalar("1"), Yaml::Scalar("2")]),
        Yaml::Scalar("3"),
    ]);
    assert_eq!(doc.to_string(), "- \n  - 1\n  - 2\n- 3");
}

#[test]
fn index_of_missing_key_or_position_is_empty_scalar() {
    let mapping = Yaml::Mapping(vec![Entry::new(Yaml::Scalar("a"), Yaml::Scalar("1"))]);
    assert_eq!(mapping["missing"], Yaml::Scalar(""));
    assert_eq!(mapping[0], Yaml::Scalar(""));
    let seq = Yaml::Sequence(vec![Yaml::Scalar("x")]);
    assert_eq!(seq[1], Yaml::Scalar(""));
    assert_eq!(seq["x"], Yaml::Scalar(""));
    assert_eq!(Yaml::Scalar("s")["k"], Yaml::Scalar(""));
    assert_eq!(seq.get_idx(1), None);
    assert_eq!(Yaml::Scalar("s").get_idx(0), None);
    assert_eq!(Yaml::Scalar("s").get("s"), None);
}

#[test]
fn get_returns_first_entry_with_the_key() {
    let mapping = Yaml::Mapping(vec![
        Entry::new(Yaml::Sequence(vec![]), Yaml::Scalar("skipped")),
        Entry::new(Yaml::Scalar("k"), Yaml::Scalar("first")),
        Entry::new(Yaml::Scalar("k"), Yaml::Scalar("second")),
    ]);
    assert_eq!(mapping.get("k"), Some(&Yaml::Scalar("first")));
    assert_eq!(mapping["k"], Yaml::Scalar("first"));
}

#[test]
fn get_mut_writes_through() {
    let mut mapping = Yaml::Mapping(vec![
        Entry::new(Yaml::Scalar("a"), Yaml::Scalar("1")),
        Entry::new(Yaml::Scalar("b"), Yaml::Scalar("2")),
    ]);
    match mapping.get_mut("b") {
        Some(v) => *v = Yaml::Scalar("20"),
        None => panic!("key b exists"),
    }
    assert_eq!(mapping["b"], Yaml::Scalar("20"));
    assert_eq!(mapping["a"], Yaml::Scalar("1"));
    assert!(mapping.get_mut("c").is_none());
    let mut scalar = Yaml::Scalar("x");
    assert!(scalar.get_mut("x").is_none());
}

#[test]
fn len_and_is_empty() {
    assert_eq!(Yaml::Scalar("abc").len(), 1);
    assert!(Yaml::Scalar("").is_empty());
    assert!(!Yaml::Scalar("a").is_empty());
    assert!(Yaml::Sequence(vec![]).is_empty());
    assert!(Yaml::Mapping(vec![]).is_empty());
    assert_eq!(Yaml::Mapping(vec![]).len(), 0);
}

#[test]
fn as_sequence_and_as_mapping() {
    let seq = Yaml::Sequence(vec![Yaml::Scalar("x")]);
    assert_eq!(seq.as_sequence(), Some(&[Yaml::Scalar("x")][..]));
    assert_eq!(seq.as_mapping(), None);
    assert_eq!(seq.as_scalar(), None);
    let map = Yaml::Mapping(vec![Entry::new(Yaml::Scalar("k"), Yaml::Scalar("v"))]);
    assert_eq!(map.as_mapping().map(|e| e.len()), Some(1));
    assert_eq!(map.as_sequence(), None);
}

#[test]
fn entry_accessors_and_parts() {
    let e = Entry::new(Yaml::Scalar("k"), Yaml::Scalar("v"));
    assert_eq!(e.key(), &Yaml::Scalar("k"));
    assert_eq!(e.value(), &Yaml::Scalar("v"));
    let (k, v) = e.into_parts();
    assert_eq!(k, Yaml::Scalar("k"));
    assert_eq!(v, Yaml::Scalar("v"));
}

#[test]
fn boolean_conversion_messages() {
    let err = Yaml::Scalar("  Maybe ").to_bool().expect_err("not a boolean word");
    assert_eq!(err.kind, yami::ErrorKind::Custom("cannot parse 'maybe' as boolean".to_string()));
    assert_eq!(err.position, yami::Position::start());
    let err = Yaml::Sequence(vec![]).to_bool().expect_err("not a scalar");
    assert_eq!(
        err.kind,
        yami::ErrorKind::Custom("expected scalar for boolean conversion".to_string())
    );
    assert!(Yaml::Scalar(" TRUE ").to_bool().expect("padded TRUE"));
    assert!(!Yaml::Scalar("Off").to_bool().expect("Off"));
}

#[test]
fn integer_conversions() {
    assert_eq!(Yaml::Scalar(" +42 ").to_i64().expect("signed"), 42);
    assert_eq!(Yaml::Scalar("-17").to_i64().expect("negative"), -17);
    assert_eq!(
        Yaml::Scalar("9223372036854775807").to_i64().expect("max"),
        i64::MAX
    );
    assert_eq!(
        Yaml::Scalar("-9223372036854775808").to_i64().expect("min"),
        i64::MIN
    );
    let cases = [
        (" 12x ", "cannot parse ' 12x ' as integer: invalid digit found in string"),
        ("", "cannot parse '' as integer: cannot parse integer from empty string"),
        ("-", "cannot parse '-' as integer: invalid digit found in string"),
        (
            "9223372036854775808",
            "cannot parse '9223372036854775808' as integer: number too large to fit in target type",
        ),
        (
            "-9223372036854775809",
            "cannot parse '-9223372036854775809' as integer: number too small to fit in target type",
        ),
    ];
    for (text, message) in cases {
        let err = Yaml::Scalar(text).to_i64().expect_err("not an i64");
        assert_eq!(err.kind, yami::ErrorKind::Custom(message.to_string()));
    }
    let err = Yaml::Mapping(vec![]).to_i64().expect_err("not a scalar");
    assert_eq!(
        err.kind,
        yami::ErrorKind::Custom("expected scalar for integer conversion".to_string())
    );
}

#[test]
fn clone_is_an_equal_copy() {
    let doc = yami::parse("a: [1, {b: c}]\nd:\n  - e\n").expect("parses");
    let copy = doc.clone();
    assert_eq!(copy, doc);
    let entry = Entry::new(Yaml::Scalar("k"), doc.clone());
    assert_eq!(entry.clone(), entry);
}
