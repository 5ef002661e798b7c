use yami::{parse, ErrorKind, Yaml};

#[test]
fn test_parse_simple_mapping() {
    let input = "
name: yami
version: 1.0
fast: true
";
    let doc = parse(input).expect("should parse simple mapping");
    assert_eq!(doc.get("name"), Some(&Yaml::Scalar("yami")));
    assert_eq!(doc["version"], Yaml::Scalar("1.0"));
    assert!(doc["fast"].to_bool().unwrap());
}

#[test]
fn test_parse_simple_sequence() {
    let input = "
- rust
- zero-copy
- fast
";
    let doc = parse(input).expect("should parse sequence");
    assert_eq!(
        doc,
        Yaml::Sequence(vec![
            Yaml::Scalar("rust"),
            Yaml::Scalar("zero-copy"),
            Yaml::Scalar("fast"),
        ])
    );
}

#[test]
fn test_parse_nested_mapping_and_sequence() {
    let input = "
database:
  host: 127.0.0.1
  ports:
    - 5432
    - 5433
";
    let doc = parse(input).expect("should parse nested struct");
    assert_eq!(doc["database"]["host"], Yaml::Scalar("127.0.0.1"));
    assert_eq!(
        doc["database"]["ports"],
        Yaml::Sequence(vec![Yaml::Scalar("5432"), Yaml::Scalar("5433")])
    );
}

#[test]
fn test_parse_sequence_of_mappings() {
    let input = "
users:
  - id: 1
    name: Alice
  - id: 2
    name: Bob
";
    let doc = parse(input).expect("should parse sequence of mappings");
    let users = doc["users"].as_sequence().expect("users sequence");
    assert_eq!(users.len(), 2);
    assert_eq!(users[0]["name"], Yaml::Scalar("Alice"));
    assert_eq!(users[1]["name"], Yaml::Scalar("Bob"));
}

#[test]
fn test_parse_mixed_block_and_flow() {
    let input = "
config:
  tags: [fast, safe, zero-copy]
  options: { debug: false, level: 3 }
";
    let doc = parse(input).expect("should parse mixed structures");
    assert_eq!(
        doc["config"]["tags"],
        Yaml::Sequence(vec![
            Yaml::Scalar("fast"),
            Yaml::Scalar("safe"),
            Yaml::Scalar("zero-copy"),
        ])
    );
    assert!(!doc["config"]["options"]["debug"].to_bool().unwrap());
    assert_eq!(doc["config"]["options"]["level"].to_i64().unwrap(), 3);
}

#[test]
fn test_parse_duplicate_key_error() {
    let input = "
key: first
key: duplicate
";
    let err = parse(input).expect_err("should reject duplicate key");
    assert!(matches!(err.kind, ErrorKind::DuplicateKey(_)));
}

#[test]
fn test_parse_empty_document_and_comments() {
    let input = "# Only comments\n# Second comment\n";
    let doc = parse(input).expect("should parse empty comment document");
    assert_eq!(doc, Yaml::Scalar(""));
}
