use yami::{parse, Entry, ErrorKind, Position, Yaml, YamlError};

fn s(text: &str) -> Yaml<'_> {
    Yaml::Scalar(text)
}

fn map<'a>(entries: Vec<(&'a str, Yaml<'a>)>) -> Yaml<'a> {
    Yaml::Mapping(entries.into_iter().map(|(k, v)| Entry::new(Yaml::Scalar(k), v)).collect())
}

#[test]
fn test_snapshot_docker_compose() {
    let yaml = r#"
version: "3.8"
services:
  web:
    image: nginx:alpine
    ports:
      - "80:80"
      - "443:443"
    environment:
      NODE_ENV: production
      PORT: 80
    volumes:
      - ./data:/var/www/html
      - ./config/nginx.conf:/etc/nginx/nginx.conf
"#;

    let doc = parse(yaml).expect("docker-compose should parse");
    let expected = map(vec![
        ("version", s("3.8")),
        (
            "services",
            map(vec![(
                "web",
                map(vec![
                    ("image", s("nginx:alpine")),
                    ("ports", Yaml::Sequence(vec![s("80:80"), s("443:443")])),
                    ("environment", map(vec![("NODE_ENV", s("production")), ("PORT", s("80"))])),
                    (
                        "volumes",
                        Yaml::Sequence(vec![
                            s("./data:/var/www/html"),
                            s("./config/nginx.conf:/etc/nginx/nginx.conf"),
                        ]),
                    ),
                ]),
            )]),
        ),
    ]);
    assert_eq!(doc, expected);
}

#[test]
fn test_snapshot_k8s_deployment() {
    let yaml = r#"
apiVersion: apps/v1
kind: Deployment
metadata:
  name: nginx-deployment
  labels:
    app: nginx
spec:
  replicas: 3
  selector:
    matchLabels:
      app: nginx
  template:
    metadata:
      labels:
        app: nginx
    spec:
      containers:
        - name: nginx
          image: nginx:1.14.2
          ports:
            - containerPort: 80
"#;

    let doc = parse(yaml).expect("k8s deployment should parse");
    let expected = map(vec![
        ("apiVersion", s("apps/v1")),
        ("kind", s("Deployment")),
        (
            "metadata",
            map(vec![("name", s("nginx-deployment")), ("labels", map(vec![("app", s("nginx"))]))]),
        ),
        (
            "spec",
            map(vec![
                ("replicas", s("3")),
                ("selector", map(vec![("matchLabels", map(vec![("app", s("nginx"))]))])),
                (
                    "template",
                    map(vec![
                        ("metadata", map(vec![("labels", map(vec![("app", s("nginx"))]))])),
                        (
                            "spec",
                            map(vec![(
                                "containers",
                                Yaml::Sequence(vec![map(vec![
                                    ("name", s("nginx")),
                                    ("image", s("nginx:1.14.2")),
                                    (
                                        "ports",
                                        Yaml::Sequence(vec![map(vec![("containerPort", s("80"))])]),
                                    ),
                                ])]),
                            )]),
                        ),
                    ]),
                ),
            ]),
        ),
    ]);
    assert_eq!(doc, expected);
}

#[test]
fn test_snapshot_mixed_flow_and_block() {
    let yaml = r#"
package:
  name: yami
  keywords: [yaml, parser, zero-copy, fast]
  metadata:
    authors: ['Rust Developer <dev@example.com>']
    links: { repo: "https://github.com/example/yami", docs: "https://docs.rs/yami" }
"#;

    let doc = parse(yaml).expect("mixed yaml should parse");
    let expected = map(vec![(
        "package",
        map(vec![
            ("name", s("yami")),
            (
                "keywords",
                Yaml::Sequence(vec![s("yaml"), s("parser"), s("zero-copy"), s("fast")]),
            ),
            (
                "metadata",
                map(vec![
                    ("authors", Yaml::Sequence(vec![s("Rust Developer <dev@example.com>")])),
                    (
                        "links",
                        map(vec![
                            ("repo", s("https://github.com/example/yami")),
                            ("docs", s("https://docs.rs/yami")),
                        ]),
                    ),
                ]),
            ),
        ]),
    )]);
    assert_eq!(doc, expected);
}

#[test]
fn test_snapshot_syntax_error_formatting() {
    let yaml_with_tab = "server:\n\thost: localhost";
    let err = parse(yaml_with_tab).expect_err("tabs should fail");
    assert_eq!(err, YamlError::new(ErrorKind::TabInIndentation, Position::new(2, 1, 8)));
}
