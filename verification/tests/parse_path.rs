use tul::router::parse_path;

fn pp(url: &str) -> (Option<String>, Option<String>, Option<String>) {
    parse_path(url)
}

#[test]
fn test_parse_path() {
    let test_cases = [
        "/a:100/b/c",
        "/example.com",
        "/example.com:8080",
        "/example.com/path",
        "/example.com:8080/path/to/resource",
        "/a/b/c",
        "/",
        "invalid",
        "/github.githubassets.com/assets/wp-runt",
    ];
    let expected: [(Option<&str>, Option<&str>, Option<&str>); 9] = [
        (Some("a"), Some("100"), Some("/b/c")),
        (Some("example.com"), None, None),
        (Some("example.com"), Some("8080"), None),
        (Some("example.com"), None, Some("/path")),
        (Some("example.com"), Some("8080"), Some("/path/to/resource")),
        (Some("a"), None, Some("/b/c")),
        (None, None, None),
        (None, None, None),
        (Some("github.githubassets.com"), None, Some("/assets/wp-runt")),
    ];
    for (case, want) in test_cases.iter().zip(expected.iter()) {
        let (domain, port, path) = pp(case);
        assert_eq!(domain.as_deref(), want.0, "domain of {case}");
        assert_eq!(port.as_deref(), want.1, "port of {case}");
        assert_eq!(path.as_deref(), want.2, "path of {case}");
    }
}

#[test]
fn parse_path_root() {
    assert_eq!(pp("/"), (None, None, None));
}

#[test]
fn parse_path_bare_domain() {
    assert_eq!(pp("/example.com"), (Some("example.com".to_string()), None, None));
}

#[test]
fn parse_path_domain_port() {
    assert_eq!(
        pp("/example.com:8080"),
        (Some("example.com".to_string()), Some("8080".to_string()), None)
    );
}

#[test]
fn parse_path_domain_port_path() {
    assert_eq!(
        pp("/example.com:8080/path/to/resource"),
        (
            Some("example.com".to_string()),
            Some("8080".to_string()),
            Some("/path/to/resource".to_string())
        )
    );
}

#[test]
fn parse_path_no_leading_slash() {
    assert_eq!(pp("invalid"), (None, None, None));
}

#[test]
fn parse_path_short_segments() {
    assert_eq!(
        pp("/a/b/c"),
        (Some("a".to_string()), None, Some("/b/c".to_string()))
    );
}

#[test]
fn parse_path_empty_domain() {
    assert_eq!(pp("//x"), (None, None, None));
    assert_eq!(pp("/:8080"), (None, None, None));
}
