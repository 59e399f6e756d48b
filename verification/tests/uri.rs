use forward_proxy::uri::{split_target, uri_parts, UriParts, URI_PATTERN};

fn parts(scheme: &str, hostname: &str, path: &str) -> UriParts {
    UriParts {
        scheme: scheme.to_string(),
        hostname: hostname.to_string(),
        path: path.to_string(),
    }
}

#[test]
fn pattern_is_the_absolute_uri_pattern() {
    assert_eq!(URI_PATTERN, "(\\w*?)://(.*?)/(.*)");
}

#[test]
fn split_target_gives_scheme_host_and_path() {
    assert_eq!(
        split_target("http://example.com/foo/bar"),
        Some(parts("http", "example.com", "foo/bar"))
    );
    assert_eq!(
        split_target("https://example.com:8080/?q=1"),
        Some(parts("https", "example.com:8080", "?q=1"))
    );
}

#[test]
fn split_target_fails_where_the_pattern_does_not_match() {
    assert_eq!(split_target("/foo"), None);
    assert_eq!(split_target(""), None);
    assert_eq!(split_target("http:/example.com/"), None);
    assert_eq!(split_target("http://example.com"), None);
}

#[test]
fn split_target_does_not_cross_a_line_feed() {
    assert_eq!(split_target("a://h\n/p"), None);
    assert_eq!(split_target("a://h/p\nq"), Some(parts("a", "h", "p")));
}

#[test]
fn uri_parts_reads_groups_one_to_three() {
    let groups = vec![
        Some("a://b/c".to_string()),
        Some("a".to_string()),
        Some("b".to_string()),
        Some("c".to_string()),
    ];
    assert_eq!(uri_parts(Some(groups)), Some(parts("a", "b", "c")));
}

#[test]
fn uri_parts_fails_where_a_group_is_missing() {
    assert_eq!(uri_parts(None), None);
    assert_eq!(uri_parts(Some(vec![])), None);
    assert_eq!(
        uri_parts(Some(vec![Some("x".to_string()), Some("a".to_string()), Some("b".to_string())])),
        None
    );
    assert_eq!(
        uri_parts(Some(vec![
            Some("x".to_string()),
            Some("a".to_string()),
            None,
            Some("c".to_string()),
        ])),
        None
    );
}
