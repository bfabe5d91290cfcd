use urlparts::url::parser::{parse_url, ErrorKind};

#[test]
fn full_url_components() {
    let u = parse_url("http://example.com:3000/home?someq#frag").unwrap();
    assert_eq!(u.scheme, "http");
    assert_eq!(u.host, "example.com");
    assert_eq!(u.port, Some(3000));
    assert_eq!(u.path, "/home");
    assert_eq!(u.query, Some("someq".to_string()));
    assert_eq!(u.fragment, Some("frag".to_string()));
}

#[test]
fn no_port_no_query_no_fragment() {
    let u = parse_url("http://example.com/path").unwrap();
    assert_eq!(u.scheme, "http");
    assert_eq!(u.host, "example.com");
    assert_eq!(u.port, None);
    assert_eq!(u.path, "/path");
    assert_eq!(u.query, None);
    assert_eq!(u.fragment, None);
}

#[test]
fn missing_scheme() {
    let e = parse_url("noscheme.com/path").unwrap_err();
    assert_eq!(e.kind, ErrorKind::MissingScheme);
    assert_eq!(e.input, "noscheme.com/path");
}

#[test]
fn missing_path_delimiter() {
    let e = parse_url("http://example.com").unwrap_err();
    assert_eq!(e.kind, ErrorKind::MissingPathDelimiter);
    assert_eq!(e.input, "http://example.com");
}

#[test]
fn invalid_port() {
    let e = parse_url("http://example.com:abc/path").unwrap_err();
    assert_eq!(e.kind, ErrorKind::InvalidPort);
    assert_eq!(e.input, "http://example.com:abc/path");
}

#[test]
fn query_without_fragment() {
    let u = parse_url("http://example.com/path?q1").unwrap();
    let q = u.query.unwrap();
    assert_eq!(q, "q1");
    assert!(!q.starts_with('?'));
    assert_eq!(u.fragment, None);
}

#[test]
fn fragment_without_query() {
    let u = parse_url("http://example.com/path#only").unwrap();
    assert_eq!(u.query, None);
    assert_eq!(u.fragment, Some("only".to_string()));
}

#[test]
fn reparse_equal() {
    let input = "https://example.org:8080/a/b?x=1#top";
    let u1 = parse_url(input).unwrap();
    let u2 = parse_url(input).unwrap();
    assert_eq!(u1.scheme, u2.scheme);
    assert_eq!(u1.host, u2.host);
    assert_eq!(u1.port, u2.port);
    assert_eq!(u1.path, u2.path);
    assert_eq!(u1.query, u2.query);
    assert_eq!(u1.fragment, u2.fragment);
}

#[test]
fn reparse_error_equal() {
    let input = "no-separator-here";
    let e1 = parse_url(input).unwrap_err();
    let e2 = parse_url(input).unwrap_err();
    assert_eq!(e1.kind, e2.kind);
    assert_eq!(e1.input, e2.input);
}

#[test]
fn round_trip_concrete() {
    let scheme = "https";
    let host = "sub.example.net";
    let port: u32 = 443;
    let path = "/index.html";
    let query = "a=1&b=2";
    let fragment = "sec";
    let input = format!("{}://{}:{}{}?{}#{}", scheme, host, port, path, query, fragment);
    let u = parse_url(&input).unwrap();
    assert_eq!(u.scheme, scheme);
    assert_eq!(u.host, host);
    assert_eq!(u.port, Some(port));
    assert_eq!(u.path, path);
    assert_eq!(u.query, Some(query.to_string()));
    assert_eq!(u.fragment, Some(fragment.to_string()));
}

#[test]
fn empty_query_is_absent() {
    let u = parse_url("http://h/p?#frag").unwrap();
    assert_eq!(u.query, None);
    assert_eq!(u.fragment, Some("frag".to_string()));
}

#[test]
fn port_zero() {
    let u = parse_url("http://h:0/").unwrap();
    assert_eq!(u.port, Some(0));
    assert_eq!(u.path, "/");
}

#[test]
fn port_largest() {
    let u = parse_url("http://h:4294967295/x").unwrap();
    assert_eq!(u.port, Some(u32::MAX));
}

#[test]
fn port_too_large() {
    let e = parse_url("http://h:4294967296/x").unwrap_err();
    assert_eq!(e.kind, ErrorKind::InvalidPort);
}

#[test]
fn port_empty_text() {
    let e = parse_url("http://h:/p").unwrap_err();
    assert_eq!(e.kind, ErrorKind::InvalidPort);
}

#[test]
fn empty_scheme_and_host() {
    let u = parse_url(":///p").unwrap();
    assert_eq!(u.scheme, "");
    assert_eq!(u.host, "");
    assert_eq!(u.path, "/p");
}

#[test]
fn empty_fragment_is_kept() {
    let u = parse_url("http://h/p#").unwrap();
    assert_eq!(u.query, None);
    assert_eq!(u.fragment, Some("".to_string()));
}

#[test]
fn query_delimiter_wins_over_fragment() {
    let u = parse_url("http://h/p#f?x").unwrap();
    assert_eq!(u.path, "/p#f");
    assert_eq!(u.query, Some("x".to_string()));
    assert_eq!(u.fragment, None);
}

#[test]
fn colon_in_path_is_not_a_port() {
    let u = parse_url("http://h/p:1").unwrap();
    assert_eq!(u.host, "h");
    assert_eq!(u.port, None);
    assert_eq!(u.path, "/p:1");
}
