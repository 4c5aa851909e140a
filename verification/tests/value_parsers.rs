use ockam_kit::value_parsers::{
    classify_url, contents_or_inline, contents_or_inline_config, resolve_url, socket_address_url,
    split_key_val, value_source, UrlCandidate, ValueError, ValueSource,
};

#[test]
fn splits_at_the_first_equal_sign() {
    assert_eq!(split_key_val("a=b").unwrap(), ("a".to_string(), "b".to_string()));
    assert_eq!(split_key_val("a=b=c").unwrap(), ("a".to_string(), "b=c".to_string()));
    assert_eq!(split_key_val("=x").unwrap(), ("".to_string(), "x".to_string()));
    assert_eq!(split_key_val("k=").unwrap(), ("k".to_string(), "".to_string()));
    assert_eq!(split_key_val("clé=été").unwrap(), ("clé".to_string(), "été".to_string()));
}

#[test]
fn a_value_without_equal_sign_is_refused() {
    let e = split_key_val("abc").unwrap_err();
    assert_eq!(e.input, "abc");
    assert_eq!(e.message(), "invalid key=value pair: no `=` found in `abc`");
}

#[test]
fn classifies_urls() {
    match classify_url("https://ockam.io/ticket") {
        UrlCandidate::Parsed(u) => assert_eq!(u, "https://ockam.io/ticket"),
        _ => panic!("a URL"),
    }
    match classify_url("127.0.0.1:4000/enroll/ticket") {
        UrlCandidate::SocketAddress(s) => assert_eq!(s, "127.0.0.1:4000"),
        _ => panic!("a socket address"),
    }
    // A host name followed by `:` reads as a URL scheme.
    assert!(matches!(classify_url("localhost:4000/enroll"), UrlCandidate::Parsed(_)));
    assert!(matches!(classify_url("./ticket.json"), UrlCandidate::NotUrl));
    assert!(matches!(classify_url("abc/d:e"), UrlCandidate::NotUrl));
}

#[test]
fn a_socket_address_reads_as_an_http_url() {
    let u = socket_address_url("127.0.0.1:4000/path").unwrap();
    assert_eq!(u, "http://127.0.0.1:4000/path");
    assert!(socket_address_url("bad host:4000").is_none());
}

#[test]
fn chooses_where_contents_come_from() {
    let u = url::Url::parse("http://x.org").unwrap();
    match value_source(Some(u.clone()), true) {
        ValueSource::Download(d) => assert_eq!(d, u),
        _ => panic!("a download"),
    }
    assert!(matches!(value_source(None, true), ValueSource::ReadFile));
    assert!(matches!(value_source(None, false), ValueSource::Unresolved));
    assert_eq!(
        ValueError::NotPathOrUrl("v".to_string()).message(),
        "Couldn't parse value 'v' as a path or URL"
    );
}

#[test]
fn falls_back_to_inline_contents() {
    assert_eq!(contents_or_inline("v", Some("file".to_string())), "file");
    assert_eq!(contents_or_inline("v", None), "v");
    assert_eq!(contents_or_inline_config("v", Some("f".to_string()), false).unwrap(), "f");
    assert_eq!(contents_or_inline_config("a: 1", None, true).unwrap(), "a: 1");
    let e = contents_or_inline_config("zz", None, false).unwrap_err();
    assert_eq!(e, ValueError::NotPathUrlOrConfig("zz".to_string()));
    assert_eq!(e.message(), "Failed to parse value zz as a path, URL or inline configuration");
}

#[test]
fn resolves_a_value_to_its_url() {
    // A URL is its own serialization, normalised by the URL parser.
    let c = classify_url("HTTPS://Ockam.io");
    assert_eq!(resolve_url("HTTPS://Ockam.io", c, false).unwrap(), "https://ockam.io/");
    // A socket address becomes an http URL only when its host is accepted.
    let v = "127.0.0.1:4000/enroll";
    assert_eq!(
        resolve_url(v, classify_url(v), true).unwrap(),
        "http://127.0.0.1:4000/enroll"
    );
    assert!(resolve_url(v, classify_url(v), false).is_none());
    assert!(resolve_url("./ticket.json", classify_url("./ticket.json"), true).is_none());
}
