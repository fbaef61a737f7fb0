use obstore::error::Error;
use obstore::path::Path;

#[test]
fn parse_simple() {
    let p = Path::parse("foo/bar/baz.txt").unwrap();
    assert_eq!(p.depth(), 3);
    assert_eq!(p.as_str(), "foo/bar/baz.txt");
    assert_eq!(p.segments()[0], "foo");
    assert_eq!(p.segments()[2], "baz.txt");
}

#[test]
fn parse_strips_leading_and_trailing_delimiter() {
    let p = Path::parse("/foo/bar/").unwrap();
    assert_eq!(p.as_str(), "foo/bar");
}

#[test]
fn parse_root() {
    let p = Path::parse("").unwrap();
    assert_eq!(p.depth(), 0);
    assert_eq!(p.as_str(), "");
    let q = Path::parse("/").unwrap();
    assert_eq!(q, p);
}

#[test]
fn parse_rejects_empty_segment() {
    assert!(Path::parse("foo//bar").is_err());
    assert!(Path::parse("//").is_err());
}

#[test]
fn parse_rejects_relative_segments() {
    assert!(Path::parse("..").is_err());
    assert!(Path::parse("foo/./bar").is_err());
    assert!(Path::parse("foo/..").is_err());
}

#[test]
fn parse_rejects_malformed_escape() {
    assert!(Path::parse("foo/a%zz").is_err());
    assert!(Path::parse("foo/a%2").is_err());
    assert!(Path::parse("a%2Fb").is_err());
}

#[test]
fn parse_rejects_control_characters() {
    assert!(Path::parse("fo\u{0}o").is_err());
}

#[test]
fn parse_error_is_invalid_path() {
    match Path::parse("foo//bar") {
        Err(Error::InvalidPath { raw }) => assert_eq!(raw, "foo//bar"),
        _ => panic!("expected an invalid path error"),
    }
}

#[test]
fn parse_decodes_escapes() {
    let p = Path::parse("a%41/b").unwrap();
    let q = Path::parse("aA/b").unwrap();
    assert_eq!(p, q);
    assert_eq!(p.as_str(), "aA/b");
}

#[test]
fn parse_roundtrip() {
    // the canonical form re-parses to an equal path
    for s in ["foo/bar", "/x/y/", "a%41b", "a%25b", "%2E", "%2E%2E/ok"] {
        let p = Path::parse(s).unwrap();
        let rendered = p.as_str();
        let q = Path::parse(rendered.as_str()).unwrap();
        assert_eq!(p, q);
        assert_eq!(q.as_str(), rendered);
    }
}

#[test]
fn render_escapes_percent() {
    let p = Path::parse("a%25b").unwrap();
    assert_eq!(p.segments()[0], "a%b");
    assert_eq!(p.as_str(), "a%25b");
}

#[test]
fn render_escapes_relative_segment_data() {
    let p = Path::parse("%2E").unwrap();
    assert_eq!(p.segments()[0], ".");
    assert_eq!(p.as_str(), "%2E");
    let q = Path::parse("%2E%2E").unwrap();
    assert_eq!(q.segments()[0], "..");
    assert_eq!(q.as_str(), "%2E%2E");
}

#[test]
fn from_raw_takes_segments_verbatim() {
    let p = Path::from_raw("foo//bar/");
    assert_eq!(p.depth(), 2);
    assert_eq!(p.as_str(), "foo/bar");
    // no decoding: the escape stays literal and is re-escaped on render
    let q = Path::from_raw("a%2Fb");
    assert_eq!(q.segments()[0], "a%2Fb");
    assert_eq!(q.as_str(), "a%252Fb");
}

#[test]
fn from_raw_of_slash_is_root() {
    assert_eq!(Path::from_raw("/"), Path::root());
    assert_eq!(Path::from_raw(""), Path::root());
}

#[test]
fn join_appends_segments() {
    let a = Path::parse("a/b").unwrap();
    let b = Path::parse("c/d").unwrap();
    let j = a.join(&b);
    assert_eq!(j.as_str(), "a/b/c/d");
    assert_eq!(Path::root().join(&a), a);
}

#[test]
fn prefix_queries() {
    let p = Path::parse("a/b/c").unwrap();
    let pre = Path::parse("a/b").unwrap();
    assert!(p.has_prefix(&pre));
    assert!(!pre.has_prefix(&p));
    assert!(p.has_prefix(&Path::root()));
    assert_eq!(p.suffix_from(2).as_str(), "c");
    assert_eq!(p.prefix_to(1).as_str(), "a");
}

#[test]
fn parse_accepts_wide_characters() {
    let p = Path::parse("f\u{f6}\u{f6}/\u{4e16}\u{754c}.txt").unwrap();
    assert_eq!(p.depth(), 2);
    let rendered = p.as_str();
    let q = Path::parse(rendered.as_str()).unwrap();
    assert_eq!(p, q);
}

#[test]
fn equality_is_over_decoded_segments() {
    let a = Path::parse("a%62/c").unwrap();
    let b = Path::parse("ab/c").unwrap();
    assert_eq!(a, b);
    let c = Path::parse("ab/d").unwrap();
    assert_ne!(a, c);
}
