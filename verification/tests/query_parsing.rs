use site_server::query::{parse_query, Path, Query, QueryMap};

fn field<'a>(m: &'a QueryMap, key: &str) -> Option<&'a str> {
    m.get(key).map(|s| s.as_str())
}

#[test]
fn query_reads_fields_after_marker() {
    let url: &str = "/particles/?type=view&room_code=abc";
    let m = url.query().unwrap();
    assert_eq!(m.len(), 2);
    assert_eq!(field(&m, "type"), Some("view"));
    assert_eq!(field(&m, "room_code"), Some("abc"));
    assert_eq!(field(&m, "missing"), None);
}

#[test]
fn query_uses_text_after_last_marker() {
    let url: &str = "/a/?x=1/?y=2";
    let m = url.query().unwrap();
    assert_eq!(field(&m, "x"), None);
    assert_eq!(field(&m, "y"), Some("2"));
}

#[test]
fn query_without_marker_reads_whole_url() {
    let url: &str = "/webring/next";
    let m = url.query().unwrap();
    assert_eq!(m.len(), 0);
    let url2: &str = "k=v";
    assert_eq!(field(&url2.query().unwrap(), "k"), Some("v"));
}

#[test]
fn query_values_are_percent_decoded() {
    let m = parse_query(Some("a=%41%42&b=x%2By+z")).unwrap();
    assert_eq!(field(&m, "a"), Some("AB"));
    assert_eq!(field(&m, "b"), Some("x+y+z"));
    let m = parse_query(Some("a=%e2%82%ac")).unwrap();
    assert_eq!(field(&m, "a"), Some("\u{20ac}"));
}

#[test]
fn query_keeps_broken_escapes() {
    let m = parse_query(Some("a=50%&b=%zz&c=%4")).unwrap();
    assert_eq!(field(&m, "a"), Some("50%"));
    assert_eq!(field(&m, "b"), Some("%zz"));
    assert_eq!(field(&m, "c"), Some("%4"));
}

#[test]
fn query_fails_on_invalid_utf8_value() {
    assert!(parse_query(Some("a=1&b=%FF")).is_none());
    assert!(parse_query(None).is_none());
}

#[test]
fn query_last_field_of_a_name_wins() {
    let m = parse_query(Some("a=1&a=2&b=3")).unwrap();
    assert_eq!(m.len(), 2);
    assert_eq!(field(&m, "a"), Some("2"));
}

#[test]
fn query_field_shapes() {
    let m = parse_query(Some("a=b=c&=x&y=&&z=w")).unwrap();
    assert_eq!(field(&m, "a=b"), Some("c"));
    assert_eq!(field(&m, "z"), Some("w"));
    assert_eq!(field(&m, "y"), None);
    assert_eq!(m.len(), 2);
}

#[test]
fn path_segments_before_marker() {
    let url: &str = "/webring/next/?source=me";
    let p = url.path().unwrap();
    assert_eq!(p, vec!["".to_string(), "webring".to_string(), "next".to_string()]);
    let url: &str = "/";
    assert_eq!(url.path().unwrap(), vec!["".to_string(), "".to_string()]);
    let url: &str = "";
    assert_eq!(url.path().unwrap(), vec!["".to_string()]);
}

#[test]
fn query_map_insert_replaces() {
    let mut m = QueryMap::new();
    m.insert("k".to_string(), "1".to_string());
    m.insert("j".to_string(), "2".to_string());
    m.insert("k".to_string(), "3".to_string());
    assert_eq!(m.len(), 2);
    assert_eq!(field(&m, "k"), Some("3"));
    assert_eq!(field(&m, "j"), Some("2"));
    let pairs: Vec<(String, String)> = m.entries().clone();
    assert_eq!(pairs, vec![("k".to_string(), "3".to_string()), ("j".to_string(), "2".to_string())]);
}

#[test]
fn query_without_marker_matches_parse_query() {
    let url: &str = "a=1&b=%41&c";
    let via_trait = url.query().unwrap();
    let direct = parse_query(Some(url)).unwrap();
    assert_eq!(via_trait.entries(), direct.entries());
    assert_eq!(field(&direct, "b"), Some("A"));
}

#[test]
fn parsed_names_and_values_are_nonempty() {
    let m = parse_query(Some("&=&a=&=b&&c=d&")).unwrap();
    for (k, v) in m.entries() {
        assert!(!k.is_empty() && !k.contains('&'));
        assert!(!v.is_empty());
    }
    assert_eq!(field(&m, "c"), Some("d"));
}

#[test]
fn query_field_edge_cases() {
    let m = parse_query(Some("a==b&=a=b&==&x=y=&p&q=r")).unwrap();
    assert_eq!(field(&m, "a="), Some("b"));
    assert_eq!(field(&m, "=a"), Some("b"));
    assert_eq!(field(&m, "x"), Some("y="));
    assert_eq!(field(&m, "q"), Some("r"));
    assert_eq!(m.len(), 4);
    let m = parse_query(Some("k=line\nbreak&\u{e9}t\u{e9}=\u{fc}")).unwrap();
    assert_eq!(field(&m, "k"), Some("line\nbreak"));
    assert_eq!(field(&m, "\u{e9}t\u{e9}"), Some("\u{fc}"));
}
