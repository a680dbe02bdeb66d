use jsonschema::pointer::{index_text, parse_index};
use jsonschema::text::{find_char, rfind_char, str_eq, strip_prefix};
use jsonschema::{CompileError, Json, JsonPointer, Url};

fn s(text: &str) -> Json {
    Json::String(text.to_string())
}

fn obj(members: Vec<(&str, Json)>) -> Json {
    Json::Object(members.into_iter().map(|(k, v)| (k.to_string(), v)).collect())
}

fn ptr(text: &str) -> JsonPointer {
    JsonPointer::parse(text).unwrap()
}

fn doc() -> Json {
    obj(vec![
        ("a/b", obj(vec![("~", s("tilde"))])),
        ("list", Json::Array(vec![s("zero"), s("one"), Json::Array(vec![Json::Null])])),
        ("", s("empty name")),
        ("dup", s("first")),
        ("dup", s("second")),
    ])
}

fn url() -> Url {
    Url::parse("http://example.com/doc.json").unwrap()
}

#[test]
fn pointer_is_empty_or_begins_with_slash() {
    assert!(JsonPointer::parse("").is_some());
    assert!(JsonPointer::parse("/").is_some());
    assert!(JsonPointer::parse("/a/b").is_some());
    assert!(JsonPointer::parse("a").is_none());
    assert!(JsonPointer::parse("#/a").is_none());
    assert!(JsonPointer::root().is_empty());
    assert!(!ptr("/").is_empty());
    assert_eq!(ptr("/a/b").as_str(), "/a/b");
    assert_eq!(ptr("/a/b").to_string(), "/a/b");
    assert!(ptr("/a").same(&ptr("/a")));
    assert!(!ptr("/a").same(&ptr("/b")));
}

#[test]
fn segments_are_escaped_and_read_back() {
    assert_eq!(JsonPointer::escape("a/b~c"), "a~1b~0c");
    assert_eq!(JsonPointer::escape("plain"), "plain");
    assert_eq!(JsonPointer::escape(""), "");
    assert_eq!(JsonPointer::escape("~1"), "~01");
    assert_eq!(JsonPointer::unescape("a~1b~0c"), Some("a/b~c".to_string()));
    assert_eq!(JsonPointer::unescape("~01"), Some("~1".to_string()));
    assert_eq!(JsonPointer::unescape("plain"), Some("plain".to_string()));
    assert_eq!(JsonPointer::unescape("a~2"), None);
    assert_eq!(JsonPointer::unescape("a~"), None);
    assert_eq!(JsonPointer::unescape("~"), None);
    assert_eq!(JsonPointer::unescape("é~0ü"), Some("é~ü".to_string()));
}

#[test]
fn pointers_are_joined_and_trimmed() {
    assert_eq!(ptr("/a").append("b/c").as_str(), "/a/b~1c");
    assert_eq!(JsonPointer::root().append("").as_str(), "/");
    assert_eq!(ptr("/a").append2("x~", "0").as_str(), "/a/x~0/0");
    assert_eq!(ptr("/a").concat(&ptr("/b/c")).as_str(), "/a/b/c");
    assert_eq!(ptr("/a").concat(&JsonPointer::root()).as_str(), "/a");
    assert_eq!(ptr("/a/b~1c").parent().unwrap().as_str(), "/a");
    assert_eq!(ptr("/a").parent().unwrap().as_str(), "");
    assert!(JsonPointer::root().parent().is_none());
    assert_eq!(ptr("/a").append("b/c").parent().unwrap().as_str(), "/a");
}

#[test]
fn lookup_follows_objects_and_arrays() {
    let d = doc();
    let u = url();
    assert_eq!(ptr("").lookup(&d, &u).unwrap(), &d);
    assert_eq!(ptr("/a~1b/~0").lookup(&d, &u).unwrap(), &s("tilde"));
    assert_eq!(ptr("/list/0").lookup(&d, &u).unwrap(), &s("zero"));
    assert_eq!(ptr("/list/1").lookup(&d, &u).unwrap(), &s("one"));
    assert_eq!(ptr("/list/2/0").lookup(&d, &u).unwrap(), &Json::Null);
    assert_eq!(ptr("/").lookup(&d, &u).unwrap(), &s("empty name"));
    assert_eq!(ptr("/dup").lookup(&d, &u).unwrap(), &s("first"));
}

#[test]
fn lookup_reports_what_is_missing_and_what_is_malformed() {
    let d = doc();
    let u = url();
    let missing = |p: &str| CompileError::JsonPointerNotFound(format!("http://example.com/doc.json#{}", p));
    assert_eq!(ptr("/nope").lookup(&d, &u).unwrap_err(), missing("/nope"));
    assert_eq!(ptr("/list/3").lookup(&d, &u).unwrap_err(), missing("/list/3"));
    assert_eq!(ptr("/list/01").lookup(&d, &u).unwrap_err(), missing("/list/01"));
    assert_eq!(ptr("/list/+1").lookup(&d, &u).unwrap_err(), missing("/list/+1"));
    assert_eq!(ptr("/list/x").lookup(&d, &u).unwrap_err(), missing("/list/x"));
    assert_eq!(ptr("/list/0/deeper").lookup(&d, &u).unwrap_err(), missing("/list/0/deeper"));
    assert_eq!(
        ptr("/list/99999999999999999999999").lookup(&d, &u).unwrap_err(),
        missing("/list/99999999999999999999999")
    );
    assert_eq!(
        ptr("/a~2b").lookup(&d, &u).unwrap_err(),
        CompileError::InvalidJsonPointer("http://example.com/doc.json#/a~2b".to_string())
    );
    assert_eq!(ptr("/nope/a~2b").lookup(&d, &u).unwrap_err(), missing("/nope/a~2b"));
}

#[test]
fn array_positions_are_read_and_written_in_base_ten() {
    assert_eq!(parse_index("0"), Some(0));
    assert_eq!(parse_index("7"), Some(7));
    assert_eq!(parse_index("10"), Some(10));
    assert_eq!(parse_index("907"), Some(907));
    assert_eq!(parse_index(""), None);
    assert_eq!(parse_index("00"), None);
    assert_eq!(parse_index("01"), None);
    assert_eq!(parse_index("1a"), None);
    assert_eq!(parse_index("-1"), None);
    assert_eq!(parse_index("１"), None);
    assert_eq!(parse_index("18446744073709551615"), Some(18446744073709551615));
    assert_eq!(parse_index("18446744073709551616"), None);
    assert_eq!(parse_index("99999999999999999999999"), None);
    assert_eq!(index_text(0), "0");
    assert_eq!(index_text(9), "9");
    assert_eq!(index_text(10), "10");
    assert_eq!(index_text(907), "907");
    assert_eq!(index_text(18446744073709551615), "18446744073709551615");
}

#[test]
fn text_helpers_find_and_cut() {
    assert_eq!(find_char("a#b#c", '#', 0), 1);
    assert_eq!(find_char("a#b#c", '#', 2), 3);
    assert_eq!(find_char("a#b#c", '#', 4), 5);
    assert_eq!(find_char("é#", '#', 0), 1);
    assert_eq!(rfind_char("/a/b", '/'), Some(2));
    assert_eq!(rfind_char("ab", '/'), None);
    assert_eq!(rfind_char("", '/'), None);
    assert_eq!(strip_prefix("http://x", "http:"), Some("//x"));
    assert_eq!(strip_prefix("http", "http:"), None);
    assert_eq!(strip_prefix("https://x", "http:"), None);
    assert_eq!(strip_prefix("abc", ""), Some("abc"));
    assert!(str_eq("abc", "abc"));
    assert!(!str_eq("abc", "abd"));
    assert!(!str_eq("abc", "ab"));
}

#[test]
fn values_are_compared_member_by_member() {
    assert!(doc().same(&doc()));
    assert!(!doc().same(&Json::Null));
    assert!(Json::Number("1".to_string()).same(&Json::Number("1".to_string())));
    assert!(!Json::Number("1".to_string()).same(&Json::Number("1.0".to_string())));
    assert!(!Json::Array(vec![Json::Null]).same(&Json::Array(vec![])));
    assert!(!obj(vec![("a", Json::Null)]).same(&obj(vec![("b", Json::Null)])));
    assert!(!obj(vec![("a", Json::Null)]).same(&obj(vec![("a", Json::Bool(false))])));
    assert!(!Json::Bool(true).same(&Json::Bool(false)));
    assert_eq!(doc().get("dup"), Some(&s("first")));
    assert_eq!(doc().get("none"), None);
    assert_eq!(Json::Null.get("a"), None);
    assert_eq!(Json::Array(vec![Json::Null]).item(0), Some(&Json::Null));
    assert_eq!(Json::Array(vec![Json::Null]).item(1), None);
    assert_eq!(s("x").as_str(), Some("x"));
    assert_eq!(Json::Null.as_str(), None);
}
