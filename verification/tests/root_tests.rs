use jsonschema::{CompileError, Draft, Fragment, Json, JsonPointer, PrimitiveType, Root, Url, UrlFrag};

fn s(text: &str) -> Json {
    Json::String(text.to_string())
}

fn obj(members: Vec<(&str, Json)>) -> Json {
    Json::Object(members.into_iter().map(|(k, v)| (k.to_string(), v)).collect())
}

fn ptr(text: &str) -> JsonPointer {
    JsonPointer::parse(text).unwrap()
}

fn sample() -> Json {
    obj(vec![
        ("$id", s("http://example.com/root.json")),
        (
            "$defs",
            obj(vec![
                ("a", obj(vec![("$id", s("a.json")), ("$anchor", s("inner"))])),
                ("b", obj(vec![("$anchor", s("foo")), ("type", s("string"))])),
            ]),
        ),
    ])
}

fn sample_root() -> Root {
    let url = Url::parse("http://example.com/root.json").unwrap();
    Root::new(Draft::V2020_12, url, None, &sample()).unwrap()
}

#[test]
fn primitive_type_names() {
    assert_eq!(PrimitiveType::Array.to_string(), "array");
    assert_eq!(PrimitiveType::Boolean.to_string(), "boolean");
    assert_eq!(PrimitiveType::Integer.to_string(), "integer");
    assert_eq!(PrimitiveType::Number.to_string(), "number");
    assert_eq!(PrimitiveType::Null.to_string(), "null");
    assert_eq!(PrimitiveType::Object.to_string(), "object");
    assert_eq!(PrimitiveType::String.to_string(), "string");
}

#[test]
fn new_root_finds_nested_resources() {
    let root = sample_root();
    assert_eq!(root.resources.len(), 2);
    assert_eq!(root.resources[0].ptr.as_str(), "");
    assert_eq!(root.resources[0].id.as_str(), "http://example.com/root.json");
    assert_eq!(root.resources[1].ptr.as_str(), "/$defs/a");
    assert_eq!(root.resources[1].id.as_str(), "http://example.com/a.json");
    assert_eq!(root.resources[0].anchors.get("foo").unwrap().as_str(), "/$defs/b");
    assert_eq!(root.resources[1].anchors.get("inner").unwrap().as_str(), "/$defs/a");
    assert!(root.resources[0].anchors.get("inner").is_none());
}

#[test]
fn resource_is_longest_registered_prefix() {
    let root = sample_root();
    assert_eq!(root.resource(&ptr("/$defs/a/properties/x")).ptr.as_str(), "/$defs/a");
    assert_eq!(root.resource(&ptr("/$defs/a")).ptr.as_str(), "/$defs/a");
    assert_eq!(root.resource(&ptr("/$defs/ab")).ptr.as_str(), "");
    assert_eq!(root.resource(&ptr("/$defs/b")).ptr.as_str(), "");
    assert_eq!(root.resource(&ptr("")).ptr.as_str(), "");
    assert_eq!(root.base_url(&ptr("/$defs/a/x")).as_str(), "http://example.com/a.json");
    assert_eq!(root.base_url(&ptr("/$defs/b")).as_str(), "http://example.com/root.json");
}

#[test]
fn missing_anchor_is_reported_with_url_and_reference() {
    let root = sample_root();
    let frag = Fragment::from_decoded("nope".to_string());
    let err = root.resolve_fragment(&frag).unwrap_err();
    assert_eq!(
        err,
        CompileError::AnchorNotFound {
            url: "http://example.com/root.json".to_string(),
            reference: "http://example.com/root.json#nope".to_string(),
        }
    );
}

#[test]
fn resolve_tells_internal_from_external() {
    let root = sample_root();
    let inner = UrlFrag::absolute("http://example.com/a.json#inner").unwrap();
    let up = root.resolve(&inner).unwrap().unwrap();
    assert_eq!(up.url.as_str(), "http://example.com/root.json");
    assert_eq!(up.ptr.as_str(), "/$defs/a");
    let own = UrlFrag::absolute("http://example.com/root.json#/$defs/b").unwrap();
    let up = root.resolve(&own).unwrap().unwrap();
    assert_eq!(up.ptr.as_str(), "/$defs/b");
    let other = UrlFrag::absolute("http://example.com/other.json#foo").unwrap();
    assert!(root.resolve(&other).unwrap().is_none());
}

fn bare_root() -> Root {
    Root {
        draft: Draft::V2020_12,
        resources: Vec::new(),
        url: Url::parse("http://example.com/bare.json").unwrap(),
        meta_vocabs: None,
    }
}

#[test]
fn document_without_root_resource_is_reported_as_a_bug() {
    let bug = CompileError::Bug("no root resource found for http://example.com/bare.json".to_string());
    let root = bare_root();
    let frag = Fragment::from_decoded("/a".to_string());
    assert_eq!(root.resolve_fragment(&frag).unwrap_err(), bug);
    let own = UrlFrag::absolute("http://example.com/bare.json#/a").unwrap();
    assert_eq!(root.resolve(&own).unwrap_err(), bug);
    let other = UrlFrag::absolute("http://example.com/other.json#/a").unwrap();
    assert!(root.resolve(&other).unwrap().is_none());
    let mut root = bare_root();
    let doc = obj(vec![("a", obj(vec![("$id", s("a.json"))]))]);
    assert_eq!(root.add_subschema(&doc, &ptr("/a")).unwrap_err(), bug);
    assert!(root.resources.is_empty());
    assert_eq!(
        root.add_subschema(&doc, &ptr("/b")).unwrap_err(),
        CompileError::JsonPointerNotFound("http://example.com/bare.json#/b".to_string())
    );
    assert_eq!(bug.to_string(), "bug: no root resource found for http://example.com/bare.json");
    assert_eq!(root.root_index(), None);
    assert_eq!(sample_root().root_index(), Some(0));
}
