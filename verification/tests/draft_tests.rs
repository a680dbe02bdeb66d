use jsonschema::{CompileError, Declared, Draft, Json, JsonPointer, Position, Resource, Root, Url};

fn s(text: &str) -> Json {
    Json::String(text.to_string())
}

fn arr(items: Vec<Json>) -> Json {
    Json::Array(items)
}

fn obj(members: Vec<(&str, Json)>) -> Json {
    Json::Object(members.into_iter().map(|(k, v)| (k.to_string(), v)).collect())
}

fn ptr(text: &str) -> JsonPointer {
    JsonPointer::parse(text).unwrap()
}

fn url(text: &str) -> Url {
    Url::parse(text).unwrap()
}

fn doc_url() -> Url {
    url("http://example.com/doc.json")
}

fn fresh(p: &str) -> Resource {
    Resource::new(ptr(p), doc_url())
}

fn ptrs(resources: &Vec<Resource>) -> Vec<String> {
    resources.iter().map(|r| r.ptr.to_string()).collect()
}

fn ids(resources: &Vec<Resource>) -> Vec<String> {
    resources.iter().map(|r| r.id.to_string()).collect()
}

#[test]
fn drafts_differ_in_version_keyword_and_table() {
    assert_eq!(Draft::V4.version(), 4);
    assert_eq!(Draft::V6.version(), 6);
    assert_eq!(Draft::V7.version(), 7);
    assert_eq!(Draft::V2019_09.version(), 2019);
    assert_eq!(Draft::V2020_12.version(), 2020);
    assert_eq!(Draft::V4.id_keyword(), "id");
    assert_eq!(Draft::V6.id_keyword(), "$id");
    assert_eq!(Draft::V2020_12.id_keyword(), "$id");
    assert_eq!(Draft::V4.subschemas().len(), 11);
    assert_eq!(Draft::V6.subschemas().len(), 13);
    assert_eq!(Draft::V7.subschemas().len(), 16);
    assert_eq!(Draft::V2019_09.subschemas().len(), 21);
    assert_eq!(Draft::V2020_12.subschemas().len(), 22);
    assert_eq!(Draft::V4.subschemas()[0], ("definitions", Position::Members));
    assert_eq!(Draft::V4.subschemas()[8], ("items", Position::WholeOrItems));
    assert_eq!(Draft::V2020_12.subschemas()[21], ("prefixItems", Position::Items));
    assert!(Position::Whole.whole() && !Position::Whole.items() && !Position::Whole.members());
    assert!(Position::WholeOrItems.whole() && Position::WholeOrItems.items());
    assert!(Position::Items.items() && !Position::Items.whole());
    assert!(Position::Members.members() && !Position::Members.whole());
    assert!(!Draft::V7.has_vocabs());
    assert!(Draft::V2019_09.has_vocabs());
    assert_eq!(Draft::V7.default_vocabs(), Vec::<&str>::new());
    assert_eq!(Draft::V2019_09.default_vocabs(), vec!["core", "applicator", "validation"]);
    assert_eq!(
        Draft::V2020_12.default_vocabs(),
        vec!["core", "applicator", "unevaluated", "validation"]
    );
}

fn id_of(draft: Draft, sch: &Json) -> Option<Option<String>> {
    match draft.get_id(sch) {
        Declared::Nothing => Some(None),
        Declared::Text(id) => Some(Some(id.to_string())),
        Declared::Malformed => None,
    }
}

#[test]
fn declared_id_is_read_without_its_fragment() {
    let some = |text: &str| Some(Some(text.to_string()));
    let sch = obj(vec![("$id", s("a.json#frag")), ("id", s("old.json"))]);
    assert_eq!(id_of(Draft::V7, &sch), some("a.json"));
    assert_eq!(id_of(Draft::V4, &sch), some("old.json"));
    assert_eq!(id_of(Draft::V7, &obj(vec![("$id", s("#frag"))])), Some(None));
    assert_eq!(id_of(Draft::V7, &obj(vec![])), Some(None));
    assert_eq!(id_of(Draft::V7, &Json::Bool(true)), Some(None));
    let with_ref = obj(vec![("$id", s("a.json")), ("$ref", s("b.json"))]);
    assert_eq!(id_of(Draft::V7, &with_ref), Some(None));
    assert_eq!(id_of(Draft::V2019_09, &with_ref), some("a.json"));
    assert_eq!(id_of(Draft::V7, &obj(vec![("$id", Json::Null)])), None);
    assert_eq!(id_of(Draft::V4, &obj(vec![("$id", Json::Null)])), Some(None));
    assert_eq!(id_of(Draft::V7, &obj(vec![("$id", Json::Null), ("$ref", s("x"))])), Some(None));
}

#[test]
fn identifier_or_anchor_that_is_no_string_is_refused() {
    let doc = obj(vec![("not", obj(vec![("$id", obj(vec![]))]))]);
    assert_eq!(
        Root::new(Draft::V2020_12, doc_url(), None, &doc).err(),
        Some(CompileError::ParseIdError { loc: "http://example.com/doc.json#/not".to_string() })
    );
    let refused = Some(CompileError::ParseAnchorError { loc: "http://example.com/doc.json#/a".to_string() });
    let mut res = fresh("");
    let sch = obj(vec![("$anchor", Json::Bool(true))]);
    assert_eq!(Draft::V2019_09.collect_anchors(&sch, &ptr("/a"), &mut res, &doc_url()).err(), refused);
    Draft::V7.collect_anchors(&sch, &ptr("/a"), &mut res, &doc_url()).unwrap();
    let sch = obj(vec![("$anchor", s("fine")), ("$dynamicAnchor", Json::Null)]);
    assert_eq!(Draft::V2020_12.collect_anchors(&sch, &ptr("/a"), &mut res, &doc_url()).err(), refused);
    assert_eq!(res.anchors.get("fine").unwrap().as_str(), "/a");
    assert!(res.dynamic_anchors.is_empty());
    let sch = obj(vec![("id", Json::Null)]);
    assert_eq!(Draft::V4.collect_anchors(&sch, &ptr("/a"), &mut res, &doc_url()).err(), refused);
    Draft::V6.collect_anchors(&sch, &ptr("/a"), &mut res, &doc_url()).unwrap();
}

#[test]
fn anchors_before_2019_are_fragments_of_the_identifier() {
    let mut res = fresh("");
    let sch = obj(vec![("$id", s("#foo")), ("$anchor", s("ignored"))]);
    Draft::V7.collect_anchors(&sch, &ptr("/a"), &mut res, &doc_url()).unwrap();
    assert_eq!(res.anchors.get("foo").unwrap().as_str(), "/a");
    assert!(res.anchors.get("ignored").is_none());
    assert!(res.dynamic_anchors.is_empty());
    let with_ref = obj(vec![("$id", s("#bar")), ("$ref", s("x"))]);
    Draft::V7.collect_anchors(&with_ref, &ptr("/b"), &mut res, &doc_url()).unwrap();
    assert!(res.anchors.get("bar").is_none());
    let pointer = obj(vec![("$id", s("x.json#/a/b"))]);
    Draft::V7.collect_anchors(&pointer, &ptr("/c"), &mut res, &doc_url()).unwrap();
    assert_eq!(res.anchors.len(), 1);
    let bad = obj(vec![("$id", s("#%FF"))]);
    assert_eq!(
        Draft::V7.collect_anchors(&bad, &ptr("/d"), &mut res, &doc_url()).unwrap_err(),
        CompileError::ParseAnchorError { loc: "http://example.com/doc.json#/d".to_string() }
    );
    Draft::V7.collect_anchors(&Json::Bool(true), &ptr("/e"), &mut res, &doc_url()).unwrap();
    assert_eq!(res.anchors.len(), 1);
}

#[test]
fn anchors_from_2019_on_are_keywords() {
    let mut res = fresh("");
    let sch = obj(vec![("$id", s("#old")), ("$anchor", s("foo"))]);
    Draft::V2019_09.collect_anchors(&sch, &ptr("/a"), &mut res, &doc_url()).unwrap();
    assert_eq!(res.anchors.get("foo").unwrap().as_str(), "/a");
    assert!(res.anchors.get("old").is_none());
    let dynamic = obj(vec![("$anchor", s("plain")), ("$dynamicAnchor", s("dyn"))]);
    Draft::V2020_12.collect_anchors(&dynamic, &ptr("/b"), &mut res, &doc_url()).unwrap();
    assert_eq!(res.anchors.get("plain").unwrap().as_str(), "/b");
    assert_eq!(res.anchors.get("dyn").unwrap().as_str(), "/b");
    assert_eq!(res.dynamic_anchors, vec!["dyn".to_string()]);
    Draft::V2020_12.collect_anchors(&dynamic, &ptr("/b"), &mut res, &doc_url()).unwrap();
    assert_eq!(res.anchors.len(), 3);
    assert_eq!(res.dynamic_anchors, vec!["dyn".to_string()]);
}

#[test]
fn anchor_declared_twice_is_refused() {
    let mut res = fresh("");
    let sch = obj(vec![("$anchor", s("foo"))]);
    Draft::V2020_12.collect_anchors(&sch, &ptr("/a"), &mut res, &doc_url()).unwrap();
    assert_eq!(
        Draft::V2020_12.collect_anchors(&sch, &ptr("/b"), &mut res, &doc_url()).unwrap_err(),
        CompileError::DuplicateAnchor {
            url: "http://example.com/doc.json".to_string(),
            anchor: "foo".to_string(),
            ptr1: "/a".to_string(),
            ptr2: "/b".to_string(),
        }
    );
    assert_eq!(res.anchors.get("foo").unwrap().as_str(), "/a");
}

#[test]
fn dynamic_anchor_under_an_earlier_draft_is_refused() {
    let sch = obj(vec![("$dynamicAnchor", s("dyn"))]);
    for draft in [Draft::V4, Draft::V6, Draft::V7, Draft::V2019_09] {
        let mut res = fresh("");
        assert_eq!(
            draft.collect_anchors(&sch, &ptr("/a"), &mut res, &doc_url()).unwrap_err(),
            CompileError::DynamicAnchorNotSupported {
                loc: "http://example.com/doc.json#/a".to_string()
            }
        );
        assert_eq!(res.anchors.len(), 0);
    }
    let mut res = fresh("");
    let not_a_name = obj(vec![("$dynamicAnchor", Json::Bool(true))]);
    assert!(Draft::V7.collect_anchors(&not_a_name, &ptr("/a"), &mut res, &doc_url()).is_err());
    let beside_ref = obj(vec![("$dynamicAnchor", s("dyn")), ("$ref", s("x"))]);
    Draft::V7.collect_anchors(&beside_ref, &ptr("/a"), &mut res, &doc_url()).unwrap();
}

fn nested_doc() -> Json {
    obj(vec![
        ("$id", s("http://example.com/root.json")),
        (
            "properties",
            obj(vec![
                (
                    "a",
                    obj(vec![
                        ("$id", s("dir/a.json")),
                        ("items", arr(vec![obj(vec![("$id", s("item.json")), ("$anchor", s("it"))])])),
                    ]),
                ),
                ("b", obj(vec![("$anchor", s("bee"))])),
            ]),
        ),
        ("not", Json::Bool(false)),
        ("x-unknown", obj(vec![("$id", s("unseen.json"))])),
    ])
}

#[test]
fn resources_are_found_with_identifiers_resolved_against_the_nearest() {
    let mut resources = Vec::new();
    Draft::V2019_09
        .collect_resources(&nested_doc(), &doc_url(), JsonPointer::root(), &doc_url(), &mut resources)
        .unwrap();
    assert_eq!(ptrs(&resources), vec!["", "/properties/a", "/properties/a/items/0"]);
    assert_eq!(
        ids(&resources),
        vec![
            "http://example.com/root.json",
            "http://example.com/dir/a.json",
            "http://example.com/dir/item.json"
        ]
    );
    assert_eq!(resources[0].anchors.get("bee").unwrap().as_str(), "/properties/b");
    assert_eq!(resources[2].anchors.get("it").unwrap().as_str(), "/properties/a/items/0");
    assert!(resources[1].anchors.get("it").is_none());
}

#[test]
fn walk_leaves_registered_locations_alone() {
    let mut resources = vec![Resource::new(ptr("/properties/a"), url("http://example.com/kept.json"))];
    Draft::V2019_09
        .collect_resources(&nested_doc(), &doc_url(), JsonPointer::root(), &doc_url(), &mut resources)
        .unwrap();
    assert_eq!(ptrs(&resources), vec!["/properties/a", ""]);
    assert_eq!(ids(&resources), vec!["http://example.com/kept.json", "http://example.com/root.json"]);
}

#[test]
fn boolean_and_other_documents_have_only_the_root() {
    let mut resources = Vec::new();
    Draft::V7
        .collect_resources(&Json::Bool(true), &doc_url(), JsonPointer::root(), &doc_url(), &mut resources)
        .unwrap();
    assert_eq!(ptrs(&resources), vec![""]);
    let mut resources = Vec::new();
    Draft::V7
        .collect_resources(&Json::Bool(true), &doc_url(), ptr("/a"), &doc_url(), &mut resources)
        .unwrap();
    assert!(resources.is_empty());
    let mut resources = Vec::new();
    Draft::V7
        .collect_resources(&Json::Null, &doc_url(), JsonPointer::root(), &doc_url(), &mut resources)
        .unwrap();
    assert!(resources.is_empty());
    let root = Root::new(Draft::V7, doc_url(), None, &Json::Null).unwrap();
    assert_eq!(ptrs(&root.resources), vec![""]);
    assert_eq!(ids(&root.resources), vec!["http://example.com/doc.json"]);
}

#[test]
fn identifier_that_is_taken_or_malformed_is_refused() {
    let twice = obj(vec![(
        "allOf",
        arr(vec![obj(vec![("$id", s("same.json"))]), obj(vec![("$id", s("same.json"))])]),
    )]);
    let mut resources = Vec::new();
    assert_eq!(
        Draft::V7
            .collect_resources(&twice, &doc_url(), JsonPointer::root(), &doc_url(), &mut resources)
            .unwrap_err(),
        CompileError::DuplicateId {
            url: "http://example.com/doc.json".to_string(),
            id: "http://example.com/same.json".to_string(),
            ptr1: "/allOf/0".to_string(),
            ptr2: "/allOf/1".to_string(),
        }
    );
    assert_eq!(ptrs(&resources), vec!["", "/allOf/0"]);
    let bad = obj(vec![("not", obj(vec![("$id", s("http://["))]))]);
    let mut resources = Vec::new();
    assert_eq!(
        Draft::V7
            .collect_resources(&bad, &doc_url(), JsonPointer::root(), &doc_url(), &mut resources)
            .unwrap_err(),
        CompileError::ParseIdError { loc: "http://example.com/doc.json#/not".to_string() }
    );
    assert_eq!(ptrs(&resources), vec![""]);
    assert!(Root::new(Draft::V7, doc_url(), None, &bad).is_err());
}

#[test]
fn draft_decides_which_keyword_declares_and_which_hold_schemas() {
    let doc = obj(vec![
        ("id", s("http://example.com/four.json")),
        ("$id", s("http://example.com/later.json")),
        ("if", obj(vec![("id", s("if.json")), ("$id", s("if.json"))])),
        ("prefixItems", arr(vec![obj(vec![("$id", s("p.json"))])])),
        ("definitions", obj(vec![("d", obj(vec![("id", s("d4.json")), ("$id", s("d.json"))]))])),
    ]);
    let root = Root::new(Draft::V4, doc_url(), None, &doc).unwrap();
    assert_eq!(ptrs(&root.resources), vec!["", "/definitions/d"]);
    assert_eq!(ids(&root.resources), vec!["http://example.com/four.json", "http://example.com/d4.json"]);
    let root = Root::new(Draft::V7, doc_url(), None, &doc).unwrap();
    assert_eq!(ptrs(&root.resources), vec!["", "/definitions/d", "/if"]);
    assert_eq!(root.resources[0].id.as_str(), "http://example.com/later.json");
    let root = Root::new(Draft::V2020_12, doc_url(), None, &doc).unwrap();
    assert_eq!(ptrs(&root.resources), vec!["", "/definitions/d", "/if", "/prefixItems/0"]);
}

#[test]
fn document_without_identifiers_has_one_resource_that_owns_every_location() {
    let doc = obj(vec![
        ("properties", obj(vec![("a", obj(vec![("items", obj(vec![("$anchor", s("x"))]))]))])),
        ("extra", obj(vec![("deep", obj(vec![("type", s("string"))]))])),
    ]);
    let mut root = Root::new(Draft::V2020_12, doc_url(), None, &doc).unwrap();
    assert_eq!(ptrs(&root.resources), vec![""]);
    root.add_subschema(&doc, &ptr("/extra/deep")).unwrap();
    root.add_subschema(&doc, &ptr("/properties/a")).unwrap();
    assert_eq!(ptrs(&root.resources), vec![""]);
    for p in ["", "/properties", "/properties/a/items", "/extra/deep", "/nowhere/at/all"] {
        assert_eq!(root.resource(&ptr(p)).ptr.as_str(), "");
        assert_eq!(root.base_url(&ptr(p)).as_str(), "http://example.com/doc.json");
    }
}

#[test]
fn subschema_outside_the_keywords_is_registered_on_request() {
    let doc = obj(vec![
        ("$id", s("http://example.com/root.json")),
        (
            "extra",
            obj(vec![(
                "deep",
                obj(vec![
                    ("$anchor", s("deep")),
                    ("not", obj(vec![("$id", s("inner.json")), ("$anchor", s("in"))])),
                ]),
            )]),
        ),
    ]);
    let mut root = Root::new(Draft::V2020_12, doc_url(), None, &doc).unwrap();
    assert_eq!(ptrs(&root.resources), vec![""]);
    assert!(root.resources[0].anchors.get("deep").is_none());
    root.add_subschema(&doc, &ptr("/extra/deep")).unwrap();
    assert_eq!(ptrs(&root.resources), vec!["", "/extra/deep/not"]);
    assert_eq!(root.resources[1].id.as_str(), "http://example.com/inner.json");
    assert_eq!(root.resources[0].anchors.get("deep").unwrap().as_str(), "/extra/deep");
    assert_eq!(root.resources[1].anchors.get("in").unwrap().as_str(), "/extra/deep/not");
    assert_eq!(root.resource(&ptr("/extra/deep/not/x")).ptr.as_str(), "/extra/deep/not");
    assert_eq!(root.resource(&ptr("/extra/deep/nothing")).ptr.as_str(), "");
    root.add_subschema(&doc, &ptr("/extra/deep")).unwrap();
    root.add_subschema(&doc, &ptr("/extra/deep/not")).unwrap();
    assert_eq!(ptrs(&root.resources), vec!["", "/extra/deep/not"]);
    assert_eq!(root.resources[0].anchors.len(), 1);
    assert_eq!(root.resources[1].anchors.len(), 1);
    assert_eq!(
        root.add_subschema(&doc, &ptr("/extra/none")).unwrap_err(),
        CompileError::JsonPointerNotFound("http://example.com/doc.json#/extra/none".to_string())
    );
    assert_eq!(
        root.add_subschema(&doc, &ptr("/extra/~x")).unwrap_err(),
        CompileError::InvalidJsonPointer("http://example.com/doc.json#/extra/~x".to_string())
    );
    assert_eq!(ptrs(&root.resources), vec!["", "/extra/deep/not"]);
}

#[test]
fn vocabularies_are_gated_from_2019_on() {
    let doc = obj(vec![]);
    for draft in [Draft::V4, Draft::V6, Draft::V7] {
        let root =
            Root::new(draft, doc_url(), Some(vec!["core".to_string()]), &doc).unwrap();
        assert!(root.has_vocab("validation"));
        assert!(root.has_vocab("anything at all"));
        assert!(root.has_vocab(""));
    }
    let listed = Some(vec!["core".to_string(), "applicator".to_string()]);
    let root = Root::new(Draft::V2020_12, doc_url(), listed, &doc).unwrap();
    assert!(root.has_vocab("core"));
    assert!(root.has_vocab("applicator"));
    assert!(!root.has_vocab("validation"));
    assert!(!root.has_vocab("unevaluated"));
    let root = Root::new(Draft::V2020_12, doc_url(), Some(vec![]), &doc).unwrap();
    assert!(root.has_vocab("core"));
    assert!(!root.has_vocab("applicator"));
    let root = Root::new(Draft::V2020_12, doc_url(), None, &doc).unwrap();
    assert!(root.has_vocab("validation"));
    assert!(root.has_vocab("unevaluated"));
    assert!(!root.has_vocab("format"));
    let root = Root::new(Draft::V2019_09, doc_url(), None, &doc).unwrap();
    assert!(root.has_vocab("validation"));
    assert!(!root.has_vocab("unevaluated"));
}

#[test]
fn vocabulary_that_the_draft_does_not_have_is_refused() {
    let doc = obj(vec![]);
    let listed = Some(vec!["core".to_string(), "format-assertion".to_string(), "magic".to_string()]);
    assert_eq!(
        Root::new(Draft::V2020_12, doc_url(), listed, &doc).err(),
        Some(CompileError::UnsupportedVocabulary {
            url: "http://example.com/doc.json".to_string(),
            vocabulary: "magic".to_string(),
        })
    );
    let listed = Some(vec!["core".to_string(), "format-assertion".to_string()]);
    assert_eq!(
        Root::new(Draft::V2019_09, doc_url(), listed, &doc).err(),
        Some(CompileError::UnsupportedVocabulary {
            url: "http://example.com/doc.json".to_string(),
            vocabulary: "format-assertion".to_string(),
        })
    );
    let listed = Some(vec!["core".to_string(), "format-assertion".to_string()]);
    assert!(Root::new(Draft::V2020_12, doc_url(), listed, &doc).is_ok());
    let listed = Some(vec!["magic".to_string()]);
    assert!(Root::new(Draft::V7, doc_url(), listed, &doc).is_ok());
    assert!(Draft::V2019_09.knows_vocab("format"));
    assert!(!Draft::V2020_12.knows_vocab("format"));
    assert!(!Draft::V7.knows_vocab("core"));
    assert_eq!(Draft::V2019_09.all_vocabs().len(), 6);
    assert_eq!(Draft::V2020_12.all_vocabs().len(), 8);
    assert_eq!(
        CompileError::UnsupportedVocabulary { url: "u".into(), vocabulary: "v".into() }.to_string(),
        "unsupported vocabulary v in u"
    );
}

#[test]
fn member_names_with_slashes_and_tildes_do_not_confuse_ownership() {
    let doc = obj(vec![(
        "properties",
        obj(vec![
            ("a/b", obj(vec![("$id", s("slash.json")), ("not", obj(vec![]))])),
            ("a", obj(vec![("properties", obj(vec![("b", obj(vec![("$anchor", s("plain"))]))]))])),
            ("~1", obj(vec![("$id", s("tilde.json"))])),
        ]),
    )]);
    let root = Root::new(Draft::V2020_12, doc_url(), None, &doc).unwrap();
    assert_eq!(ptrs(&root.resources), vec!["", "/properties/a~1b", "/properties/~01"]);
    assert_eq!(root.resource(&ptr("/properties/a~1b/not")).ptr.as_str(), "/properties/a~1b");
    assert_eq!(root.resource(&ptr("/properties/a~1b")).ptr.as_str(), "/properties/a~1b");
    assert_eq!(root.resource(&ptr("/properties/a/properties/b")).ptr.as_str(), "");
    assert_eq!(root.resource(&ptr("/properties/a")).ptr.as_str(), "");
    assert_eq!(root.resource(&ptr("/properties/~01/x")).ptr.as_str(), "/properties/~01");
    assert_eq!(root.resource(&ptr("/properties/~1/x")).ptr.as_str(), "");
    assert_eq!(root.resources[0].anchors.get("plain").unwrap().as_str(), "/properties/a/properties/b");
    assert_eq!(ptr("/properties/a~1b").lookup(&doc, &doc_url()).unwrap().get("$id"), Some(&s("slash.json")));
}

#[test]
fn dynamic_anchor_of_a_subschema_goes_to_its_owner_alone() {
    let doc = obj(vec![
        ("$id", s("http://example.com/root.json")),
        (
            "$defs",
            obj(vec![("item", obj(vec![("$id", s("item.json")), ("$dynamicAnchor", s("node"))]))]),
        ),
        ("extra", obj(vec![("deep", obj(vec![("$dynamicAnchor", s("late"))]))])),
    ]);
    let mut root = Root::new(Draft::V2020_12, doc_url(), None, &doc).unwrap();
    assert_eq!(ptrs(&root.resources), vec!["", "/$defs/item"]);
    assert!(root.resources[0].dynamic_anchors.is_empty());
    assert_eq!(root.resources[1].dynamic_anchors, vec!["node".to_string()]);
    root.add_subschema(&doc, &ptr("/extra/deep")).unwrap();
    assert_eq!(ptrs(&root.resources), vec!["", "/$defs/item"]);
    assert_eq!(root.resource(&ptr("/extra/deep")).ptr.as_str(), "");
    assert_eq!(root.resources[0].dynamic_anchors, vec!["late".to_string()]);
    assert_eq!(root.resources[0].anchors.get("late").unwrap().as_str(), "/extra/deep");
    assert_eq!(root.resources[1].dynamic_anchors, vec!["node".to_string()]);
    assert_eq!(root.resources[1].anchors.len(), 1);
}

#[test]
fn member_behind_another_of_its_name_is_not_walked() {
    let doc = obj(vec![
        ("$id", s("http://example.com/root.json")),
        (
            "$defs",
            obj(vec![
                ("item", obj(vec![("$id", s("first.json")), ("$anchor", s("one"))])),
                ("item", obj(vec![("$id", s("second.json")), ("$anchor", s("two"))])),
                ("more", obj(vec![("$anchor", s("three"))])),
            ]),
        ),
    ]);
    let root = Root::new(Draft::V2020_12, doc_url(), None, &doc).unwrap();
    assert_eq!(ptrs(&root.resources), vec!["", "/$defs/item"]);
    assert_eq!(root.resources[1].id.as_str(), "http://example.com/first.json");
    assert_eq!(root.resources[1].anchors.len(), 1);
    assert_eq!(root.resources[1].anchors.get("one").unwrap().as_str(), "/$defs/item");
    assert_eq!(root.resources[0].anchors.len(), 1);
    assert_eq!(root.resources[0].anchors.get("three").unwrap().as_str(), "/$defs/more");
}
