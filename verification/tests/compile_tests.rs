use jsonschema::{
    CompileError, Compiler, Draft, ErrorKind, Json, JsonPointer, SchemaIndex, Schemas, Url,
    UrlLoader, UrlPtr, ValidationError,
};

fn s(text: &str) -> Json {
    Json::String(text.to_string())
}

fn n(text: &str) -> Json {
    Json::Number(text.to_string())
}

fn arr(items: Vec<Json>) -> Json {
    Json::Array(items)
}

fn obj(members: Vec<(&str, Json)>) -> Json {
    Json::Object(members.into_iter().map(|(k, v)| (k.to_string(), v)).collect())
}

struct NoLoader;

impl UrlLoader for NoLoader {
    fn load(&self, url: &Url) -> Result<Json, String> {
        Err(format!("nothing at {}", url.as_str()))
    }
}

struct Remote;

impl UrlLoader for Remote {
    fn load(&self, url: &Url) -> Result<Json, String> {
        if url.as_str() == "http://remote.example/b.json" {
            Ok(doc_b())
        } else {
            Err("no such document".to_string())
        }
    }
}

fn doc_a(target: &str) -> Json {
    obj(vec![("$ref", s(target))])
}

fn doc_b() -> Json {
    obj(vec![(
        "$defs",
        obj(vec![("x", obj(vec![("$anchor", s("foo")), ("type", s("string"))]))]),
    )])
}

fn leaf(e: &ValidationError) -> &ValidationError {
    match &e.cause {
        Some(inner) => leaf(inner),
        None => e,
    }
}

#[test]
fn reference_into_another_document_reports_the_anchored_schema() {
    let mut compiler: Compiler<NoLoader> = Compiler::new();
    let mut schemas = Schemas::new();
    compiler
        .add_resource("http://example.com/a.json", doc_a("http://example.com/b.json#foo"))
        .unwrap();
    compiler.add_resource("http://example.com/b.json", doc_b()).unwrap();
    let idx = compiler.compile(&mut schemas, "http://example.com/a.json").unwrap();
    assert!(schemas.validate(&s("text"), idx).is_ok());
    let err = schemas.validate(&n("5"), idx).unwrap_err();
    assert_eq!(err.kind, ErrorKind::Reference);
    assert_eq!(err.schema_location, "http://example.com/a.json");
    let cause = leaf(&err);
    assert_eq!(cause.kind, ErrorKind::Type);
    assert_eq!(cause.schema_location, "http://example.com/b.json#/$defs/x");
    assert_eq!(cause.instance_location, "");
}

#[test]
fn referenced_document_is_loaded_by_the_loader_of_its_scheme() {
    let mut compiler: Compiler<Remote> = Compiler::new();
    compiler.register_url_loader("http", Remote);
    let mut schemas = Schemas::new();
    compiler
        .add_resource("http://example.com/a.json", doc_a("http://remote.example/b.json#foo"))
        .unwrap();
    let idx = compiler.compile(&mut schemas, "http://example.com/a.json").unwrap();
    assert_eq!(compiler.roots.len(), 2);
    assert!(schemas.validate(&s("text"), idx).is_ok());
    assert!(schemas.validate(&Json::Null, idx).is_err());
}

#[test]
fn missing_loader_and_failing_loader_are_told_apart() {
    let mut compiler: Compiler<Remote> = Compiler::new();
    let mut schemas = Schemas::new();
    compiler
        .add_resource("http://example.com/a.json", doc_a("http://remote.example/b.json#foo"))
        .unwrap();
    let err = compiler.compile(&mut schemas, "http://example.com/a.json").unwrap_err();
    assert_eq!(
        err,
        CompileError::UnsupportedUrlScheme { url: "http://remote.example/b.json".to_string() }
    );
    assert_eq!(schemas.list.len(), 0);
    compiler.register_url_loader("http", Remote);
    compiler
        .add_resource("http://example.com/c.json", doc_a("http://remote.example/none.json"))
        .unwrap();
    let err = compiler.compile(&mut schemas, "http://example.com/c.json").unwrap_err();
    assert_eq!(
        err,
        CompileError::LoadUrlError {
            url: "http://remote.example/none.json".to_string(),
            src: "no such document".to_string(),
        }
    );
    assert_eq!(schemas.list.len(), 0);
}

fn recursive_doc() -> Json {
    obj(vec![
        ("type", s("object")),
        ("properties", obj(vec![("child", obj(vec![("$ref", s("#"))]))])),
    ])
}

fn nested(depth: usize, innermost: Json) -> Json {
    let mut v = innermost;
    for _ in 0..depth {
        v = obj(vec![("child", v)]);
    }
    v
}

#[test]
fn self_reference_is_compiled_once_and_applied_at_each_level() {
    let mut compiler: Compiler<NoLoader> = Compiler::new();
    let mut schemas = Schemas::new();
    compiler.add_resource("http://example.com/tree.json", recursive_doc()).unwrap();
    let idx = compiler.compile(&mut schemas, "http://example.com/tree.json").unwrap();
    assert_eq!(idx, SchemaIndex(0));
    assert_eq!(schemas.list.len(), 2);
    assert_eq!(schemas.list[1].ref_, Some(0));
    assert_eq!(schemas.list[0].properties.len(), 1);
    assert_eq!(schemas.list[0].properties[0].1, 1);
    assert!(schemas.validate(&nested(3, obj(vec![])), idx).is_ok());
    let err = schemas.validate(&nested(3, n("5")), idx).unwrap_err();
    assert_eq!(err.kind, ErrorKind::Properties);
    assert_eq!(err.detail, "child");
    let cause = leaf(&err);
    assert_eq!(cause.kind, ErrorKind::Type);
    assert_eq!(cause.instance_location, "/child/child/child");
    assert_eq!(cause.schema_location, "http://example.com/tree.json");
}

#[test]
fn compiling_twice_gives_the_same_index_and_adds_nothing() {
    let mut compiler: Compiler<NoLoader> = Compiler::new();
    let mut schemas = Schemas::new();
    compiler.add_resource("http://example.com/tree.json", recursive_doc()).unwrap();
    compiler.add_resource("http://example.com/tree.json", recursive_doc()).unwrap();
    assert_eq!(compiler.roots.len(), 1);
    assert_eq!(compiler.roots[0].resources.len(), 1);
    let first = compiler.compile(&mut schemas, "http://example.com/tree.json").unwrap();
    let count = schemas.list.len();
    let second = compiler.compile(&mut schemas, "http://example.com/tree.json#").unwrap();
    assert_eq!(first, second);
    assert_eq!(schemas.list.len(), count);
    assert_eq!(compiler.roots[0].resources.len(), 1);
    let inner = compiler
        .compile(&mut schemas, "http://example.com/tree.json#/properties/child")
        .unwrap();
    assert_eq!(inner, SchemaIndex(1));
    assert_eq!(schemas.list.len(), count);
}

#[test]
fn registering_another_document_under_a_used_url_fails() {
    let mut compiler: Compiler<NoLoader> = Compiler::new();
    compiler.add_resource("http://example.com/tree.json", recursive_doc()).unwrap();
    let err = compiler.add_resource("http://example.com/tree.json", doc_b()).unwrap_err();
    assert_eq!(err, CompileError::ResourceExists { url: "http://example.com/tree.json".to_string() });
    assert_eq!(compiler.roots.len(), 1);
}

#[test]
fn endless_reference_ends_in_depth_exceeded() {
    let mut compiler: Compiler<NoLoader> = Compiler::new();
    let mut schemas = Schemas::new();
    compiler.add_resource("http://example.com/loop.json", doc_a("#")).unwrap();
    let idx = compiler.compile(&mut schemas, "http://example.com/loop.json").unwrap();
    schemas.set_max_depth(50);
    let err = schemas.validate(&Json::Null, idx).unwrap_err();
    assert_eq!(err.kind, ErrorKind::DepthExceeded);
    assert!(err.cause.is_none());
}

fn tree_doc() -> Json {
    obj(vec![
        ("$id", s("http://example.com/tree")),
        ("$dynamicAnchor", s("node")),
        ("type", s("object")),
        (
            "properties",
            obj(vec![
                ("data", Json::Bool(true)),
                (
                    "children",
                    obj(vec![
                        ("type", s("array")),
                        ("items", obj(vec![("$dynamicRef", s("#node"))])),
                    ]),
                ),
            ]),
        ),
    ])
}

fn strict_tree_doc() -> Json {
    obj(vec![
        ("$id", s("http://example.com/strict-tree")),
        ("$dynamicAnchor", s("node")),
        ("$ref", s("tree")),
        ("required", arr(vec![s("data")])),
    ])
}

fn tree_value() -> Json {
    obj(vec![("data", n("1")), ("children", arr(vec![obj(vec![("children", arr(vec![]))])]))])
}

#[test]
fn dynamic_reference_goes_to_the_outermost_resource_entered() {
    let mut compiler: Compiler<NoLoader> = Compiler::new();
    let mut schemas = Schemas::new();
    compiler.add_resource("http://example.com/tree", tree_doc()).unwrap();
    compiler.add_resource("http://example.com/strict-tree", strict_tree_doc()).unwrap();
    let strict = compiler.compile(&mut schemas, "http://example.com/strict-tree").unwrap();
    let plain = compiler.compile(&mut schemas, "http://example.com/tree").unwrap();
    let err = schemas.validate(&tree_value(), strict).unwrap_err();
    let cause = leaf(&err);
    assert_eq!(cause.kind, ErrorKind::Required);
    assert_eq!(cause.detail, "data");
    assert_eq!(cause.schema_location, "http://example.com/strict-tree");
    assert_eq!(cause.instance_location, "/children/0");
    assert!(schemas.validate(&tree_value(), plain).is_ok());
}

#[test]
fn unknown_draft_is_refused() {
    let mut compiler: Compiler<NoLoader> = Compiler::new();
    let doc = obj(vec![("$schema", s("http://example.com/my-draft"))]);
    let err = compiler.add_resource("http://example.com/x.json", doc).unwrap_err();
    assert_eq!(err, CompileError::UnsupportedDraft { url: "http://example.com/my-draft".to_string() });
    assert_eq!(Draft::from_url("http://json-schema.org/draft-07/schema#"), Some(Draft::V7));
    assert_eq!(Draft::from_url("https://json-schema.org/draft/2019-09/schema"), Some(Draft::V2019_09));
    assert_eq!(Draft::from_url("https://json-schema.org/draft/2020-12/schema"), Some(Draft::V2020_12));
    assert_eq!(Draft::from_url("http://json-schema.org/draft-04/schema"), Some(Draft::V4));
    assert_eq!(Draft::from_url("http://json-schema.org/draft-06/schema"), Some(Draft::V6));
    assert_eq!(Draft::from_url("http://json-schema.org/draft-07/schema#x"), None);
    assert_eq!(Draft::from_url("ftp://json-schema.org/draft-07/schema"), None);
}

#[test]
fn value_that_is_no_schema_is_refused() {
    let mut compiler: Compiler<NoLoader> = Compiler::new();
    let mut schemas = Schemas::new();
    let doc = obj(vec![("allOf", arr(vec![n("1")]))]);
    compiler.add_resource("http://example.com/x.json", doc).unwrap();
    let err = compiler.compile(&mut schemas, "http://example.com/x.json").unwrap_err();
    assert_eq!(err, CompileError::NotASchema { loc: "http://example.com/x.json#/allOf/0".to_string() });
    assert_eq!(schemas.list.len(), 0);
}

#[test]
fn keywords_are_applied_in_their_order() {
    let mut compiler: Compiler<NoLoader> = Compiler::new();
    let mut schemas = Schemas::new();
    let doc = obj(vec![
        ("type", arr(vec![s("array"), s("integer")])),
        ("prefixItems", arr(vec![obj(vec![("type", s("string"))])])),
        ("items", obj(vec![("type", s("boolean"))])),
        ("not", obj(vec![("type", s("null"))])),
    ]);
    compiler.add_resource("http://example.com/k.json", doc).unwrap();
    let idx = compiler.compile(&mut schemas, "http://example.com/k.json").unwrap();
    assert!(schemas.validate(&n("-12"), idx).is_ok());
    assert_eq!(schemas.validate(&n("1.5"), idx).unwrap_err().kind, ErrorKind::Type);
    assert!(schemas.validate(&arr(vec![s("a"), Json::Bool(true)]), idx).is_ok());
    let err = schemas.validate(&arr(vec![n("1")]), idx).unwrap_err();
    assert_eq!(err.kind, ErrorKind::PrefixItems);
    assert_eq!(leaf(&err).instance_location, "/0");
    let err = schemas.validate(&arr(vec![s("a"), s("b")]), idx).unwrap_err();
    assert_eq!(err.kind, ErrorKind::Items);
    assert_eq!(leaf(&err).instance_location, "/1");
}

#[test]
fn combinators_count_the_schemas_that_accept() {
    let mut compiler: Compiler<NoLoader> = Compiler::new();
    let mut schemas = Schemas::new();
    let doc = obj(vec![
        (
            "$defs",
            obj(vec![
                (
                    "any",
                    obj(vec![(
                        "anyOf",
                        arr(vec![obj(vec![("type", s("string"))]), obj(vec![("type", s("null"))])]),
                    )]),
                ),
                (
                    "one",
                    obj(vec![(
                        "oneOf",
                        arr(vec![obj(vec![("type", s("number"))]), obj(vec![("type", s("integer"))])]),
                    )]),
                ),
                (
                    "all",
                    obj(vec![(
                        "allOf",
                        arr(vec![obj(vec![("required", arr(vec![s("a")]))]), Json::Bool(false)]),
                    )]),
                ),
            ]),
        ),
    ]);
    compiler.add_resource("http://example.com/c.json", doc).unwrap();
    let any = compiler.compile(&mut schemas, "http://example.com/c.json#/$defs/any").unwrap();
    let one = compiler.compile(&mut schemas, "http://example.com/c.json#/$defs/one").unwrap();
    let all = compiler.compile(&mut schemas, "http://example.com/c.json#/$defs/all").unwrap();
    assert!(schemas.validate(&Json::Null, any).is_ok());
    assert_eq!(schemas.validate(&n("1"), any).unwrap_err().kind, ErrorKind::AnyOf);
    assert!(schemas.validate(&n("1.5"), one).is_ok());
    assert_eq!(schemas.validate(&n("1"), one).unwrap_err().kind, ErrorKind::OneOf);
    assert_eq!(schemas.validate(&s("x"), one).unwrap_err().kind, ErrorKind::OneOf);
    let err = schemas.validate(&obj(vec![("a", n("1"))]), all).unwrap_err();
    assert_eq!(err.kind, ErrorKind::AllOf);
    assert_eq!(leaf(&err).kind, ErrorKind::FalseSchema);
    let err = schemas.validate(&obj(vec![]), all).unwrap_err();
    assert_eq!(leaf(&err).kind, ErrorKind::Required);
    assert_eq!(leaf(&err).detail, "a");
}

#[test]
fn keywords_of_a_vocabulary_that_is_off_ask_for_nothing() {
    let doc = || {
        obj(vec![("type", s("string")), ("properties", obj(vec![("a", Json::Bool(false))]))])
    };
    let value = obj(vec![("a", n("1"))]);
    let mut compiler: Compiler<NoLoader> = Compiler::new();
    let mut schemas = Schemas::new();
    compiler.add_resource("http://example.com/on.json", doc()).unwrap();
    let on = compiler.compile(&mut schemas, "http://example.com/on.json").unwrap();
    assert_eq!(schemas.validate(&value, on).unwrap_err().kind, ErrorKind::Type);

    let mut compiler: Compiler<NoLoader> = Compiler::new();
    let mut schemas = Schemas::new();
    compiler.add_resource("http://example.com/off.json", doc()).unwrap();
    compiler.roots[0].meta_vocabs = Some(vec!["core".to_string(), "applicator".to_string()]);
    let off = compiler.compile(&mut schemas, "http://example.com/off.json").unwrap();
    let err = schemas.validate(&value, off).unwrap_err();
    assert_eq!(err.kind, ErrorKind::Properties);
    assert!(schemas.list[off.0].types.is_empty());

    let mut compiler: Compiler<NoLoader> = Compiler::new();
    let mut schemas = Schemas::new();
    compiler.add_resource("http://example.com/none.json", doc()).unwrap();
    compiler.roots[0].meta_vocabs = Some(vec![]);
    let none = compiler.compile(&mut schemas, "http://example.com/none.json").unwrap();
    assert!(schemas.validate(&value, none).is_ok());
    assert_eq!(schemas.list.len(), 1);
    assert!(schemas.list[0].properties.is_empty());

    let mut compiler: Compiler<NoLoader> = Compiler::new();
    compiler.set_default_draft(Draft::V7);
    let mut schemas = Schemas::new();
    compiler.add_resource("http://example.com/old.json", doc()).unwrap();
    compiler.roots[0].meta_vocabs = Some(vec![]);
    let old = compiler.compile(&mut schemas, "http://example.com/old.json").unwrap();
    assert_eq!(schemas.validate(&value, old).unwrap_err().kind, ErrorKind::Type);
}

#[test]
fn draft_decides_how_items_and_references_are_read() {
    let doc = || {
        obj(vec![
            ("items", arr(vec![obj(vec![("type", s("string"))])])),
            ("additionalItems", obj(vec![("type", s("null"))])),
            ("definitions", obj(vec![("r", obj(vec![("$ref", s("#/definitions/t")), ("type", s("null"))]))])),
            ("definitions", obj(vec![])),
        ])
    };
    let mut compiler: Compiler<NoLoader> = Compiler::new();
    compiler.set_default_draft(Draft::V7);
    compiler.enable_format_assertions();
    compiler.enable_content_assertions();
    assert!(compiler.assert_format && compiler.assert_content);
    let mut schemas = Schemas::new();
    compiler.add_resource("http://example.com/seven.json", doc()).unwrap();
    let seven = compiler.compile(&mut schemas, "http://example.com/seven.json").unwrap();
    assert!(schemas.validate(&arr(vec![s("a"), Json::Null]), seven).is_ok());
    assert_eq!(
        schemas.validate(&arr(vec![s("a"), s("b")]), seven).unwrap_err().kind,
        ErrorKind::Items
    );
    assert_eq!(
        schemas.validate(&arr(vec![Json::Null]), seven).unwrap_err().kind,
        ErrorKind::PrefixItems
    );
    let mut compiler: Compiler<NoLoader> = Compiler::new();
    let mut schemas = Schemas::new();
    compiler.add_resource("http://example.com/latest.json", doc()).unwrap();
    let latest = compiler.compile(&mut schemas, "http://example.com/latest.json").unwrap();
    assert!(schemas.validate(&arr(vec![Json::Null, Json::Bool(true)]), latest).is_ok());
}

#[test]
fn reference_to_a_missing_anchor_or_place_fails_the_compilation() {
    let mut compiler: Compiler<NoLoader> = Compiler::new();
    let mut schemas = Schemas::new();
    compiler.add_resource("http://example.com/a.json", doc_a("#nowhere")).unwrap();
    assert_eq!(
        compiler.compile(&mut schemas, "http://example.com/a.json").unwrap_err(),
        CompileError::AnchorNotFound {
            url: "http://example.com/a.json".to_string(),
            reference: "http://example.com/a.json#nowhere".to_string(),
        }
    );
    compiler.add_resource("http://example.com/b.json", doc_a("#/not/there")).unwrap();
    assert_eq!(
        compiler.compile(&mut schemas, "http://example.com/b.json").unwrap_err(),
        CompileError::JsonPointerNotFound("http://example.com/b.json#/not/there".to_string())
    );
    assert_eq!(
        compiler.compile(&mut schemas, "http://example.com/b.json#%FF").unwrap_err(),
        CompileError::ParseUrlError { url: "http://example.com/b.json#%FF".to_string() }
    );
    assert_eq!(
        compiler.compile(&mut schemas, "b.json").unwrap_err(),
        CompileError::ParseUrlError { url: "b.json".to_string() }
    );
    assert_eq!(schemas.list.len(), 0);
}

fn meta_schema(vocabulary: Vec<(&str, Json)>) -> Json {
    obj(vec![
        ("$schema", s("https://json-schema.org/draft/2020-12/schema")),
        ("$id", s("http://example.com/meta.json")),
        ("$vocabulary", obj(vocabulary)),
    ])
}

#[test]
fn document_takes_draft_and_vocabularies_from_its_registered_meta_schema() {
    let core = "https://json-schema.org/draft/2020-12/vocab/core";
    let applicator = "https://json-schema.org/draft/2020-12/vocab/applicator";
    let doc = || {
        obj(vec![
            ("$schema", s("http://example.com/meta.json#")),
            ("type", s("string")),
            ("not", Json::Bool(true)),
        ])
    };
    let mut compiler: Compiler<NoLoader> = Compiler::new();
    compiler.set_default_draft(Draft::V7);
    let mut schemas = Schemas::new();
    let meta = meta_schema(vec![
        (core, Json::Bool(true)),
        (applicator, Json::Bool(false)),
        ("http://example.com/vocab/other", Json::Bool(false)),
    ]);
    compiler.add_resource("http://example.com/meta.json", meta).unwrap();
    compiler.add_resource("http://example.com/doc.json", doc()).unwrap();
    assert_eq!(compiler.roots[1].draft, Draft::V2020_12);
    assert_eq!(
        compiler.roots[1].meta_vocabs,
        Some(vec!["core".to_string(), "applicator".to_string()])
    );
    let idx = compiler.compile(&mut schemas, "http://example.com/doc.json").unwrap();
    assert_eq!(schemas.validate(&n("1"), idx).unwrap_err().kind, ErrorKind::Not);

    let mut compiler: Compiler<NoLoader> = Compiler::new();
    let meta = meta_schema(vec![(core, Json::Bool(true)), ("http://example.com/vocab/other", Json::Bool(true))]);
    compiler.add_resource("http://example.com/meta.json", meta).unwrap();
    assert_eq!(
        compiler.add_resource("http://example.com/doc.json", doc()).unwrap_err(),
        CompileError::UnsupportedVocabulary {
            url: "http://example.com/doc.json".to_string(),
            vocabulary: "http://example.com/vocab/other".to_string(),
        }
    );
    assert_eq!(compiler.roots.len(), 1);

    let mut compiler: Compiler<NoLoader> = Compiler::new();
    assert_eq!(
        compiler.add_resource("http://example.com/doc.json", doc()).unwrap_err(),
        CompileError::UnsupportedDraft { url: "http://example.com/meta.json#".to_string() }
    );
    let mut compiler: Compiler<NoLoader> = Compiler::new();
    let plain = obj(vec![("$id", s("http://example.com/meta.json"))]);
    compiler.add_resource("http://example.com/meta.json", plain).unwrap();
    compiler.add_resource("http://example.com/doc.json", doc()).unwrap();
    assert_eq!(compiler.roots[1].meta_vocabs, None);
}

#[test]
fn schema_that_refers_to_itself_alone_is_added_last_and_linked() {
    let mut compiler: Compiler<NoLoader> = Compiler::new();
    let mut schemas = Schemas::new();
    compiler
        .add_resource("http://example.com/plain.json", obj(vec![("type", s("string"))]))
        .unwrap();
    compiler
        .add_resource("http://example.com/loop.json", obj(vec![("$ref", s("#"))]))
        .unwrap();
    let plain = compiler.compile(&mut schemas, "http://example.com/plain.json").unwrap();
    assert_eq!(plain, SchemaIndex(0));
    assert_eq!(schemas.list.len(), 1);
    let looped = compiler.compile(&mut schemas, "http://example.com/loop.json").unwrap();
    assert_eq!(looped, SchemaIndex(1));
    assert_eq!(schemas.list.len(), 2);
    assert_eq!(schemas.list[1].ref_, Some(1));
    assert_eq!(schemas.list[1].resource, 1);
    assert!(schemas.list[1].dynamic_anchors.is_empty());
    assert_eq!(compiler.roots.len(), 2);
    assert_eq!(compiler.roots[1].resources.len(), 1);
}

#[test]
fn document_with_its_members_in_another_order_is_the_same_document() {
    let mut compiler: Compiler<NoLoader> = Compiler::new();
    let written = obj(vec![
        ("type", s("object")),
        ("properties", obj(vec![("a", obj(vec![("type", s("string"))])), ("b", Json::Bool(true))])),
    ]);
    let turned = obj(vec![
        ("properties", obj(vec![("b", Json::Bool(true)), ("a", obj(vec![("type", s("string"))]))])),
        ("type", s("object")),
    ]);
    let other = obj(vec![
        ("properties", obj(vec![("b", Json::Bool(false)), ("a", obj(vec![("type", s("string"))]))])),
        ("type", s("object")),
    ]);
    assert!(written.same(&turned));
    assert!(turned.same(&written));
    assert!(!written.same(&other));
    assert!(!arr(vec![s("a"), s("b")]).same(&arr(vec![s("b"), s("a")])));
    assert!(!obj(vec![("a", s("x"))]).same(&obj(vec![("a", s("x")), ("b", s("y"))])));
    assert!(!obj(vec![("a", s("x")), ("b", s("y"))]).same(&obj(vec![("a", s("x"))])));
    assert!(obj(vec![("a", s("x")), ("a", s("y"))]).same(&obj(vec![("a", s("x"))])));
    compiler.add_resource("http://example.com/o.json", written).unwrap();
    compiler.add_resource("http://example.com/o.json", turned).unwrap();
    assert_eq!(compiler.roots.len(), 1);
    let err = compiler.add_resource("http://example.com/o.json", other).unwrap_err();
    assert_eq!(err, CompileError::ResourceExists { url: "http://example.com/o.json".to_string() });
}

#[test]
fn failed_compilation_of_a_location_leaves_the_schemas_as_they_were() {
    let mut compiler: Compiler<NoLoader> = Compiler::new();
    let mut schemas = Schemas::new();
    compiler
        .add_resource("http://example.com/plain.json", obj(vec![("type", s("string"))]))
        .unwrap();
    let broken = obj(vec![
        ("properties", obj(vec![("a", obj(vec![("type", s("string"))]))])),
        ("allOf", arr(vec![obj(vec![("$ref", s("#nowhere"))])])),
    ]);
    compiler.add_resource("http://example.com/broken.json", broken).unwrap();
    compiler.compile(&mut schemas, "http://example.com/plain.json").unwrap();
    assert_eq!(schemas.list.len(), 1);
    let up = UrlPtr {
        url: Url::parse("http://example.com/broken.json").unwrap(),
        ptr: JsonPointer::parse("").unwrap(),
    };
    assert_eq!(
        compiler.compile_at(&mut schemas, up).unwrap_err(),
        CompileError::AnchorNotFound {
            url: "http://example.com/broken.json".to_string(),
            reference: "http://example.com/broken.json#nowhere".to_string(),
        }
    );
    assert_eq!(schemas.list.len(), 1);
    assert_eq!(
        compiler.compile(&mut schemas, "http://elsewhere.example/x.json#/a").unwrap_err(),
        CompileError::UnsupportedUrlScheme { url: "http://elsewhere.example/x.json".to_string() }
    );
    assert_eq!(compiler.roots.len(), 2);
    assert_eq!(schemas.list.len(), 1);
}
