use jsonschema::{json_schema, Dependencies, Dependency, Json, JsonSchemaBuilder, PrimitiveType, SchemaArray, SchemaHash};

fn s(text: &str) -> Json {
    Json::String(text.to_string())
}

fn n(text: &str) -> Json {
    Json::Number(text.to_string())
}

fn obj(members: Vec<(&str, Json)>) -> Json {
    Json::Object(members.into_iter().map(|(k, v)| (k.to_string(), v)).collect())
}

#[test]
fn builder_writes_keywords_in_order() {
    let built = json_schema(|b| {
        b.id("http://example.com/s.json");
        b.schema("https://json-schema.org/draft/2020-12/schema");
        b.title("a title");
        b.desc("a description");
        b.object();
        b.max_properties(10);
        b.min_properties(0);
        b.required(vec!["a".to_string(), "b".to_string()]);
        b.additional_properties(false);
    })
    .into_json();
    assert_eq!(
        built,
        obj(vec![
            ("$id", s("http://example.com/s.json")),
            ("$schema", s("https://json-schema.org/draft/2020-12/schema")),
            ("title", s("a title")),
            ("description", s("a description")),
            ("type", s("object")),
            ("maxProperties", n("10")),
            ("minProperties", n("0")),
            ("required", Json::Array(vec![s("a"), s("b")])),
            ("additionalProperties", Json::Bool(false)),
        ])
    );
}

#[test]
fn keyword_written_twice_keeps_its_place_and_takes_the_later_value() {
    let mut b = JsonSchemaBuilder::new();
    b.string();
    b.max_length(3);
    b.integer();
    b.max_length(18446744073709551615);
    assert_eq!(
        b.into_json(),
        obj(vec![("type", s("integer")), ("maxLength", n("18446744073709551615"))])
    );
}

#[test]
fn nested_builders_write_schemas_arrays_and_maps() {
    let built = JsonSchemaBuilder::build(|b| {
        b.properties(|props| {
            props.insert("name", |p| p.string());
            props.insert("tags", |p| {
                p.array();
                p.items_schema(|i| i.type_(PrimitiveType::String));
                p.unique_items(true);
                p.min_items(1);
                p.max_items(5);
            });
        });
        b.any_of(|list| {
            list.push(|x| x.null());
            list.push(|x| x.types(&[PrimitiveType::Number, PrimitiveType::Boolean]));
        });
        b.not(|x| x.ref_("#/$defs/bad"));
        b.definitions(|defs| defs.insert("bad", |d| d.anchor("bad")));
    })
    .into_json();
    assert_eq!(
        built,
        obj(vec![
            (
                "properties",
                obj(vec![
                    ("name", obj(vec![("type", s("string"))])),
                    (
                        "tags",
                        obj(vec![
                            ("type", s("array")),
                            ("items", obj(vec![("type", s("string"))])),
                            ("uniqueItems", Json::Bool(true)),
                            ("minItems", n("1")),
                            ("maxItems", n("5")),
                        ]),
                    ),
                ]),
            ),
            (
                "anyOf",
                Json::Array(vec![
                    obj(vec![("type", s("null"))]),
                    obj(vec![("type", Json::Array(vec![s("number"), s("boolean")]))]),
                ]),
            ),
            ("not", obj(vec![("$ref", s("#/$defs/bad"))])),
            ("$defs", obj(vec![("bad", obj(vec![("$anchor", s("bad"))]))])),
        ])
    );
}

#[test]
fn remaining_keywords_are_written_under_their_names() {
    let mut b = JsonSchemaBuilder::new();
    b.pattern("^a+$");
    b.format("email");
    b.min_length(2);
    b.additional_items(true);
    b.additional_items_schema(|x| x.boolean());
    b.additional_properties_schema(|x| x.number());
    b.pattern_properties(|h| h.insert("^x", |x| x.integer()));
    b.items_array(|a| a.push(|x| x.string()));
    b.all_of(|a| a.push(|x| x.object()));
    b.one_of(|a| a.push(|x| x.array()));
    b.if_(|x| x.title("if"));
    b.then_(|x| x.title("then"));
    b.else_(|x| x.title("else"));
    b.content_media_type("text/plain".to_string());
    b.content_encoding("base64".to_string());
    b.default(n("7"));
    b.enum_(vec![n("7"), Json::Null]);
    b.custom_vocabulary("x-note", s("kept"));
    b.dependencies(|d| {
        d.property("a", vec!["b".to_string()]);
        d.schema("c", |x| x.min_properties(1));
    });
    let built = b.into_json();
    assert_eq!(built.get("pattern"), Some(&s("^a+$")));
    assert_eq!(built.get("format"), Some(&s("email")));
    assert_eq!(built.get("minLength"), Some(&n("2")));
    assert_eq!(built.get("additionalItems"), Some(&obj(vec![("type", s("boolean"))])));
    assert_eq!(built.get("additionalProperties"), Some(&obj(vec![("type", s("number"))])));
    assert_eq!(
        built.get("patternProperties"),
        Some(&obj(vec![("^x", obj(vec![("type", s("integer"))]))]))
    );
    assert_eq!(built.get("items"), Some(&Json::Array(vec![obj(vec![("type", s("string"))])])));
    assert_eq!(built.get("allOf"), Some(&Json::Array(vec![obj(vec![("type", s("object"))])])));
    assert_eq!(built.get("oneOf"), Some(&Json::Array(vec![obj(vec![("type", s("array"))])])));
    assert_eq!(built.get("if"), Some(&obj(vec![("title", s("if"))])));
    assert_eq!(built.get("then"), Some(&obj(vec![("title", s("then"))])));
    assert_eq!(built.get("else"), Some(&obj(vec![("title", s("else"))])));
    assert_eq!(built.get("contentMediaType"), Some(&s("text/plain")));
    assert_eq!(built.get("contentEncoding"), Some(&s("base64")));
    assert_eq!(built.get("default"), Some(&n("7")));
    assert_eq!(built.get("enum"), Some(&Json::Array(vec![n("7"), Json::Null])));
    assert_eq!(built.get("x-note"), Some(&s("kept")));
    assert_eq!(
        built.get("dependencies"),
        Some(&obj(vec![
            ("a", Json::Array(vec![s("b")])),
            ("c", obj(vec![("minProperties", n("1"))])),
        ]))
    );
}

#[test]
fn parts_can_be_built_on_their_own() {
    let mut list = SchemaArray::new();
    list.push(|x| x.null());
    assert_eq!(list.items, vec![obj(vec![("type", s("null"))])]);
    let mut map = SchemaHash::new();
    map.insert("a", |x| x.string());
    map.insert("a", |x| x.number());
    assert_eq!(map.items, vec![("a".to_string(), obj(vec![("type", s("number"))]))]);
    let deps = Dependencies::build(|d| d.property("p", vec!["q".to_string()]));
    assert_eq!(deps.into_json(), obj(vec![("p", Json::Array(vec![s("q")]))]));
    assert_eq!(Dependency::Schema(Json::Bool(true)).into_json(), Json::Bool(true));
    assert_eq!(
        Dependency::Property(vec!["x".to_string()]).into_json(),
        Json::Array(vec![s("x")])
    );
}

#[test]
fn types_on_a_new_builder_gives_one_member() {
    let mut b = JsonSchemaBuilder::new();
    b.types(&[PrimitiveType::String, PrimitiveType::Null]);
    assert_eq!(b.into_json(), obj(vec![("type", Json::Array(vec![s("string"), s("null")]))]));
    let mut b = JsonSchemaBuilder::new();
    b.types(&[]);
    assert_eq!(b.into_json(), obj(vec![("type", Json::Array(vec![]))]));
}
