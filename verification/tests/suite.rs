use jsonschema::{Compiler, Draft, Json, Schemas, Url, UrlLoader};

fn s(text: &str) -> Json {
    Json::String(text.to_string())
}

fn n(text: &str) -> Json {
    Json::Number(text.to_string())
}

fn arr(items: Vec<Json>) -> Json {
    Json::Array(items)
}

fn obj(members: Vec<(&str, Json)>) -> Json {
    Json::Object(members.into_iter().map(|(k, v)| (k.to_string(), v)).collect())
}

struct Test {
    description: &'static str,
    data: Json,
    valid: bool,
}

struct Group {
    description: &'static str,
    optional: bool,
    schema: Json,
    tests: Vec<Test>,
}

fn t(description: &'static str, data: Json, valid: bool) -> Test {
    Test { description, data, valid }
}

struct RemotesLoader;

impl UrlLoader for RemotesLoader {
    fn load(&self, url: &Url) -> Result<Json, String> {
        match url.as_str() {
            "http://localhost:1234/integer.json" => Ok(obj(vec![("type", s("integer"))])),
            "http://localhost:1234/subSchemas.json" => Ok(obj(vec![(
                "definitions",
                obj(vec![
                    ("integer", obj(vec![("type", s("integer"))])),
                    ("refToInteger", obj(vec![("$ref", s("#/definitions/integer"))])),
                ]),
            )])),
            _ => Err("no internet".to_string()),
        }
    }
}

fn defs(draft: Draft) -> &'static str {
    match draft {
        Draft::V2019_09 | Draft::V2020_12 => "$defs",
        _ => "definitions",
    }
}

fn groups(name: &str, draft: Draft) -> Vec<Group> {
    let id = draft.id_keyword();
    let mut all = vec![
        Group {
            description: "integer type matches integers",
            optional: false,
            schema: obj(vec![("type", s("integer"))]),
            tests: vec![
                t("an integer is an integer", n("1"), true),
                t("a float is not an integer", n("1.1"), false),
                t("a string is not an integer", s("foo"), false),
                t("an object is not an integer", obj(vec![]), false),
                t("null is not an integer", Json::Null, false),
            ],
        },
        Group {
            description: "multiple types can be specified in an array",
            optional: false,
            schema: obj(vec![("type", arr(vec![s("integer"), s("string")]))]),
            tests: vec![
                t("an integer is valid", n("1"), true),
                t("a string is valid", s("foo"), true),
                t("a float is invalid", n("1.1"), false),
                t("a boolean is invalid", Json::Bool(true), false),
            ],
        },
        Group {
            description: "required validation",
            optional: false,
            schema: obj(vec![
                ("properties", obj(vec![("foo", obj(vec![])), ("bar", obj(vec![]))])),
                ("required", arr(vec![s("foo")])),
            ]),
            tests: vec![
                t("present required property is valid", obj(vec![("foo", n("1"))]), true),
                t("non-present required property is invalid", obj(vec![("bar", n("1"))]), false),
                t("ignores arrays", arr(vec![]), true),
                t("ignores strings", s(""), true),
            ],
        },
        Group {
            description: "object properties validation",
            optional: false,
            schema: obj(vec![(
                "properties",
                obj(vec![
                    ("foo", obj(vec![("type", s("integer"))])),
                    ("bar", obj(vec![("type", s("string"))])),
                ]),
            )]),
            tests: vec![
                t("both properties present and valid is valid", obj(vec![("foo", n("1")), ("bar", s("baz"))]), true),
                t("one property invalid is invalid", obj(vec![("foo", n("1")), ("bar", obj(vec![]))]), false),
                t("doesn't invalidate other properties", obj(vec![("quux", arr(vec![]))]), true),
                t("ignores arrays", arr(vec![]), true),
            ],
        },
        Group {
            description: "a schema given for items",
            optional: false,
            schema: obj(vec![("items", obj(vec![("type", s("integer"))]))]),
            tests: vec![
                t("valid items", arr(vec![n("1"), n("2"), n("3")]), true),
                t("wrong type of items", arr(vec![n("1"), s("x")]), false),
                t("ignores non-arrays", obj(vec![("foo", s("bar"))]), true),
            ],
        },
        Group {
            description: "allOf",
            optional: false,
            schema: obj(vec![(
                "allOf",
                arr(vec![
                    obj(vec![("properties", obj(vec![("bar", obj(vec![("type", s("integer"))]))])), ("required", arr(vec![s("bar")]))]),
                    obj(vec![("properties", obj(vec![("foo", obj(vec![("type", s("string"))]))])), ("required", arr(vec![s("foo")]))]),
                ]),
            )]),
            tests: vec![
                t("allOf", obj(vec![("foo", s("baz")), ("bar", n("2"))]), true),
                t("mismatch second", obj(vec![("foo", s("baz"))]), false),
                t("mismatch first", obj(vec![("bar", n("2"))]), false),
                t("wrong type", obj(vec![("foo", s("baz")), ("bar", s("quux"))]), false),
            ],
        },
        Group {
            description: "anyOf",
            optional: false,
            schema: obj(vec![("anyOf", arr(vec![obj(vec![("type", s("integer"))]), obj(vec![("type", s("string"))])]))]),
            tests: vec![
                t("first anyOf valid", n("1"), true),
                t("second anyOf valid", s("foo"), true),
                t("neither anyOf valid", n("1.5"), false),
            ],
        },
        Group {
            description: "oneOf",
            optional: false,
            schema: obj(vec![("oneOf", arr(vec![obj(vec![("type", s("integer"))]), obj(vec![("type", s("number"))])]))]),
            tests: vec![
                t("second oneOf valid", n("2.5"), true),
                t("both oneOf valid", n("3"), false),
                t("neither oneOf valid", s("foo"), false),
            ],
        },
        Group {
            description: "not",
            optional: false,
            schema: obj(vec![("not", obj(vec![("type", s("integer"))]))]),
            tests: vec![t("allowed", s("foo"), true), t("disallowed", n("1"), false)],
        },
        Group {
            description: "root pointer ref",
            optional: false,
            schema: obj(vec![
                ("type", s("object")),
                ("properties", obj(vec![("foo", obj(vec![("$ref", s("#"))]))])),
            ]),
            tests: vec![
                t("match", obj(vec![("foo", obj(vec![]))]), true),
                t("recursive match", obj(vec![("foo", obj(vec![("foo", obj(vec![]))]))]), true),
                t("mismatch", obj(vec![("foo", n("1"))]), false),
                t("recursive mismatch", obj(vec![("foo", obj(vec![("foo", s("x"))]))]), false),
            ],
        },
        Group {
            description: "relative pointer ref to object",
            optional: false,
            schema: obj(vec![(
                "properties",
                obj(vec![
                    ("foo", obj(vec![("type", s("integer"))])),
                    ("bar", obj(vec![("$ref", s("#/properties/foo"))])),
                ]),
            )]),
            tests: vec![t("match", obj(vec![("bar", n("3"))]), true), t("mismatch", obj(vec![("bar", Json::Bool(true))]), false)],
        },
        Group {
            description: "escaped pointer ref",
            optional: false,
            schema: obj(vec![
                (
                    defs(draft),
                    obj(vec![
                        ("tilde~field", obj(vec![("type", s("integer"))])),
                        ("slash/field", obj(vec![("type", s("integer"))])),
                        ("percent%field", obj(vec![("type", s("integer"))])),
                    ]),
                ),
                (
                    "properties",
                    obj(vec![
                        ("tilde", obj(vec![("$ref", s(&format!("#/{}/tilde~0field", defs(draft))))])),
                        ("slash", obj(vec![("$ref", s(&format!("#/{}/slash~1field", defs(draft))))])),
                        ("percent", obj(vec![("$ref", s(&format!("#/{}/percent%25field", defs(draft))))])),
                    ]),
                ),
            ]),
            tests: vec![
                t("slash invalid", obj(vec![("slash", s("aoeu"))]), false),
                t("tilde invalid", obj(vec![("tilde", s("aoeu"))]), false),
                t("percent invalid", obj(vec![("percent", s("aoeu"))]), false),
                t("slash valid", obj(vec![("slash", n("123"))]), true),
                t("tilde valid", obj(vec![("tilde", n("123"))]), true),
                t("percent valid", obj(vec![("percent", n("123"))]), true),
            ],
        },
        Group {
            description: "remote ref",
            optional: false,
            schema: obj(vec![("$ref", s("http://localhost:1234/integer.json"))]),
            tests: vec![t("remote ref valid", n("1"), true), t("remote ref invalid", s("a"), false)],
        },
        Group {
            description: "ref within remote ref",
            optional: false,
            schema: obj(vec![("$ref", s("http://localhost:1234/subSchemas.json#/definitions/refToInteger"))]),
            tests: vec![t("ref within ref valid", n("1"), true), t("ref within ref invalid", s("a"), false)],
        },
        Group {
            description: "base URI change",
            optional: false,
            schema: obj(vec![
                (id, s("http://localhost:1234/")),
                ("items", obj(vec![(id, s("baseUriChange/")), ("items", obj(vec![("$ref", s("../integer.json"))]))])),
            ]),
            tests: vec![
                t("base URI change ref valid", arr(vec![arr(vec![n("1")])]), true),
                t("base URI change ref invalid", arr(vec![arr(vec![s("a")])]), false),
            ],
        },
    ];
    if draft.version() >= 6 {
        all.push(Group {
            description: "boolean schema 'false'",
            optional: false,
            schema: Json::Bool(false),
            tests: vec![t("number is invalid", n("1"), false), t("null is invalid", Json::Null, false)],
        });
        all.push(Group {
            description: "boolean schema 'true'",
            optional: false,
            schema: Json::Bool(true),
            tests: vec![t("number is valid", n("1"), true), t("empty array is valid", arr(vec![]), true)],
        });
    }
    if draft.version() < 2019 {
        all.push(Group {
            description: "location-independent identifier",
            optional: false,
            schema: obj(vec![
                ("allOf", arr(vec![obj(vec![("$ref", s("#foo"))])])),
                ("definitions", obj(vec![("A", obj(vec![(id, s("#foo")), ("type", s("integer"))]))])),
            ]),
            tests: vec![t("match", n("1"), true), t("mismatch", s("a"), false)],
        });
        all.push(Group {
            description: "ref overrides any sibling keywords",
            optional: false,
            schema: obj(vec![
                ("definitions", obj(vec![("reffed", obj(vec![("type", s("array"))]))])),
                (
                    "properties",
                    obj(vec![(
                        "foo",
                        obj(vec![("$ref", s("#/definitions/reffed")), ("required", arr(vec![s("x")]))]),
                    )]),
                ),
            ]),
            tests: vec![
                t("ref valid", obj(vec![("foo", arr(vec![]))]), true),
                t("ref invalid", obj(vec![("foo", s("string"))]), false),
            ],
        });
    } else {
        all.push(Group {
            description: "location-independent identifier",
            optional: false,
            schema: obj(vec![
                ("$ref", s("#foo")),
                ("$defs", obj(vec![("A", obj(vec![("$anchor", s("foo")), ("type", s("integer"))]))])),
            ]),
            tests: vec![t("match", n("1"), true), t("mismatch", s("a"), false)],
        });
        all.push(Group {
            description: "ref applies alongside sibling keywords",
            optional: false,
            schema: obj(vec![
                ("$defs", obj(vec![("reffed", obj(vec![("type", s("array"))]))])),
                (
                    "properties",
                    obj(vec![(
                        "foo",
                        obj(vec![("$ref", s("#/$defs/reffed")), ("items", obj(vec![("type", s("null"))]))]),
                    )]),
                ),
            ]),
            tests: vec![
                t("ref valid, items valid", obj(vec![("foo", arr(vec![Json::Null]))]), true),
                t("ref valid, items invalid", obj(vec![("foo", arr(vec![n("1")]))]), false),
                t("ref invalid", obj(vec![("foo", s("string"))]), false),
            ],
        });
    }
    if draft.version() >= 2020 {
        all.push(Group {
            description: "a schema given for prefixItems",
            optional: false,
            schema: obj(vec![("prefixItems", arr(vec![obj(vec![("type", s("integer"))]), obj(vec![("type", s("string"))])]))]),
            tests: vec![
                t("correct types", arr(vec![n("1"), s("foo")]), true),
                t("wrong types", arr(vec![s("foo"), n("1")]), false),
                t("incomplete array of items", arr(vec![n("1")]), true),
                t("array with additional items", arr(vec![n("1"), s("foo"), Json::Bool(true)]), true),
            ],
        });
        all.push(Group {
            description: "A $dynamicRef to a $dynamicAnchor in the same schema resource behaves like a normal $ref to an $anchor",
            optional: false,
            schema: obj(vec![
                ("$id", s("https://test.json-schema.org/dynamicRef-dynamicAnchor-same-schema/root")),
                ("type", s("array")),
                ("items", obj(vec![("$dynamicRef", s("#items"))])),
                ("$defs", obj(vec![("foo", obj(vec![("$dynamicAnchor", s("items")), ("type", s("string"))]))])),
            ]),
            tests: vec![
                t("An array of strings is valid", arr(vec![s("foo"), s("bar")]), true),
                t("An array containing non-strings is invalid", arr(vec![s("foo"), n("42")]), false),
            ],
        });
        all.push(Group {
            description: "A $dynamicRef resolves to the first $dynamicAnchor still in scope that is encountered when the schema is evaluated",
            optional: false,
            schema: obj(vec![
                ("$id", s("https://test.json-schema.org/typical-dynamic-resolution/root")),
                ("$ref", s("list")),
                (
                    "$defs",
                    obj(vec![
                        ("foo", obj(vec![("$dynamicAnchor", s("items")), ("type", s("string"))])),
                        (
                            "list",
                            obj(vec![
                                ("$id", s("list")),
                                ("type", s("array")),
                                ("items", obj(vec![("$dynamicRef", s("#items"))])),
                                ("$defs", obj(vec![("items", obj(vec![("$dynamicAnchor", s("items"))]))])),
                            ]),
                        ),
                    ]),
                ),
            ]),
            tests: vec![
                t("An array of strings is valid", arr(vec![s("foo"), s("bar")]), true),
                t("An array containing non-strings is invalid", arr(vec![s("foo"), n("42")]), false),
            ],
        });
    } else {
        all.push(Group {
            description: "an array of schemas for items",
            optional: false,
            schema: obj(vec![
                ("items", arr(vec![obj(vec![("type", s("integer"))]), obj(vec![("type", s("string"))])])),
                ("additionalItems", obj(vec![("type", s("null"))])),
            ]),
            tests: vec![
                t("correct types", arr(vec![n("1"), s("foo")]), true),
                t("wrong types", arr(vec![s("foo"), n("1")]), false),
                t("incomplete array of items", arr(vec![n("1")]), true),
                t("additional items match schema", arr(vec![n("1"), s("foo"), Json::Null]), true),
                t("additional items do not match schema", arr(vec![n("1"), s("foo"), n("2")]), false),
            ],
        });
    }
    if draft.version() >= 2019 {
        all.push(Group {
            description: "reference of a root arbitrary keyword",
            optional: true,
            schema: obj(vec![
                ("unknown-keyword", obj(vec![("type", s("integer"))])),
                ("properties", obj(vec![("bar", obj(vec![("$ref", s("#/unknown-keyword"))]))])),
            ]),
            tests: vec![
                t("match", obj(vec![("bar", n("3"))]), true),
                t("mismatch", obj(vec![("bar", Json::Bool(true))]), false),
            ],
        });
        all.push(Group {
            description: "reference of an arbitrary keyword of a sub-schema",
            optional: true,
            schema: obj(vec![(
                "properties",
                obj(vec![
                    ("foo", obj(vec![("unknown-keyword", obj(vec![("type", s("integer"))]))])),
                    ("bar", obj(vec![("$ref", s("#/properties/foo/unknown-keyword"))])),
                ]),
            )]),
            tests: vec![
                t("match", obj(vec![("bar", n("3"))]), true),
                t("mismatch", obj(vec![("bar", Json::Bool(true))]), false),
            ],
        });
    }
    println!("DIR: {name}: {} groups", all.len());
    all
}

fn run_dir(path: &str, draft: Draft) -> Result<(), String> {
    let url = "http://testsuite.com/schema.json";
    for group in groups(path, draft) {
        println!("{}", group.description);
        let mut schemas = Schemas::default();
        let mut compiler: Compiler<RemotesLoader> = Compiler::default();
        compiler.set_default_draft(draft);
        if group.optional {
            compiler.enable_format_assertions();
            compiler.enable_content_assertions();
        }
        compiler.register_url_loader("http", RemotesLoader);
        compiler.register_url_loader("https", RemotesLoader);
        compiler.add_resource(url, group.schema).map_err(|e| format!("{e:?}"))?;
        let sch_index = compiler.compile(&mut schemas, url).map_err(|e| format!("{e:?}"))?;
        for test in group.tests {
            println!("    {}", test.description);
            let result = schemas.validate(&test.data, sch_index);
            if let Err(e) = &result {
                println!("        {e:?}");
            }
            assert_eq!(result.is_ok(), test.valid);
        }
    }
    Ok(())
}

#[test]
fn test_suite() -> Result<(), String> {
    run_dir("draft4", Draft::V4)?;
    run_dir("draft6", Draft::V6)?;
    run_dir("draft7", Draft::V7)?;
    run_dir("draft2019-09", Draft::V2019_09)?;
    run_dir("draft2020-12", Draft::V2020_12)?;
    Ok(())
}
