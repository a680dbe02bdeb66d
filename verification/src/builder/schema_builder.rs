//! The pieces that a schema document is built from, and a builder that
//! writes the keywords of a schema one by one.

use vstd::prelude::*;
use vstd::string::*;
use crate::json::{lemma_member_index, member_index, Json};
use crate::pointer::{decimal_text, index_digits};
use crate::text::str_eq;

verus! {

/// The types that the `type` keyword can name.
#[derive(Clone, Copy, Debug, PartialEq, Eq, Structural)]
pub enum PrimitiveType {
    Array,
    Boolean,
    Integer,
    Number,
    Null,
    Object,
    String,
}

impl PrimitiveType {
    /// The name of the type as the `type` keyword writes it.
    pub open spec fn name(self) -> Seq<char> {
        match self {
            PrimitiveType::Array => "array"@,
            PrimitiveType::Boolean => "boolean"@,
            PrimitiveType::Integer => "integer"@,
            PrimitiveType::Number => "number"@,
            PrimitiveType::Null => "null"@,
            PrimitiveType::Object => "object"@,
            PrimitiveType::String => "string"@,
        }
    }

    /// The name of the type.
    pub fn to_string(&self) -> (r: &'static str)
        ensures
            r@ == self.name(),
    {
        match self {
            PrimitiveType::Array => "array",
            PrimitiveType::Boolean => "boolean",
            PrimitiveType::Integer => "integer",
            PrimitiveType::Number => "number",
            PrimitiveType::Null => "null",
            PrimitiveType::Object => "object",
            PrimitiveType::String => "string",
        }
    }
}

/// The member named `key` among `members`: the first of that name.
pub open spec fn field(members: Seq<(String, Json)>, key: Seq<char>) -> Option<Json> {
    let i = member_index(members, key);
    if i < members.len() {
        Some(members[i].1)
    } else {
        None
    }
}

/// `after` is `before` with the member `key` set to `value`: every other
/// name stands for what it stood for.
pub open spec fn sets(
    after: Seq<(String, Json)>,
    before: Seq<(String, Json)>,
    key: Seq<char>,
    value: Json,
) -> bool {
    &&& field(after, key) == Some(value)
    &&& forall|k: Seq<char>| k != key ==> #[trigger] field(after, k) == field(before, k)
}

/// `after` is `before` but for the member `key`, which it has.
pub open spec fn sets_some(
    after: Seq<(String, Json)>,
    before: Seq<(String, Json)>,
    key: Seq<char>,
) -> bool {
    &&& field(after, key) is Some
    &&& forall|k: Seq<char>| k != key ==> #[trigger] field(after, k) == field(before, k)
}

/// `v` is the string `text`.
pub open spec fn is_text(v: Json, text: Seq<char>) -> bool {
    v matches Json::String(s) && s@ == text
}

/// `v` is the number `n`, written in base ten.
pub open spec fn is_number(v: Json, n: nat) -> bool {
    v matches Json::Number(s) && s@ == index_digits(n)
}

/// `v` is the array of the strings `names`.
pub open spec fn is_names(v: Json, names: Seq<Seq<char>>) -> bool {
    v matches Json::Array(items) && items@.len() == names.len() && forall|i: int|
        0 <= i < names.len() ==> is_text(#[trigger] items@[i], names[i])
}

/// Sets the member `key` of `members` to `value`: in place where there
/// is a member of that name, at the end where there is none.
pub fn put(members: &mut Vec<(String, Json)>, key: &str, value: Json)
    ensures
        sets(final(members)@, old(members)@, key@, value),
        final(members)@.len() == old(members)@.len() + (if field(old(members)@, key@) is Some {
            0int
        } else {
            1int
        }),
        ({
            let i = member_index(old(members)@, key@);
            if i < old(members)@.len() {
                final(members)@ == old(members)@.update(i, (old(members)@[i].0, value))
            } else {
                &&& final(members)@.take(old(members)@.len() as int) == old(members)@
                &&& final(members)@.last().0@ == key@
                &&& final(members)@.last().1 == value
            }
        }),
{
    let ghost before = members@;
    let mut i: usize = 0;
    proof {
        lemma_member_index(before, key@);
    }
    while i < members.len()
        invariant
            i <= members.len(),
            members@ == before,
            before == old(members)@,
            i <= member_index(before, key@) <= before.len(),
        decreases members.len() - i,
    {
        if str_eq(members[i].0.as_str(), key) {
            members[i].1 = value;
            proof {
                let after = members@;
                assert(after =~= before.update(i as int, (before[i as int].0, value)));
                lemma_member_index(before, key@);
                assert(before[i as int].0@ == key@);
                assert(member_index(before, key@) == i);
                assert forall|k: Seq<char>| #[trigger] field(after, k) == (if k == key@ {
                    Some(value)
                } else {
                    field(before, k)
                }) by {
                    lemma_member_index(before, k);
                    lemma_member_index(after, k);
                    let a = member_index(before, k);
                    let b = member_index(after, k);
                    assert forall|j: int| 0 <= j < before.len() implies (#[trigger] after[j]).0@
                        == before[j].0@ by {}
                    if a < before.len() {
                        assert(after[a].0@ == k);
                    }
                    if b < after.len() {
                        assert(before[b].0@ == k);
                    }
                    assert(a == b);
                }
            }
            return;
        }
        proof {
            lemma_member_index(before, key@);
            assert(before[i as int].0@ != key@);
        }
        i = i + 1;
    }
    members.push((key.to_owned(), value));
    proof {
        let after = members@;
        assert(after.take(before.len() as int) =~= before);
        assert forall|k: Seq<char>| #[trigger] field(after, k) == (if k == key@ {
            Some(value)
        } else {
            field(before, k)
        }) by {
            lemma_member_index(before, k);
            lemma_member_index(after, k);
            let a = member_index(before, k);
            let b = member_index(after, k);
            let last = before.len() as int;
            assert forall|j: int| 0 <= j < before.len() implies (#[trigger] after[j]) == before[j] by {}
            assert(after[last].0@ == key@ && after[last].1 == value);
            if a < before.len() {
                assert(after[a] == before[a]);
                assert(after[a].0@ == k);
                if b < a {
                    assert(after[b] == before[b]);
                    assert(before[b].0@ == k);
                }
                assert(a == b);
            } else {
                if b < before.len() {
                    assert(after[b] == before[b]);
                    assert(before[b].0@ == k);
                }
                if k == key@ {
                    assert(b == last);
                } else {
                    assert(b == after.len());
                }
            }
        }
    }
}

/// The array of the strings `names`.
pub fn names_value(names: &Vec<String>) -> (r: Json)
    ensures
        is_names(r, crate::outline::text_views(names@)),
{
    let mut items: Vec<Json> = Vec::new();
    let mut i: usize = 0;
    while i < names.len()
        invariant
            i <= names.len(),
            items@.len() == i,
            forall|j: int| 0 <= j < i ==> is_text(#[trigger] items@[j], names@[j]@),
        decreases names.len() - i,
    {
        items.push(Json::String(names[i].clone()));
        i = i + 1;
    }
    Json::Array(items)
}

/// An array of schemas in the making.
pub struct SchemaArray {
    pub items: Vec<Json>,
}

impl SchemaArray {
    /// An array without schemas.
    pub fn new() -> (r: SchemaArray)
        ensures
            r.items@.len() == 0,
    {
        SchemaArray { items: Vec::new() }
    }

    /// Adds the schema that `build` writes.
    pub fn push<F>(&mut self, build: F) where F: FnOnce(&mut JsonSchemaBuilder)
        requires
            forall|b: &mut JsonSchemaBuilder| build.requires((b,)),
        ensures
            final(self).items@.len() == old(self).items@.len() + 1,
            final(self).items@[old(self).items@.len() as int] is Object,
            forall|i: int|
                0 <= i < old(self).items@.len() ==> final(self).items@[i] == old(self).items@[i],
            exists|b: &mut JsonSchemaBuilder| #[trigger]
                build.ensures((b,), ()) && (*b).members@.len() == 0 && final(self).items@.last()
                    == Json::Object((*final(b)).members),
    {
        self.items.push(JsonSchemaBuilder::build(build).into_json());
    }
}

/// Schemas by name, in the making.
pub struct SchemaHash {
    pub items: Vec<(String, Json)>,
}

impl SchemaHash {
    /// No schemas.
    pub fn new() -> (r: SchemaHash)
        ensures
            r.items@.len() == 0,
    {
        SchemaHash { items: Vec::new() }
    }

    /// Sets the schema named `key` to the one that `build` writes.
    pub fn insert<F>(&mut self, key: &str, build: F) where F: FnOnce(&mut JsonSchemaBuilder)
        requires
            forall|b: &mut JsonSchemaBuilder| build.requires((b,)),
        ensures
            sets_some(final(self).items@, old(self).items@, key@),
            final(self).items@.len() == old(self).items@.len() + (if field(
                old(self).items@,
                key@,
            ) is Some {
                0int
            } else {
                1int
            }),
            field(final(self).items@, key@)->0 is Object,
            exists|b: &mut JsonSchemaBuilder| #[trigger]
                build.ensures((b,), ()) && (*b).members@.len() == 0 && field(
                    final(self).items@,
                    key@,
                ) == Some(Json::Object((*final(b)).members)),
    {
        put(&mut self.items, key, JsonSchemaBuilder::build(build).into_json());
    }
}

/// What a property depends on.
pub enum Dependency {
    /// The value must be accepted by this schema.
    Schema(Json),
    /// These properties must be there too.
    Property(Vec<String>),
}

impl Dependency {
    /// The dependency as a document value.
    pub fn into_json(self) -> (r: Json)
        ensures
            match self {
                Dependency::Schema(schema) => r == schema,
                Dependency::Property(names) => is_names(r, crate::outline::text_views(names@)),
            },
    {
        match self {
            Dependency::Schema(schema) => schema,
            Dependency::Property(names) => names_value(&names),
        }
    }
}

/// The dependencies of the properties of an object, in the making.
pub struct Dependencies {
    pub deps: Vec<(String, Json)>,
}

impl Dependencies {
    /// No dependencies.
    pub fn new() -> (r: Dependencies)
        ensures
            r.deps@.len() == 0,
    {
        Dependencies { deps: Vec::new() }
    }

    /// Has `property` depend on the schema that `build` writes.
    pub fn schema<F>(&mut self, property: &str, build: F) where F: FnOnce(&mut JsonSchemaBuilder)
        requires
            forall|b: &mut JsonSchemaBuilder| build.requires((b,)),
        ensures
            sets_some(final(self).deps@, old(self).deps@, property@),
            final(self).deps@.len() == old(self).deps@.len() + (if field(
                old(self).deps@,
                property@,
            ) is Some {
                0int
            } else {
                1int
            }),
            field(final(self).deps@, property@)->0 is Object,
            exists|b: &mut JsonSchemaBuilder| #[trigger]
                build.ensures((b,), ()) && (*b).members@.len() == 0 && field(
                    final(self).deps@,
                    property@,
                ) == Some(Json::Object((*final(b)).members)),
    {
        let dep = Dependency::Schema(JsonSchemaBuilder::build(build).into_json());
        put(&mut self.deps, property, dep.into_json());
    }

    /// Has `property` depend on the properties `properties`.
    pub fn property(&mut self, property: &str, properties: Vec<String>)
        ensures
            sets_some(final(self).deps@, old(self).deps@, property@),
            final(self).deps@.len() == old(self).deps@.len() + (if field(
                old(self).deps@,
                property@,
            ) is Some {
                0int
            } else {
                1int
            }),
            is_names(
                field(final(self).deps@, property@)->0,
                crate::outline::text_views(properties@),
            ),
    {
        put(&mut self.deps, property, Dependency::Property(properties).into_json());
    }

    /// The dependencies that `build` writes: what `build` makes of no
    /// dependencies.
    pub fn build<F>(build: F) -> (r: Dependencies) where F: FnOnce(&mut Dependencies)
        requires
            forall|d: &mut Dependencies| build.requires((d,)),
        ensures
            exists|d: &mut Dependencies| #[trigger]
                build.ensures((d,), ()) && (*d).deps@.len() == 0 && *final(d) == r,
    {
        let mut deps = Dependencies::new();
        build(&mut deps);
        deps
    }

    /// The dependencies as a document value.
    pub fn into_json(self) -> (r: Json)
        ensures
            r == Json::Object(self.deps),
    {
        Json::Object(self.deps)
    }
}

/// Writes a schema keyword by keyword. A keyword that is written twice
/// keeps its place and takes the later value.
pub struct JsonSchemaBuilder {
    pub members: Vec<(String, Json)>,
}

impl JsonSchemaBuilder {
    /// A schema without keywords.
    pub fn new() -> (r: Self)
        ensures
            r.members@.len() == 0,
    {
        JsonSchemaBuilder { members: Vec::new() }
    }

    /// The schema that `build` writes: what `build` makes of a schema
    /// without keywords.
    pub fn build<F>(build: F) -> (r: JsonSchemaBuilder) where F: FnOnce(&mut JsonSchemaBuilder)
        requires
            forall|b: &mut JsonSchemaBuilder| build.requires((b,)),
        ensures
            exists|b: &mut JsonSchemaBuilder| #[trigger]
                build.ensures((b,), ()) && (*b).members@.len() == 0 && *final(b) == r,
    {
        let mut builder = JsonSchemaBuilder::new();
        build(&mut builder);
        builder
    }

    /// The schema as a document value.
    pub fn into_json(self) -> (r: Json)
        ensures
            r == Json::Object(self.members),
    {
        Json::Object(self.members)
    }

    fn set_text(&mut self, key: &str, text: &str)
        ensures
            sets_some(final(self).members@, old(self).members@, key@),
            final(self).members@.len() == old(self).members@.len() + (if field(
                old(self).members@,
                key@,
            ) is Some {
                0int
            } else {
                1int
            }),
            is_text(field(final(self).members@, key@)->0, text@),
    {
        put(&mut self.members, key, Json::String(text.to_owned()));
    }

    fn set_number(&mut self, key: &str, number: u64)
        ensures
            sets_some(final(self).members@, old(self).members@, key@),
            final(self).members@.len() == old(self).members@.len() + (if field(
                old(self).members@,
                key@,
            ) is Some {
                0int
            } else {
                1int
            }),
            is_number(field(final(self).members@, key@)->0, number as nat),
    {
        put(&mut self.members, key, Json::Number(decimal_text(number)));
    }

    fn set_schema<F>(&mut self, key: &str, build: F) where F: FnOnce(&mut JsonSchemaBuilder)
        requires
            forall|b: &mut JsonSchemaBuilder| build.requires((b,)),
        ensures
            sets_some(final(self).members@, old(self).members@, key@),
            final(self).members@.len() == old(self).members@.len() + (if field(
                old(self).members@,
                key@,
            ) is Some {
                0int
            } else {
                1int
            }),
            field(final(self).members@, key@)->0 is Object,
            exists|b: &mut JsonSchemaBuilder| #[trigger]
                build.ensures((b,), ()) && (*b).members@.len() == 0 && field(
                    final(self).members@,
                    key@,
                ) == Some(Json::Object((*final(b)).members)),
    {
        put(&mut self.members, key, JsonSchemaBuilder::build(build).into_json());
    }

    fn set_hash<F>(&mut self, key: &str, build: F) where F: FnOnce(&mut SchemaHash)
        requires
            forall|h: &mut SchemaHash| build.requires((h,)),
        ensures
            sets_some(final(self).members@, old(self).members@, key@),
            final(self).members@.len() == old(self).members@.len() + (if field(
                old(self).members@,
                key@,
            ) is Some {
                0int
            } else {
                1int
            }),
            field(final(self).members@, key@)->0 is Object,
            exists|h: &mut SchemaHash| #[trigger]
                build.ensures((h,), ()) && (*h).items@.len() == 0 && field(
                    final(self).members@,
                    key@,
                ) == Some(Json::Object((*final(h)).items)),
    {
        let mut items = SchemaHash::new();
        build(&mut items);
        put(&mut self.members, key, Json::Object(items.items));
    }

    fn set_array<F>(&mut self, key: &str, build: F) where F: FnOnce(&mut SchemaArray)
        requires
            forall|a: &mut SchemaArray| build.requires((a,)),
        ensures
            sets_some(final(self).members@, old(self).members@, key@),
            final(self).members@.len() == old(self).members@.len() + (if field(
                old(self).members@,
                key@,
            ) is Some {
                0int
            } else {
                1int
            }),
            field(final(self).members@, key@)->0 is Array,
            exists|a: &mut SchemaArray| #[trigger]
                build.ensures((a,), ()) && (*a).items@.len() == 0 && field(
                    final(self).members@,
                    key@,
                ) == Some(Json::Array((*final(a)).items)),
    {
        let mut items = SchemaArray::new();
        build(&mut items);
        put(&mut self.members, key, Json::Array(items.items));
    }

    /// Writes `$id`.
    pub fn id(&mut self, url: &str)
        ensures
            sets_some(final(self).members@, old(self).members@, "$id"@),
            final(self).members@.len() == old(self).members@.len() + (if field(
                old(self).members@,
                "$id"@,
            ) is Some {
                0int
            } else {
                1int
            }),
            is_text(field(final(self).members@, "$id"@)->0, url@),
    {
        self.set_text("$id", url);
    }

    /// Writes `$ref`.
    pub fn ref_(&mut self, url: &str)
        ensures
            sets_some(final(self).members@, old(self).members@, "$ref"@),
            final(self).members@.len() == old(self).members@.len() + (if field(
                old(self).members@,
                "$ref"@,
            ) is Some {
                0int
            } else {
                1int
            }),
            is_text(field(final(self).members@, "$ref"@)->0, url@),
    {
        self.set_text("$ref", url);
    }

    /// Writes `$anchor`.
    pub fn anchor(&mut self, name: &str)
        ensures
            sets_some(final(self).members@, old(self).members@, "$anchor"@),
            final(self).members@.len() == old(self).members@.len() + (if field(
                old(self).members@,
                "$anchor"@,
            ) is Some {
                0int
            } else {
                1int
            }),
            is_text(field(final(self).members@, "$anchor"@)->0, name@),
    {
        self.set_text("$anchor", name);
    }

    /// Writes `$schema`.
    pub fn schema(&mut self, url: &str)
        ensures
            sets_some(final(self).members@, old(self).members@, "$schema"@),
            final(self).members@.len() == old(self).members@.len() + (if field(
                old(self).members@,
                "$schema"@,
            ) is Some {
                0int
            } else {
                1int
            }),
            is_text(field(final(self).members@, "$schema"@)->0, url@),
    {
        self.set_text("$schema", url);
    }

    /// Writes `description`.
    pub fn desc(&mut self, text: &str)
        ensures
            sets_some(final(self).members@, old(self).members@, "description"@),
            final(self).members@.len() == old(self).members@.len() + (if field(
                old(self).members@,
                "description"@,
            ) is Some {
                0int
            } else {
                1int
            }),
            is_text(field(final(self).members@, "description"@)->0, text@),
    {
        self.set_text("description", text);
    }

    /// Writes `title`.
    pub fn title(&mut self, text: &str)
        ensures
            sets_some(final(self).members@, old(self).members@, "title"@),
            final(self).members@.len() == old(self).members@.len() + (if field(
                old(self).members@,
                "title"@,
            ) is Some {
                0int
            } else {
                1int
            }),
            is_text(field(final(self).members@, "title"@)->0, text@),
    {
        self.set_text("title", text);
    }

    /// Writes `pattern`.
    pub fn pattern(&mut self, pattern: &str)
        ensures
            sets_some(final(self).members@, old(self).members@, "pattern"@),
            final(self).members@.len() == old(self).members@.len() + (if field(
                old(self).members@,
                "pattern"@,
            ) is Some {
                0int
            } else {
                1int
            }),
            is_text(field(final(self).members@, "pattern"@)->0, pattern@),
    {
        self.set_text("pattern", pattern);
    }

    /// Writes `format`.
    pub fn format(&mut self, format: &str)
        ensures
            sets_some(final(self).members@, old(self).members@, "format"@),
            final(self).members@.len() == old(self).members@.len() + (if field(
                old(self).members@,
                "format"@,
            ) is Some {
                0int
            } else {
                1int
            }),
            is_text(field(final(self).members@, "format"@)->0, format@),
    {
        self.set_text("format", format);
    }

    /// Writes `contentMediaType`.
    pub fn content_media_type(&mut self, type_: String)
        ensures
            sets_some(final(self).members@, old(self).members@, "contentMediaType"@),
            final(self).members@.len() == old(self).members@.len() + (if field(
                old(self).members@,
                "contentMediaType"@,
            ) is Some {
                0int
            } else {
                1int
            }),
            is_text(field(final(self).members@, "contentMediaType"@)->0, type_@),
    {
        self.set_text("contentMediaType", type_.as_str());
    }

    /// Writes `contentEncoding`.
    pub fn content_encoding(&mut self, type_: String)
        ensures
            sets_some(final(self).members@, old(self).members@, "contentEncoding"@),
            final(self).members@.len() == old(self).members@.len() + (if field(
                old(self).members@,
                "contentEncoding"@,
            ) is Some {
                0int
            } else {
                1int
            }),
            is_text(field(final(self).members@, "contentEncoding"@)->0, type_@),
    {
        self.set_text("contentEncoding", type_.as_str());
    }

    /// Writes `maxLength`.
    pub fn max_length(&mut self, number: u64)
        ensures
            sets_some(final(self).members@, old(self).members@, "maxLength"@),
            final(self).members@.len() == old(self).members@.len() + (if field(
                old(self).members@,
                "maxLength"@,
            ) is Some {
                0int
            } else {
                1int
            }),
            is_number(field(final(self).members@, "maxLength"@)->0, number as nat),
    {
        self.set_number("maxLength", number);
    }

    /// Writes `minLength`.
    pub fn min_length(&mut self, number: u64)
        ensures
            sets_some(final(self).members@, old(self).members@, "minLength"@),
            final(self).members@.len() == old(self).members@.len() + (if field(
                old(self).members@,
                "minLength"@,
            ) is Some {
                0int
            } else {
                1int
            }),
            is_number(field(final(self).members@, "minLength"@)->0, number as nat),
    {
        self.set_number("minLength", number);
    }

    /// Writes `maxItems`.
    pub fn max_items(&mut self, number: u64)
        ensures
            sets_some(final(self).members@, old(self).members@, "maxItems"@),
            final(self).members@.len() == old(self).members@.len() + (if field(
                old(self).members@,
                "maxItems"@,
            ) is Some {
                0int
            } else {
                1int
            }),
            is_number(field(final(self).members@, "maxItems"@)->0, number as nat),
    {
        self.set_number("maxItems", number);
    }

    /// Writes `minItems`.
    pub fn min_items(&mut self, number: u64)
        ensures
            sets_some(final(self).members@, old(self).members@, "minItems"@),
            final(self).members@.len() == old(self).members@.len() + (if field(
                old(self).members@,
                "minItems"@,
            ) is Some {
                0int
            } else {
                1int
            }),
            is_number(field(final(self).members@, "minItems"@)->0, number as nat),
    {
        self.set_number("minItems", number);
    }

    /// Writes `maxProperties`.
    pub fn max_properties(&mut self, number: u64)
        ensures
            sets_some(final(self).members@, old(self).members@, "maxProperties"@),
            final(self).members@.len() == old(self).members@.len() + (if field(
                old(self).members@,
                "maxProperties"@,
            ) is Some {
                0int
            } else {
                1int
            }),
            is_number(field(final(self).members@, "maxProperties"@)->0, number as nat),
    {
        self.set_number("maxProperties", number);
    }

    /// Writes `minProperties`.
    pub fn min_properties(&mut self, number: u64)
        ensures
            sets_some(final(self).members@, old(self).members@, "minProperties"@),
            final(self).members@.len() == old(self).members@.len() + (if field(
                old(self).members@,
                "minProperties"@,
            ) is Some {
                0int
            } else {
                1int
            }),
            is_number(field(final(self).members@, "minProperties"@)->0, number as nat),
    {
        self.set_number("minProperties", number);
    }

    /// Writes `additionalItems` as a boolean.
    pub fn additional_items(&mut self, allow: bool)
        ensures
            sets(final(self).members@, old(self).members@, "additionalItems"@, Json::Bool(allow)),
            final(self).members@.len() == old(self).members@.len() + (if field(
                old(self).members@,
                "additionalItems"@,
            ) is Some {
                0int
            } else {
                1int
            }),
    {
        put(&mut self.members, "additionalItems", Json::Bool(allow));
    }

    /// Writes `uniqueItems` as a boolean.
    pub fn unique_items(&mut self, unique: bool)
        ensures
            sets(final(self).members@, old(self).members@, "uniqueItems"@, Json::Bool(unique)),
            final(self).members@.len() == old(self).members@.len() + (if field(
                old(self).members@,
                "uniqueItems"@,
            ) is Some {
                0int
            } else {
                1int
            }),
    {
        put(&mut self.members, "uniqueItems", Json::Bool(unique));
    }

    /// Writes `additionalProperties` as a boolean.
    pub fn additional_properties(&mut self, allow: bool)
        ensures
            sets(final(self).members@, old(self).members@, "additionalProperties"@, Json::Bool(allow)),
            final(self).members@.len() == old(self).members@.len() + (if field(
                old(self).members@,
                "additionalProperties"@,
            ) is Some {
                0int
            } else {
                1int
            }),
    {
        put(&mut self.members, "additionalProperties", Json::Bool(allow));
    }

    /// Writes `items` as the schema that `build` writes.
    pub fn items_schema<F>(&mut self, build: F) where F: FnOnce(&mut JsonSchemaBuilder)
        requires
            forall|b: &mut JsonSchemaBuilder| build.requires((b,)),
        ensures
            sets_some(final(self).members@, old(self).members@, "items"@),
            final(self).members@.len() == old(self).members@.len() + (if field(
                old(self).members@,
                "items"@,
            ) is Some {
                0int
            } else {
                1int
            }),
            field(final(self).members@, "items"@)->0 is Object,
            exists|b: &mut JsonSchemaBuilder| #[trigger]
                build.ensures((b,), ()) && (*b).members@.len() == 0 && field(
                    final(self).members@,
                    "items"@,
                ) == Some(Json::Object((*final(b)).members)),
    {
        self.set_schema("items", build);
    }

    /// Writes `additionalItems` as the schema that `build` writes.
    pub fn additional_items_schema<F>(&mut self, build: F) where F: FnOnce(&mut JsonSchemaBuilder)
        requires
            forall|b: &mut JsonSchemaBuilder| build.requires((b,)),
        ensures
            sets_some(final(self).members@, old(self).members@, "additionalItems"@),
            final(self).members@.len() == old(self).members@.len() + (if field(
                old(self).members@,
                "additionalItems"@,
            ) is Some {
                0int
            } else {
                1int
            }),
            field(final(self).members@, "additionalItems"@)->0 is Object,
            exists|b: &mut JsonSchemaBuilder| #[trigger]
                build.ensures((b,), ()) && (*b).members@.len() == 0 && field(
                    final(self).members@,
                    "additionalItems"@,
                ) == Some(Json::Object((*final(b)).members)),
    {
        self.set_schema("additionalItems", build);
    }

    /// Writes `additionalProperties` as the schema that `build` writes.
    pub fn additional_properties_schema<F>(
        &mut self,
        build: F,
    ) where F: FnOnce(&mut JsonSchemaBuilder)
        requires
            forall|b: &mut JsonSchemaBuilder| build.requires((b,)),
        ensures
            sets_some(final(self).members@, old(self).members@, "additionalProperties"@),
            final(self).members@.len() == old(self).members@.len() + (if field(
                old(self).members@,
                "additionalProperties"@,
            ) is Some {
                0int
            } else {
                1int
            }),
            field(final(self).members@, "additionalProperties"@)->0 is Object,
    {
        self.set_schema("additionalProperties", build);
    }

    /// Writes `not` as the schema that `build` writes.
    pub fn not<F>(&mut self, build: F) where F: FnOnce(&mut JsonSchemaBuilder)
        requires
            forall|b: &mut JsonSchemaBuilder| build.requires((b,)),
        ensures
            sets_some(final(self).members@, old(self).members@, "not"@),
            final(self).members@.len() == old(self).members@.len() + (if field(
                old(self).members@,
                "not"@,
            ) is Some {
                0int
            } else {
                1int
            }),
            field(final(self).members@, "not"@)->0 is Object,
            exists|b: &mut JsonSchemaBuilder| #[trigger]
                build.ensures((b,), ()) && (*b).members@.len() == 0 && field(
                    final(self).members@,
                    "not"@,
                ) == Some(Json::Object((*final(b)).members)),
    {
        self.set_schema("not", build);
    }

    /// Writes `if` as the schema that `build` writes.
    pub fn if_<F>(&mut self, build: F) where F: FnOnce(&mut JsonSchemaBuilder)
        requires
            forall|b: &mut JsonSchemaBuilder| build.requires((b,)),
        ensures
            sets_some(final(self).members@, old(self).members@, "if"@),
            final(self).members@.len() == old(self).members@.len() + (if field(
                old(self).members@,
                "if"@,
            ) is Some {
                0int
            } else {
                1int
            }),
            field(final(self).members@, "if"@)->0 is Object,
            exists|b: &mut JsonSchemaBuilder| #[trigger]
                build.ensures((b,), ()) && (*b).members@.len() == 0 && field(
                    final(self).members@,
                    "if"@,
                ) == Some(Json::Object((*final(b)).members)),
    {
        self.set_schema("if", build);
    }

    /// Writes `then` as the schema that `build` writes.
    pub fn then_<F>(&mut self, build: F) where F: FnOnce(&mut JsonSchemaBuilder)
        requires
            forall|b: &mut JsonSchemaBuilder| build.requires((b,)),
        ensures
            sets_some(final(self).members@, old(self).members@, "then"@),
            final(self).members@.len() == old(self).members@.len() + (if field(
                old(self).members@,
                "then"@,
            ) is Some {
                0int
            } else {
                1int
            }),
            field(final(self).members@, "then"@)->0 is Object,
            exists|b: &mut JsonSchemaBuilder| #[trigger]
                build.ensures((b,), ()) && (*b).members@.len() == 0 && field(
                    final(self).members@,
                    "then"@,
                ) == Some(Json::Object((*final(b)).members)),
    {
        self.set_schema("then", build);
    }

    /// Writes `else` as the schema that `build` writes.
    pub fn else_<F>(&mut self, build: F) where F: FnOnce(&mut JsonSchemaBuilder)
        requires
            forall|b: &mut JsonSchemaBuilder| build.requires((b,)),
        ensures
            sets_some(final(self).members@, old(self).members@, "else"@),
            final(self).members@.len() == old(self).members@.len() + (if field(
                old(self).members@,
                "else"@,
            ) is Some {
                0int
            } else {
                1int
            }),
            field(final(self).members@, "else"@)->0 is Object,
            exists|b: &mut JsonSchemaBuilder| #[trigger]
                build.ensures((b,), ()) && (*b).members@.len() == 0 && field(
                    final(self).members@,
                    "else"@,
                ) == Some(Json::Object((*final(b)).members)),
    {
        self.set_schema("else", build);
    }

    /// Writes `$defs` as the schemas by name that `build` writes.
    pub fn definitions<F>(&mut self, build: F) where F: FnOnce(&mut SchemaHash)
        requires
            forall|h: &mut SchemaHash| build.requires((h,)),
        ensures
            sets_some(final(self).members@, old(self).members@, "$defs"@),
            final(self).members@.len() == old(self).members@.len() + (if field(
                old(self).members@,
                "$defs"@,
            ) is Some {
                0int
            } else {
                1int
            }),
            field(final(self).members@, "$defs"@)->0 is Object,
            exists|h: &mut SchemaHash| #[trigger]
                build.ensures((h,), ()) && (*h).items@.len() == 0 && field(
                    final(self).members@,
                    "$defs"@,
                ) == Some(Json::Object((*final(h)).items)),
    {
        self.set_hash("$defs", build);
    }

    /// Writes `properties` as the schemas by name that `build` writes.
    pub fn properties<F>(&mut self, build: F) where F: FnOnce(&mut SchemaHash)
        requires
            forall|h: &mut SchemaHash| build.requires((h,)),
        ensures
            sets_some(final(self).members@, old(self).members@, "properties"@),
            final(self).members@.len() == old(self).members@.len() + (if field(
                old(self).members@,
                "properties"@,
            ) is Some {
                0int
            } else {
                1int
            }),
            field(final(self).members@, "properties"@)->0 is Object,
            exists|h: &mut SchemaHash| #[trigger]
                build.ensures((h,), ()) && (*h).items@.len() == 0 && field(
                    final(self).members@,
                    "properties"@,
                ) == Some(Json::Object((*final(h)).items)),
    {
        self.set_hash("properties", build);
    }

    /// Writes `patternProperties` as the schemas by name that `build` writes.
    pub fn pattern_properties<F>(&mut self, build: F) where F: FnOnce(&mut SchemaHash)
        requires
            forall|h: &mut SchemaHash| build.requires((h,)),
        ensures
            sets_some(final(self).members@, old(self).members@, "patternProperties"@),
            final(self).members@.len() == old(self).members@.len() + (if field(
                old(self).members@,
                "patternProperties"@,
            ) is Some {
                0int
            } else {
                1int
            }),
            field(final(self).members@, "patternProperties"@)->0 is Object,
            exists|h: &mut SchemaHash| #[trigger]
                build.ensures((h,), ()) && (*h).items@.len() == 0 && field(
                    final(self).members@,
                    "patternProperties"@,
                ) == Some(Json::Object((*final(h)).items)),
    {
        self.set_hash("patternProperties", build);
    }

    /// Writes `items` as the array of schemas that `build` writes.
    pub fn items_array<F>(&mut self, build: F) where F: FnOnce(&mut SchemaArray)
        requires
            forall|a: &mut SchemaArray| build.requires((a,)),
        ensures
            sets_some(final(self).members@, old(self).members@, "items"@),
            final(self).members@.len() == old(self).members@.len() + (if field(
                old(self).members@,
                "items"@,
            ) is Some {
                0int
            } else {
                1int
            }),
            field(final(self).members@, "items"@)->0 is Array,
            exists|a: &mut SchemaArray| #[trigger]
                build.ensures((a,), ()) && (*a).items@.len() == 0 && field(
                    final(self).members@,
                    "items"@,
                ) == Some(Json::Array((*final(a)).items)),
    {
        self.set_array("items", build);
    }

    /// Writes `allOf` as the array of schemas that `build` writes.
    pub fn all_of<F>(&mut self, build: F) where F: FnOnce(&mut SchemaArray)
        requires
            forall|a: &mut SchemaArray| build.requires((a,)),
        ensures
            sets_some(final(self).members@, old(self).members@, "allOf"@),
            final(self).members@.len() == old(self).members@.len() + (if field(
                old(self).members@,
                "allOf"@,
            ) is Some {
                0int
            } else {
                1int
            }),
            field(final(self).members@, "allOf"@)->0 is Array,
            exists|a: &mut SchemaArray| #[trigger]
                build.ensures((a,), ()) && (*a).items@.len() == 0 && field(
                    final(self).members@,
                    "allOf"@,
                ) == Some(Json::Array((*final(a)).items)),
    {
        self.set_array("allOf", build);
    }

    /// Writes `anyOf` as the array of schemas that `build` writes.
    pub fn any_of<F>(&mut self, build: F) where F: FnOnce(&mut SchemaArray)
        requires
            forall|a: &mut SchemaArray| build.requires((a,)),
        ensures
            sets_some(final(self).members@, old(self).members@, "anyOf"@),
            final(self).members@.len() == old(self).members@.len() + (if field(
                old(self).members@,
                "anyOf"@,
            ) is Some {
                0int
            } else {
                1int
            }),
            field(final(self).members@, "anyOf"@)->0 is Array,
            exists|a: &mut SchemaArray| #[trigger]
                build.ensures((a,), ()) && (*a).items@.len() == 0 && field(
                    final(self).members@,
                    "anyOf"@,
                ) == Some(Json::Array((*final(a)).items)),
    {
        self.set_array("anyOf", build);
    }

    /// Writes `oneOf` as the array of schemas that `build` writes.
    pub fn one_of<F>(&mut self, build: F) where F: FnOnce(&mut SchemaArray)
        requires
            forall|a: &mut SchemaArray| build.requires((a,)),
        ensures
            sets_some(final(self).members@, old(self).members@, "oneOf"@),
            final(self).members@.len() == old(self).members@.len() + (if field(
                old(self).members@,
                "oneOf"@,
            ) is Some {
                0int
            } else {
                1int
            }),
            field(final(self).members@, "oneOf"@)->0 is Array,
            exists|a: &mut SchemaArray| #[trigger]
                build.ensures((a,), ()) && (*a).items@.len() == 0 && field(
                    final(self).members@,
                    "oneOf"@,
                ) == Some(Json::Array((*final(a)).items)),
    {
        self.set_array("oneOf", build);
    }

    /// Writes `type` as `array`.
    pub fn array(&mut self)
        ensures
            sets_some(final(self).members@, old(self).members@, "type"@),
            final(self).members@.len() == old(self).members@.len() + (if field(
                old(self).members@,
                "type"@,
            ) is Some {
                0int
            } else {
                1int
            }),
            is_text(field(final(self).members@, "type"@)->0, PrimitiveType::Array.name()),
    {
        self.set_text("type", PrimitiveType::Array.to_string());
    }

    /// Writes `type` as `boolean`.
    pub fn boolean(&mut self)
        ensures
            sets_some(final(self).members@, old(self).members@, "type"@),
            final(self).members@.len() == old(self).members@.len() + (if field(
                old(self).members@,
                "type"@,
            ) is Some {
                0int
            } else {
                1int
            }),
            is_text(field(final(self).members@, "type"@)->0, PrimitiveType::Boolean.name()),
    {
        self.set_text("type", PrimitiveType::Boolean.to_string());
    }

    /// Writes `type` as `integer`.
    pub fn integer(&mut self)
        ensures
            sets_some(final(self).members@, old(self).members@, "type"@),
            final(self).members@.len() == old(self).members@.len() + (if field(
                old(self).members@,
                "type"@,
            ) is Some {
                0int
            } else {
                1int
            }),
            is_text(field(final(self).members@, "type"@)->0, PrimitiveType::Integer.name()),
    {
        self.set_text("type", PrimitiveType::Integer.to_string());
    }

    /// Writes `type` as `number`.
    pub fn number(&mut self)
        ensures
            sets_some(final(self).members@, old(self).members@, "type"@),
            final(self).members@.len() == old(self).members@.len() + (if field(
                old(self).members@,
                "type"@,
            ) is Some {
                0int
            } else {
                1int
            }),
            is_text(field(final(self).members@, "type"@)->0, PrimitiveType::Number.name()),
    {
        self.set_text("type", PrimitiveType::Number.to_string());
    }

    /// Writes `type` as `null`.
    pub fn null(&mut self)
        ensures
            sets_some(final(self).members@, old(self).members@, "type"@),
            final(self).members@.len() == old(self).members@.len() + (if field(
                old(self).members@,
                "type"@,
            ) is Some {
                0int
            } else {
                1int
            }),
            is_text(field(final(self).members@, "type"@)->0, PrimitiveType::Null.name()),
    {
        self.set_text("type", PrimitiveType::Null.to_string());
    }

    /// Writes `type` as `object`.
    pub fn object(&mut self)
        ensures
            sets_some(final(self).members@, old(self).members@, "type"@),
            final(self).members@.len() == old(self).members@.len() + (if field(
                old(self).members@,
                "type"@,
            ) is Some {
                0int
            } else {
                1int
            }),
            is_text(field(final(self).members@, "type"@)->0, PrimitiveType::Object.name()),
    {
        self.set_text("type", PrimitiveType::Object.to_string());
    }

    /// Writes `type` as `string`.
    pub fn string(&mut self)
        ensures
            sets_some(final(self).members@, old(self).members@, "type"@),
            final(self).members@.len() == old(self).members@.len() + (if field(
                old(self).members@,
                "type"@,
            ) is Some {
                0int
            } else {
                1int
            }),
            is_text(field(final(self).members@, "type"@)->0, PrimitiveType::String.name()),
    {
        self.set_text("type", PrimitiveType::String.to_string());
    }

    /// Writes `type` as the name of `type_`.
    pub fn type_(&mut self, type_: PrimitiveType)
        ensures
            sets_some(final(self).members@, old(self).members@, "type"@),
            final(self).members@.len() == old(self).members@.len() + (if field(
                old(self).members@,
                "type"@,
            ) is Some {
                0int
            } else {
                1int
            }),
            is_text(field(final(self).members@, "type"@)->0, type_.name()),
    {
        self.set_text("type", type_.to_string());
    }

    /// Writes `type` as the array of the names of `types`.
    pub fn types(&mut self, types: &[PrimitiveType])
        ensures
            sets_some(final(self).members@, old(self).members@, "type"@),
            final(self).members@.len() == old(self).members@.len() + (if field(
                old(self).members@,
                "type"@,
            ) is Some {
                0int
            } else {
                1int
            }),
            is_names(
                field(final(self).members@, "type"@)->0,
                types@.map_values(|t: PrimitiveType| t.name()),
            ),
    {
        let mut items: Vec<Json> = Vec::new();
        let mut i: usize = 0;
        while i < types.len()
            invariant
                i <= types.len(),
                items@.len() == i,
                forall|j: int| 0 <= j < i ==> is_text(#[trigger] items@[j], types@[j].name()),
            decreases types.len() - i,
        {
            items.push(Json::String(types[i].to_string().to_owned()));
            i = i + 1;
        }
        put(&mut self.members, "type", Json::Array(items));
    }

    /// Writes `required` as the array of `items`.
    pub fn required(&mut self, items: Vec<String>)
        ensures
            sets_some(final(self).members@, old(self).members@, "required"@),
            final(self).members@.len() == old(self).members@.len() + (if field(
                old(self).members@,
                "required"@,
            ) is Some {
                0int
            } else {
                1int
            }),
            is_names(
                field(final(self).members@, "required"@)->0,
                crate::outline::text_views(items@),
            ),
    {
        put(&mut self.members, "required", names_value(&items));
    }

    /// Writes `default`.
    pub fn default(&mut self, default: Json)
        ensures
            sets(final(self).members@, old(self).members@, "default"@, default),
            final(self).members@.len() == old(self).members@.len() + (if field(
                old(self).members@,
                "default"@,
            ) is Some {
                0int
            } else {
                1int
            }),
    {
        put(&mut self.members, "default", default);
    }

    /// Writes `enum` as the array of `values`.
    pub fn enum_(&mut self, values: Vec<Json>)
        ensures
            sets(final(self).members@, old(self).members@, "enum"@, Json::Array(values)),
            final(self).members@.len() == old(self).members@.len() + (if field(
                old(self).members@,
                "enum"@,
            ) is Some {
                0int
            } else {
                1int
            }),
    {
        put(&mut self.members, "enum", Json::Array(values));
    }

    /// Writes `dependencies` as what `build` writes.
    pub fn dependencies<F>(&mut self, build: F) where F: FnOnce(&mut Dependencies)
        requires
            forall|d: &mut Dependencies| build.requires((d,)),
        ensures
            sets_some(final(self).members@, old(self).members@, "dependencies"@),
            final(self).members@.len() == old(self).members@.len() + (if field(
                old(self).members@,
                "dependencies"@,
            ) is Some {
                0int
            } else {
                1int
            }),
            field(final(self).members@, "dependencies"@)->0 is Object,
            exists|d: &mut Dependencies| #[trigger]
                build.ensures((d,), ()) && (*d).deps@.len() == 0 && field(
                    final(self).members@,
                    "dependencies"@,
                ) == Some(Json::Object((*final(d)).deps)),
    {
        put(&mut self.members, "dependencies", Dependencies::build(build).into_json());
    }

    /// Writes a keyword of another vocabulary.
    pub fn custom_vocabulary(&mut self, name: &str, value: Json)
        ensures
            sets(final(self).members@, old(self).members@, name@, value),
            final(self).members@.len() == old(self).members@.len() + (if field(
                old(self).members@,
                name@,
            ) is Some {
                0int
            } else {
                1int
            }),
    {
        put(&mut self.members, name, value);
    }
}

/// The schema that `build` writes: what `build` makes of a schema without
/// keywords.
pub fn json_schema<F>(build: F) -> (r: JsonSchemaBuilder) where F: FnOnce(&mut JsonSchemaBuilder)
    requires
        forall|b: &mut JsonSchemaBuilder| build.requires((b,)),
    ensures
        exists|b: &mut JsonSchemaBuilder| #[trigger]
            build.ensures((b,), ()) && (*b).members@.len() == 0 && *final(b) == r,
{
    JsonSchemaBuilder::build(build)
}

} // verus!
