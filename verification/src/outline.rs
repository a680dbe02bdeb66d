//! What a schema asks for, read off its keywords: the references it makes,
//! the assertions it states, and where its subschemas stand.

use vstd::prelude::*;
use vstd::string::*;
use crate::builder::schema_builder::PrimitiveType;
use crate::draft::Draft;
use crate::json::Json;
use crate::pointer::{child_ptr, index_digits, index_text, JsonPointer};
use crate::text::str_eq;

verus! {

/// The type that `name` names.
pub open spec fn type_named(name: Seq<char>) -> Option<PrimitiveType> {
    if name == "array"@ {
        Some(PrimitiveType::Array)
    } else if name == "boolean"@ {
        Some(PrimitiveType::Boolean)
    } else if name == "integer"@ {
        Some(PrimitiveType::Integer)
    } else if name == "number"@ {
        Some(PrimitiveType::Number)
    } else if name == "null"@ {
        Some(PrimitiveType::Null)
    } else if name == "object"@ {
        Some(PrimitiveType::Object)
    } else if name == "string"@ {
        Some(PrimitiveType::String)
    } else {
        None
    }
}

/// The type that `name` names.
pub fn parse_type(name: &str) -> (r: Option<PrimitiveType>)
    ensures
        r == type_named(name@),
{
    if str_eq(name, "array") {
        Some(PrimitiveType::Array)
    } else if str_eq(name, "boolean") {
        Some(PrimitiveType::Boolean)
    } else if str_eq(name, "integer") {
        Some(PrimitiveType::Integer)
    } else if str_eq(name, "number") {
        Some(PrimitiveType::Number)
    } else if str_eq(name, "null") {
        Some(PrimitiveType::Null)
    } else if str_eq(name, "object") {
        Some(PrimitiveType::Object)
    } else if str_eq(name, "string") {
        Some(PrimitiveType::String)
    } else {
        None
    }
}

/// The types that the first `n` of `items` name; `None` where one of them
/// is no string or names no type.
pub open spec fn types_of_items(items: Seq<Json>, n: int) -> Option<Seq<PrimitiveType>>
    decreases n,
{
    if n <= 0 || n > items.len() {
        Some(Seq::empty())
    } else {
        match (types_of_items(items, n - 1), items[n - 1]) {
            (Some(head), Json::String(name)) => match type_named(name@) {
                Some(t) => Some(head.push(t)),
                None => None,
            },
            _ => None,
        }
    }
}

/// The types that the value of `type` names: one for a string, several
/// for an array of strings, and none where anything in it names no type.
pub open spec fn type_list(v: Json) -> Seq<PrimitiveType> {
    match v {
        Json::String(name) => match type_named(name@) {
            Some(t) => seq![t],
            None => Seq::empty(),
        },
        Json::Array(items) => match types_of_items(items@, items@.len() as int) {
            Some(types) => types,
            None => Seq::empty(),
        },
        _ => Seq::empty(),
    }
}

/// The texts of the first `n` of `items`; `None` where one is no string.
pub open spec fn texts_of_items(items: Seq<Json>, n: int) -> Option<Seq<Seq<char>>>
    decreases n,
{
    if n <= 0 || n > items.len() {
        Some(Seq::empty())
    } else {
        match (texts_of_items(items, n - 1), items[n - 1]) {
            (Some(head), Json::String(text)) => Some(head.push(text@)),
            _ => None,
        }
    }
}

/// The names that the value of `required` lists: those of an array of
/// strings, and none for anything else.
pub open spec fn name_list(v: Json) -> Seq<Seq<char>> {
    match v {
        Json::Array(items) => match texts_of_items(items@, items@.len() as int) {
            Some(names) => names,
            None => Seq::empty(),
        },
        _ => Seq::empty(),
    }
}

/// Where the items of the array `v` stand, which itself stands at `base`.
pub open spec fn item_ptrs(v: Json, base: Seq<char>) -> Seq<Seq<char>> {
    match v {
        Json::Array(items) => Seq::new(items@.len(), |i: int| child_ptr(base, index_digits(i as nat))),
        _ => Seq::empty(),
    }
}

/// The names of the members of the object `v`, which stands at `base`,
/// each with the place where the member stands.
pub open spec fn member_ptrs(v: Json, base: Seq<char>) -> Seq<(Seq<char>, Seq<char>)> {
    match v {
        Json::Object(members) => Seq::new(
            members@.len(),
            |i: int| (members@[i].0@, child_ptr(base, members@[i].0@)),
        ),
        _ => Seq::empty(),
    }
}

/// `base`, where the value `v` that stands there can be a schema.
pub open spec fn whole_ptr(v: Json, base: Seq<char>) -> Option<Seq<char>> {
    if v is Object || v is Bool {
        Some(base)
    } else {
        None
    }
}

/// The pointers of `ptrs` as plain values.
pub open spec fn ptr_views(ptrs: Seq<JsonPointer>) -> Seq<Seq<char>> {
    ptrs.map_values(|p: JsonPointer| p@)
}

/// The texts of `names` as plain values.
pub open spec fn text_views(names: Seq<String>) -> Seq<Seq<char>> {
    names.map_values(|n: String| n@)
}

/// The entries of `entries` as plain values.
pub open spec fn entry_views(entries: Seq<(String, JsonPointer)>) -> Seq<(Seq<char>, Seq<char>)> {
    entries.map_values(|e: (String, JsonPointer)| (e.0@, e.1@))
}

/// The types that the value of `type` names.
pub fn read_types(v: &Json) -> (r: Vec<PrimitiveType>)
    ensures
        r@ == type_list(*v),
{
    let mut types: Vec<PrimitiveType> = Vec::new();
    match v {
        Json::String(name) => {
            if let Some(t) = parse_type(name.as_str()) {
                types.push(t);
                proof {
                    assert(types@ =~= seq![t]);
                }
            }
            types
        },
        Json::Array(items) => {
            let mut i: usize = 0;
            while i < items.len()
                invariant
                    i <= items.len(),
                    *v == Json::Array(*items),
                    types_of_items(items@, i as int) == Some(types@),
                decreases items.len() - i,
            {
                let known = match &items[i] {
                    Json::String(name) => parse_type(name.as_str()),
                    _ => None,
                };
                match known {
                    Some(t) => {
                        types.push(t);
                    },
                    None => {
                        proof {
                            assert(types_of_items(items@, i + 1) is None);
                            lemma_types_stay_none(items@, i + 1, items@.len() as int);
                        }
                        return Vec::new();
                    },
                }
                i = i + 1;
            }
            types
        },
        _ => types,
    }
}

/// Items that name no types do not name any when more items follow.
pub proof fn lemma_types_stay_none(items: Seq<Json>, n: int, m: int)
    requires
        0 < n <= m <= items.len(),
        types_of_items(items, n) is None,
    ensures
        types_of_items(items, m) is None,
    decreases m - n,
{
    if n < m {
        lemma_types_stay_none(items, n, m - 1);
    }
}

/// Items that are not all strings are not all strings when more items follow.
pub proof fn lemma_texts_stay_none(items: Seq<Json>, n: int, m: int)
    requires
        0 < n <= m <= items.len(),
        texts_of_items(items, n) is None,
    ensures
        texts_of_items(items, m) is None,
    decreases m - n,
{
    if n < m {
        lemma_texts_stay_none(items, n, m - 1);
    }
}

/// The names that the value of `required` lists.
pub fn read_names(v: &Json) -> (r: Vec<String>)
    ensures
        text_views(r@) == name_list(*v),
{
    let mut names: Vec<String> = Vec::new();
    proof {
        assert(text_views(names@) =~= Seq::<Seq<char>>::empty());
    }
    match v {
        Json::Array(items) => {
            let mut i: usize = 0;
            while i < items.len()
                invariant
                    i <= items.len(),
                    *v == Json::Array(*items),
                    texts_of_items(items@, i as int) == Some(text_views(names@)),
                decreases items.len() - i,
            {
                let ghost before = text_views(names@);
                match &items[i] {
                    Json::String(text) => {
                        names.push(text.clone());
                        proof {
                            assert(text_views(names@) =~= before.push(text@));
                        }
                    },
                    _ => {
                        proof {
                            assert(texts_of_items(items@, i + 1) is None);
                            lemma_texts_stay_none(items@, i + 1, items@.len() as int);
                        }
                        let none: Vec<String> = Vec::new();
                        proof {
                            assert(text_views(none@) =~= Seq::<Seq<char>>::empty());
                        }
                        return none;
                    },
                }
                i = i + 1;
            }
            names
        },
        _ => names,
    }
}

/// Where the items of the array `v` stand.
pub fn read_item_ptrs(v: &Json, base: &JsonPointer) -> (r: Vec<JsonPointer>)
    requires
        base.wf(),
    ensures
        ptr_views(r@) == item_ptrs(*v, base@),
        forall|j: int| 0 <= j < r@.len() ==> (#[trigger] r@[j]).wf(),
{
    let mut ptrs: Vec<JsonPointer> = Vec::new();
    match v {
        Json::Array(items) => {
            let mut i: usize = 0;
            while i < items.len()
                invariant
                    i <= items.len(),
                    base.wf(),
                    ptrs@.len() == i,
                    forall|j: int|
                        0 <= j < i ==> (#[trigger] ptrs@[j])@ == child_ptr(
                            base@,
                            index_digits(j as nat),
                        ),
                    forall|j: int| 0 <= j < i ==> (#[trigger] ptrs@[j]).wf(),
                decreases items.len() - i,
            {
                let token = index_text(i);
                ptrs.push(base.append(token.as_str()));
                i = i + 1;
            }
            proof {
                assert(ptr_views(ptrs@) =~= item_ptrs(*v, base@));
            }
            ptrs
        },
        _ => {
            proof {
                assert(ptr_views(ptrs@) =~= item_ptrs(*v, base@));
            }
            ptrs
        },
    }
}

/// The names of the members of the object `v` and where they stand.
pub fn read_member_ptrs(v: &Json, base: &JsonPointer) -> (r: Vec<(String, JsonPointer)>)
    requires
        base.wf(),
    ensures
        entry_views(r@) == member_ptrs(*v, base@),
        forall|j: int| 0 <= j < r@.len() ==> (#[trigger] r@[j]).1.wf(),
{
    let mut entries: Vec<(String, JsonPointer)> = Vec::new();
    match v {
        Json::Object(members) => {
            let mut i: usize = 0;
            while i < members.len()
                invariant
                    i <= members.len(),
                    base.wf(),
                    entries@.len() == i,
                    forall|j: int|
                        0 <= j < i ==> (#[trigger] entries@[j]).0@ == members@[j].0@ && entries@[j].1@
                            == child_ptr(base@, members@[j].0@),
                    forall|j: int| 0 <= j < i ==> (#[trigger] entries@[j]).1.wf(),
                decreases members.len() - i,
            {
                let name = members[i].0.clone();
                let ptr = base.append(name.as_str());
                entries.push((name, ptr));
                i = i + 1;
            }
            proof {
                assert(entry_views(entries@) =~= member_ptrs(*v, base@));
            }
            entries
        },
        _ => {
            proof {
                assert(entry_views(entries@) =~= member_ptrs(*v, base@));
            }
            entries
        },
    }
}

/// `base`, where `v` can be a schema.
pub fn read_whole_ptr(v: &Json, base: JsonPointer) -> (r: Option<JsonPointer>)
    requires
        base.wf(),
    ensures
        match r {
            Some(p) => whole_ptr(*v, base@) == Some(p@) && p.wf(),
            None => whole_ptr(*v, base@) is None,
        },
{
    match v {
        Json::Object(_) => Some(base),
        Json::Bool(_) => Some(base),
        _ => None,
    }
}

/// What one schema asks for. Its references are kept as they are
/// written, and its subschemas as the places where they stand.
pub struct Outline {
    pub boolean: Option<bool>,
    pub ref_: Option<String>,
    pub dynamic_ref: Option<String>,
    pub types: Vec<PrimitiveType>,
    pub required: Vec<String>,
    pub properties: Vec<(String, JsonPointer)>,
    pub prefix_items: Vec<JsonPointer>,
    pub items: Option<JsonPointer>,
    pub all_of: Vec<JsonPointer>,
    pub any_of: Vec<JsonPointer>,
    pub one_of: Vec<JsonPointer>,
    pub not: Option<JsonPointer>,
}

/// An `Outline` as plain values.
pub struct OutlineView {
    pub boolean: Option<bool>,
    pub ref_: Option<Seq<char>>,
    pub dynamic_ref: Option<Seq<char>>,
    pub types: Seq<PrimitiveType>,
    pub required: Seq<Seq<char>>,
    pub properties: Seq<(Seq<char>, Seq<char>)>,
    pub prefix_items: Seq<Seq<char>>,
    pub items: Option<Seq<char>>,
    pub all_of: Seq<Seq<char>>,
    pub any_of: Seq<Seq<char>>,
    pub one_of: Seq<Seq<char>>,
    pub not: Option<Seq<char>>,
}

/// The pointer behind an optional pointer, as plain values.
pub open spec fn option_view(p: Option<JsonPointer>) -> Option<Seq<char>> {
    match p {
        Some(ptr) => Some(ptr@),
        None => None,
    }
}

/// The text behind an optional text, as plain values.
pub open spec fn option_text(t: Option<String>) -> Option<Seq<char>> {
    match t {
        Some(text) => Some(text@),
        None => None,
    }
}

impl View for Outline {
    type V = OutlineView;

    open spec fn view(&self) -> OutlineView {
        OutlineView {
            boolean: self.boolean,
            ref_: option_text(self.ref_),
            dynamic_ref: option_text(self.dynamic_ref),
            types: self.types@,
            required: text_views(self.required@),
            properties: entry_views(self.properties@),
            prefix_items: ptr_views(self.prefix_items@),
            items: option_view(self.items),
            all_of: ptr_views(self.all_of@),
            any_of: ptr_views(self.any_of@),
            one_of: ptr_views(self.one_of@),
            not: option_view(self.not),
        }
    }
}

/// The outline that asks for nothing.
pub open spec fn empty_outline() -> OutlineView {
    OutlineView {
        boolean: None,
        ref_: None,
        dynamic_ref: None,
        types: Seq::empty(),
        required: Seq::empty(),
        properties: Seq::empty(),
        prefix_items: Seq::empty(),
        items: None,
        all_of: Seq::empty(),
        any_of: Seq::empty(),
        one_of: Seq::empty(),
        not: None,
    }
}

/// The text of the member `key` of `sch`, where it is a string.
pub open spec fn text_member(sch: Json, key: Seq<char>) -> Option<Seq<char>> {
    match sch.member(key) {
        Some(Json::String(text)) => Some(text@),
        _ => None,
    }
}

/// The types that `type` names in `sch`.
pub open spec fn types_in(sch: Json) -> Seq<PrimitiveType> {
    match sch.member("type"@) {
        Some(v) => type_list(v),
        None => Seq::empty(),
    }
}

/// The names that `required` lists in `sch`.
pub open spec fn required_in(sch: Json) -> Seq<Seq<char>> {
    match sch.member("required"@) {
        Some(v) => name_list(v),
        None => Seq::empty(),
    }
}

/// Where the schemas stand that the keyword `key` of `sch` holds as an
/// array.
pub open spec fn items_under(sch: Json, ptr: Seq<char>, key: Seq<char>) -> Seq<Seq<char>> {
    match sch.member(key) {
        Some(v) => item_ptrs(v, child_ptr(ptr, key)),
        None => Seq::empty(),
    }
}

/// Where the schema stands that the keyword `key` of `sch` holds as its
/// value.
pub open spec fn whole_under(sch: Json, ptr: Seq<char>, key: Seq<char>) -> Option<Seq<char>> {
    match sch.member(key) {
        Some(v) => whole_ptr(v, child_ptr(ptr, key)),
        None => None,
    }
}

/// Where the schemas stand that `properties` holds in `sch`, each with
/// the name of its member.
pub open spec fn properties_in(sch: Json, ptr: Seq<char>) -> Seq<(Seq<char>, Seq<char>)> {
    match sch.member("properties"@) {
        Some(v) => member_ptrs(v, child_ptr(ptr, "properties"@)),
        None => Seq::empty(),
    }
}

impl Draft {
    /// Where the schemas for the first items of an array stand:
    /// `prefixItems` from 2020 on, and before that `items` where it is an
    /// array.
    pub open spec fn prefix_in(self, sch: Json, ptr: Seq<char>) -> Seq<Seq<char>> {
        if self.version_spec() >= 2020 {
            items_under(sch, ptr, "prefixItems"@)
        } else {
            items_under(sch, ptr, "items"@)
        }
    }

    /// Where the schema for the remaining items of an array stands:
    /// `items` where it is a schema, and before 2020 `additionalItems`
    /// where `items` is an array.
    pub open spec fn rest_in(self, sch: Json, ptr: Seq<char>) -> Option<Seq<char>> {
        if self.version_spec() < 2020 && sch.member("items"@) matches Some(Json::Array(_)) {
            whole_under(sch, ptr, "additionalItems"@)
        } else {
            whole_under(sch, ptr, "items"@)
        }
    }

    /// What the schema `sch` at `ptr` asks for. A boolean asks for itself.
    /// Before 2019 a schema with `$ref` asks for nothing else. The
    /// assertions are read only where `validation` is on, the subschemas
    /// only where `applicator` is, and a keyword whose value has not the
    /// form it should have asks for nothing.
    pub open spec fn outline_of(
        self,
        applicator: bool,
        validation: bool,
        sch: Json,
        ptr: Seq<char>,
    ) -> OutlineView {
        match sch {
            Json::Bool(b) => OutlineView { boolean: Some(b), ..empty_outline() },
            Json::Object(_) => {
                if self.version_spec() < 2019 && text_member(sch, "$ref"@) is Some {
                    OutlineView { ref_: text_member(sch, "$ref"@), ..empty_outline() }
                } else {
                    OutlineView {
                        boolean: None,
                        ref_: text_member(sch, "$ref"@),
                        dynamic_ref: if self.version_spec() >= 2020 {
                            text_member(sch, "$dynamicRef"@)
                        } else {
                            None
                        },
                        types: if validation {
                            types_in(sch)
                        } else {
                            Seq::empty()
                        },
                        required: if validation {
                            required_in(sch)
                        } else {
                            Seq::empty()
                        },
                        properties: if applicator {
                            properties_in(sch, ptr)
                        } else {
                            Seq::empty()
                        },
                        prefix_items: if applicator {
                            self.prefix_in(sch, ptr)
                        } else {
                            Seq::empty()
                        },
                        items: if applicator {
                            self.rest_in(sch, ptr)
                        } else {
                            None
                        },
                        all_of: if applicator {
                            items_under(sch, ptr, "allOf"@)
                        } else {
                            Seq::empty()
                        },
                        any_of: if applicator {
                            items_under(sch, ptr, "anyOf"@)
                        } else {
                            Seq::empty()
                        },
                        one_of: if applicator {
                            items_under(sch, ptr, "oneOf"@)
                        } else {
                            Seq::empty()
                        },
                        not: if applicator {
                            whole_under(sch, ptr, "not"@)
                        } else {
                            None
                        },
                    }
                }
            },
            _ => empty_outline(),
        }
    }
}

impl Outline {
    /// Every place in the outline is a pointer.
    pub open spec fn wf(&self) -> bool {
        &&& forall|j: int| 0 <= j < self.properties@.len() ==> (#[trigger] self.properties@[j]).1.wf()
        &&& forall|j: int| 0 <= j < self.prefix_items@.len() ==> (#[trigger] self.prefix_items@[j]).wf()
        &&& self.items matches Some(p) ==> p.wf()
        &&& forall|j: int| 0 <= j < self.all_of@.len() ==> (#[trigger] self.all_of@[j]).wf()
        &&& forall|j: int| 0 <= j < self.any_of@.len() ==> (#[trigger] self.any_of@[j]).wf()
        &&& forall|j: int| 0 <= j < self.one_of@.len() ==> (#[trigger] self.one_of@[j]).wf()
        &&& self.not matches Some(p) ==> p.wf()
    }

    /// The outline that asks for nothing.
    pub fn empty() -> (r: Outline)
        ensures
            r@ == empty_outline(),
            r.wf(),
    {
        let r = Outline {
            boolean: None,
            ref_: None,
            dynamic_ref: None,
            types: Vec::new(),
            required: Vec::new(),
            properties: Vec::new(),
            prefix_items: Vec::new(),
            items: None,
            all_of: Vec::new(),
            any_of: Vec::new(),
            one_of: Vec::new(),
            not: None,
        };
        proof {
            assert(r@.required =~= Seq::<Seq<char>>::empty());
            assert(r@.properties =~= Seq::<(Seq<char>, Seq<char>)>::empty());
            assert(r@.prefix_items =~= Seq::<Seq<char>>::empty());
            assert(r@.all_of =~= Seq::<Seq<char>>::empty());
            assert(r@.any_of =~= Seq::<Seq<char>>::empty());
            assert(r@.one_of =~= Seq::<Seq<char>>::empty());
        }
        r
    }
}

/// The text of the member `key` of `sch`, where it is a string.
pub fn read_text(sch: &Json, key: &str) -> (r: Option<String>)
    ensures
        option_text(r) == text_member(*sch, key@),
{
    match sch.get(key) {
        Some(Json::String(text)) => Some(text.clone()),
        _ => None,
    }
}

/// Where the schemas stand that the keyword `key` holds as an array.
pub fn read_items_under(sch: &Json, ptr: &JsonPointer, key: &str) -> (r: Vec<JsonPointer>)
    requires
        ptr.wf(),
    ensures
        ptr_views(r@) == items_under(*sch, ptr@, key@),
        forall|j: int| 0 <= j < r@.len() ==> (#[trigger] r@[j]).wf(),
{
    match sch.get(key) {
        Some(v) => read_item_ptrs(v, &ptr.append(key)),
        None => {
            let none: Vec<JsonPointer> = Vec::new();
            proof {
                assert(ptr_views(none@) =~= Seq::<Seq<char>>::empty());
            }
            none
        },
    }
}

/// Where the schema stands that the keyword `key` holds as its value.
pub fn read_whole_under(sch: &Json, ptr: &JsonPointer, key: &str) -> (r: Option<JsonPointer>)
    requires
        ptr.wf(),
    ensures
        option_view(r) == whole_under(*sch, ptr@, key@),
        r matches Some(p) ==> p.wf(),
{
    match sch.get(key) {
        Some(v) => read_whole_ptr(v, ptr.append(key)),
        None => None,
    }
}

impl Draft {
    /// What the schema `sch` at `ptr` asks for.
    pub fn scan(
        &self,
        applicator: bool,
        validation: bool,
        sch: &Json,
        ptr: &JsonPointer,
    ) -> (r: Outline)
        requires
            ptr.wf(),
        ensures
            r@ == self.outline_of(applicator, validation, *sch, ptr@),
            r.wf(),
    {
        let mut out = Outline::empty();
        match sch {
            Json::Bool(b) => {
                out.boolean = Some(*b);
                return out;
            },
            Json::Object(_) => {},
            _ => {
                return out;
            },
        }
        let version = self.version();
        out.ref_ = read_text(sch, "$ref");
        if version < 2019 && out.ref_.is_some() {
            return out;
        }
        if version >= 2020 {
            out.dynamic_ref = read_text(sch, "$dynamicRef");
        }
        if validation {
            if let Some(v) = sch.get("type") {
                out.types = read_types(v);
            }
            if let Some(v) = sch.get("required") {
                out.required = read_names(v);
            }
        }
        if applicator {
            if let Some(v) = sch.get("properties") {
                out.properties = read_member_ptrs(v, &ptr.append("properties"));
            }
            let mut tuple = false;
            if version >= 2020 {
                out.prefix_items = read_items_under(sch, ptr, "prefixItems");
            } else {
                out.prefix_items = read_items_under(sch, ptr, "items");
                if let Some(Json::Array(_)) = sch.get("items") {
                    tuple = true;
                }
            }
            if tuple {
                out.items = read_whole_under(sch, ptr, "additionalItems");
            } else {
                out.items = read_whole_under(sch, ptr, "items");
            }
            out.all_of = read_items_under(sch, ptr, "allOf");
            out.any_of = read_items_under(sch, ptr, "anyOf");
            out.one_of = read_items_under(sch, ptr, "oneOf");
            out.not = read_whole_under(sch, ptr, "not");
        }
        out
    }
}

} // verus!
