//! What differs between the drafts of the schema language: the keyword
//! that declares an identifier, where anchors are declared, which keywords
//! hold subschemas, and which vocabularies are on by default.

use vstd::prelude::*;
use vstd::string::*;
use crate::compiler::{CompileError, ErrorView};
use crate::json::Json;
use crate::json::{lemma_member_index, member_index, position};
use crate::outline::text_views;
use crate::pointer::{
    child, child_ptr, index_digits, index_text, index_value, is_pointer, lookup_spec,
    unescape_spec, JsonPointer, Lookup,
};
use crate::root::{
    all_distinct_names, anchors_lead_to_pointers, distinct_names, extends, find_id, find_ptr,
    fresh_resource, has_root, id_index,
    insert_name, lemma_extends_keeps_index, lemma_extends_refl, lemma_extends_trans,
    lemma_first_match, ptr_index, registry_wf, views, Resource, ResourceView,
};
use crate::text::{first_index_from, starts_with, str_eq, strip_prefix};
use crate::util::{
    format_loc, fragment_of, percent_decoded, split, split_ref, url_joined, Fragment, FragmentView,
    Url, UrlFrag,
};

verus! {

/// A draft of the schema language.
#[derive(Clone, Copy, Debug, PartialEq, Eq, Structural)]
pub enum Draft {
    V4,
    V6,
    V7,
    V2019_09,
    V2020_12,
}

/// Where the subschemas of a keyword stand in its value.
#[derive(Clone, Copy, Debug, PartialEq, Eq, Structural)]
pub enum Position {
    /// The value is a schema.
    Whole,
    /// The value is an array of schemas.
    Items,
    /// The value is an object whose members are schemas.
    Members,
    /// The value is a schema or an array of schemas.
    WholeOrItems,
}

impl Position {
    /// The value itself is a schema.
    pub open spec fn whole_spec(self) -> bool {
        self == Position::Whole || self == Position::WholeOrItems
    }

    /// The items of the value are schemas.
    pub open spec fn items_spec(self) -> bool {
        self == Position::Items || self == Position::WholeOrItems
    }

    /// The members of the value are schemas.
    pub open spec fn members_spec(self) -> bool {
        self == Position::Members
    }

    /// Whether the value itself is a schema.
    #[verifier::when_used_as_spec(whole_spec)]
    pub fn whole(self) -> (r: bool)
        ensures
            r == self.whole_spec(),
    {
        self == Position::Whole || self == Position::WholeOrItems
    }

    /// Whether the items of the value are schemas.
    #[verifier::when_used_as_spec(items_spec)]
    pub fn items(self) -> (r: bool)
        ensures
            r == self.items_spec(),
    {
        self == Position::Items || self == Position::WholeOrItems
    }

    /// Whether the members of the value are schemas.
    #[verifier::when_used_as_spec(members_spec)]
    pub fn members(self) -> (r: bool)
        ensures
            r == self.members_spec(),
    {
        self == Position::Members
    }
}

/// A table of keywords as plain values.
pub open spec fn table_view(table: Seq<(&'static str, Position)>) -> Seq<(Seq<char>, Position)> {
    table.map_values(|e: (&'static str, Position)| (e.0@, e.1))
}

/// The resources of a document after a step of registration, and the
/// error that stopped it, if one did.
pub struct Outcome {
    pub resources: Seq<ResourceView>,
    pub error: Option<ErrorView>,
}

/// A step that went through, with the resources it left.
pub open spec fn done(rs: Seq<ResourceView>) -> Outcome {
    Outcome { resources: rs, error: None }
}

/// A step that stopped at the error `e`, with the resources it left.
pub open spec fn failed(rs: Seq<ResourceView>, e: ErrorView) -> Outcome {
    Outcome { resources: rs, error: Some(e) }
}

/// `after` and `r` are what `out` says they are.
pub open spec fn realizes(
    out: Outcome,
    after: Seq<ResourceView>,
    r: Result<(), CompileError>,
) -> bool {
    &&& after == out.resources
    &&& match r {
        Ok(()) => out.error is None,
        Err(e) => out.error == Some(e@),
    }
}

/// Registers a resource at `ptr` with the identifier `id`, unless a
/// resource of the document has that identifier already.
pub open spec fn register_spec(
    rs: Seq<ResourceView>,
    ptr: Seq<char>,
    id: Seq<char>,
    url: Seq<char>,
) -> Outcome {
    let k = id_index(rs, id);
    if k < rs.len() {
        failed(rs, ErrorView::DuplicateId { url, id, ptr1: rs[k].ptr, ptr2: ptr })
    } else {
        done(rs.push(fresh_resource(ptr, id)))
    }
}

/// Registers the resource that begins at `ptr`. Fails with `DuplicateId`
/// where a registered resource has the identifier `id`.
pub fn register(resources: &mut Vec<Resource>, ptr: &JsonPointer, id: Url, url: &Url) -> (r: Result<
    (),
    CompileError,
>)
    ensures
        realizes(register_spec(views(old(resources)@), ptr@, id@, url@), views(final(resources)@), r),
        extends(views(old(resources)@), views(final(resources)@)),
        registry_wf(views(old(resources)@)) && is_pointer(ptr@) && ptr_index(
            views(old(resources)@),
            ptr@,
        ) == old(resources)@.len() ==> registry_wf(views(final(resources)@)),
        all_distinct_names(old(resources)@) ==> all_distinct_names(final(resources)@),
{
    let ghost before = views(resources@);
    match find_id(resources, &id) {
        Some(k) => Err(
            CompileError::DuplicateId {
                url: url.to_string(),
                id: id.to_string(),
                ptr1: resources[k].ptr.to_string(),
                ptr2: ptr.to_string(),
            },
        ),
        None => {
            let res = Resource::new(ptr.clone(), id);
            resources.push(res);
            proof {
                let after = views(resources@);
                assert(after =~= before.push(fresh_resource(ptr@, id@)));
                lemma_first_match(before, |r: ResourceView| r.id == id@);
                lemma_first_match(before, |r: ResourceView| r.ptr == ptr@);
                assert forall|i: int| 0 <= i < before.len() implies {
                    &&& (#[trigger] after[i]).ptr == before[i].ptr
                    &&& after[i].id == before[i].id
                    &&& before[i].anchors.submap_of(after[i].anchors)
                    &&& before[i].dynamic_anchors.subset_of(after[i].dynamic_anchors)
                } by {
                    assert(after[i] == before[i]);
                }
                if registry_wf(before) && is_pointer(ptr@) && ptr_index(before, ptr@)
                    == before.len() {
                    assert forall|i: int, j: int| 0 <= i < j < after.len() implies after[i].ptr
                        != after[j].ptr by {
                        assert(after[i] == before[i]);
                        if j < before.len() {
                            assert(after[j] == before[j]);
                        }
                    }
                    assert forall|i: int, j: int| 0 <= i < j < after.len() implies after[i].id
                        != after[j].id by {
                        assert(after[i] == before[i]);
                        if j < before.len() {
                            assert(after[j] == before[j]);
                        }
                    }
                    assert forall|i: int| 0 <= i < after.len() implies is_pointer(
                        #[trigger] after[i].ptr,
                    ) by {
                        if i < before.len() {
                            assert(after[i] == before[i]);
                        }
                    }
                    assert forall|i: int| 0 <= i < after.len() implies anchors_lead_to_pointers(
                        #[trigger] after[i],
                    ) by {
                        if i < before.len() {
                            assert(after[i] == before[i]);
                        }
                    }
                }
            }
            Ok(())
        },
    }
}

/// What a keyword that takes a text holds.
pub enum Declared<'a> {
    /// The keyword is not there.
    Nothing,
    /// The keyword holds this text.
    Text(&'a str),
    /// The keyword holds a value that is no string.
    Malformed,
}

/// A `Declared` as plain values.
pub enum DeclaredView {
    Nothing,
    Text(Seq<char>),
    Malformed,
}

impl<'a> View for Declared<'a> {
    type V = DeclaredView;

    open spec fn view(&self) -> DeclaredView {
        match self {
            Declared::Nothing => DeclaredView::Nothing,
            Declared::Text(text) => DeclaredView::Text(text@),
            Declared::Malformed => DeclaredView::Malformed,
        }
    }
}

/// What the keyword `key` of the schema `sch` holds.
pub open spec fn keyword_text(sch: Json, key: Seq<char>) -> DeclaredView {
    match sch.member(key) {
        None => DeclaredView::Nothing,
        Some(Json::String(text)) => DeclaredView::Text(text@),
        Some(_) => DeclaredView::Malformed,
    }
}

/// What the keyword `key` of the schema `sch` holds.
pub fn read_keyword<'a>(sch: &'a Json, key: &str) -> (r: Declared<'a>)
    ensures
        r@ == keyword_text(*sch, key@),
{
    match sch.get(key) {
        None => Declared::Nothing,
        Some(Json::String(text)) => Declared::Text(text.as_str()),
        Some(_) => Declared::Malformed,
    }
}

/// The resource `res` after the location `ptr` has declared the anchor
/// `name`, and the error if the name already stands for another location.
pub open spec fn with_anchor(
    res: ResourceView,
    name: Seq<char>,
    ptr: Seq<char>,
    url: Seq<char>,
) -> (
    ResourceView,
    Option<ErrorView>,
) {
    if res.anchors.contains_key(name) {
        if res.anchors[name] == ptr {
            (res, None)
        } else {
            (
                res,
                Some(
                    ErrorView::DuplicateAnchor {
                        url,
                        anchor: name,
                        ptr1: res.anchors[name],
                        ptr2: ptr,
                    },
                ),
            )
        }
    } else {
        (ResourceView { anchors: res.anchors.insert(name, ptr), ..res }, None)
    }
}

/// Records that `ptr` declares the anchor `name` in `res`. An anchor that
/// is already recorded for `ptr` stays; one recorded for another location
/// is a `DuplicateAnchor`.
pub fn add_anchor(res: &mut Resource, name: &str, ptr: &JsonPointer, url: &Url) -> (r: Result<
    (),
    CompileError,
>)
    ensures
        final(res)@ == with_anchor(old(res)@, name@, ptr@, url@).0,
        final(res).dynamic_anchors == old(res).dynamic_anchors,
        match r {
            Ok(()) => with_anchor(old(res)@, name@, ptr@, url@).1 is None,
            Err(e) => with_anchor(old(res)@, name@, ptr@, url@).1 == Some(e@),
        },
{
    match res.anchors.get(name) {
        Some(known) => {
            if known.same(ptr) {
                Ok(())
            } else {
                Err(
                    CompileError::DuplicateAnchor {
                        url: url.to_string(),
                        anchor: name.to_owned(),
                        ptr1: known.to_string(),
                        ptr2: ptr.to_string(),
                    },
                )
            }
        },
        None => {
            res.anchors.insert(name.to_owned(), ptr.clone());
            proof {
                assert(final(res)@.anchors =~= old(res)@.anchors.insert(name@, ptr@));
            }
            Ok(())
        },
    }
}

impl Draft {
    /// The year of the draft, or its number for the drafts before 2019.
    pub open spec fn version_spec(self) -> nat {
        match self {
            Draft::V4 => 4,
            Draft::V6 => 6,
            Draft::V7 => 7,
            Draft::V2019_09 => 2019,
            Draft::V2020_12 => 2020,
        }
    }

    /// The year of the draft, or its number for the drafts before 2019.
    pub fn version(&self) -> (r: u32)
        ensures
            r == self.version_spec(),
    {
        match self {
            Draft::V4 => 4,
            Draft::V6 => 6,
            Draft::V7 => 7,
            Draft::V2019_09 => 2019,
            Draft::V2020_12 => 2020,
        }
    }

    /// The keyword that declares an identifier.
    pub open spec fn id_keyword_spec(self) -> Seq<char> {
        match self {
            Draft::V4 => "id"@,
            _ => "$id"@,
        }
    }

    /// The keyword that declares an identifier.
    pub fn id_keyword(&self) -> (r: &'static str)
        ensures
            r@ == self.id_keyword_spec(),
    {
        match self {
            Draft::V4 => "id",
            _ => "$id",
        }
    }

    /// Before 2019 a schema with `$ref` has no other keyword.
    pub open spec fn is_bare_ref(self, sch: Json) -> bool {
        self.version_spec() < 2019 && sch.member("$ref"@) is Some
    }

    /// The identifier that the schema `sch` declares, without its
    /// fragment: the text of the identifier keyword before `#`, where that
    /// text is not empty. A keyword that holds no string is malformed.
    pub open spec fn declared_id(self, sch: Json) -> DeclaredView {
        if self.is_bare_ref(sch) {
            DeclaredView::Nothing
        } else {
            match keyword_text(sch, self.id_keyword_spec()) {
                DeclaredView::Text(id) => if split_ref(id).0.len() > 0 {
                    DeclaredView::Text(split_ref(id).0)
                } else {
                    DeclaredView::Nothing
                },
                other => other,
            }
        }
    }

    /// The identifier that `sch` declares, without its fragment.
    pub fn get_id<'a>(&self, sch: &'a Json) -> (r: Declared<'a>)
        ensures
            r@ == self.declared_id(*sch),
    {
        if self.version() < 2019 && sch.get("$ref").is_some() {
            return Declared::Nothing;
        }
        match read_keyword(sch, self.id_keyword()) {
            Declared::Text(id) => {
                let (u, _) = split(id);
                if u.unicode_len() > 0 {
                    Declared::Text(u)
                } else {
                    Declared::Nothing
                }
            },
            other => other,
        }
    }

    /// The resource `res` after the anchors that the schema `sch` at `ptr`
    /// declares have been recorded in it, and the error that stopped the
    /// recording, if one did. Before 2019 an anchor is the fragment of the
    /// identifier; from 2019 on it is the `$anchor` keyword, and from 2020
    /// on `$dynamicAnchor` as well, which also makes the name dynamic. A
    /// `$dynamicAnchor` under an earlier draft is an error, and so is a
    /// keyword of these that holds no string.
    pub open spec fn anchors_of(
        self,
        sch: Json,
        ptr: Seq<char>,
        res: ResourceView,
        url: Seq<char>,
    ) -> (
        ResourceView,
        Option<ErrorView>,
    ) {
        let malformed = Some(ErrorView::ParseAnchorError { loc: format_loc(url, ptr) });
        if !(sch is Object) || self.is_bare_ref(sch) {
            (res, None)
        } else if self.version_spec() < 2020 && sch.member("$dynamicAnchor"@) is Some {
            (res, Some(ErrorView::DynamicAnchorNotSupported { loc: format_loc(url, ptr) }))
        } else if self.version_spec() < 2019 {
            match keyword_text(sch, self.id_keyword_spec()) {
                DeclaredView::Text(id) => match percent_decoded(split_ref(id).1) {
                    None => (res, malformed),
                    Some(text) => match fragment_of(text) {
                        FragmentView::Anchor(name) => with_anchor(res, name, ptr, url),
                        FragmentView::JsonPointer(_) => (res, None),
                    },
                },
                DeclaredView::Malformed => (res, malformed),
                DeclaredView::Nothing => (res, None),
            }
        } else {
            let first = match keyword_text(sch, "$anchor"@) {
                DeclaredView::Text(name) => with_anchor(res, name, ptr, url),
                DeclaredView::Malformed => (res, malformed),
                DeclaredView::Nothing => (res, None),
            };
            if first.1 is Some || self.version_spec() < 2020 {
                first
            } else {
                match keyword_text(sch, "$dynamicAnchor"@) {
                    DeclaredView::Text(name) => {
                        let second = with_anchor(first.0, name, ptr, url);
                        if second.1 is Some {
                            second
                        } else {
                            (
                                ResourceView {
                                    dynamic_anchors: second.0.dynamic_anchors.insert(name),
                                    ..second.0
                                },
                                None,
                            )
                        }
                    },
                    DeclaredView::Malformed => (first.0, malformed),
                    DeclaredView::Nothing => first,
                }
            }
        }
    }

    /// Records in `res` the anchors that the schema `sch` at `sch_ptr`
    /// declares itself; the schemas inside it are not looked at.
    pub fn collect_anchors(
        &self,
        sch: &Json,
        sch_ptr: &JsonPointer,
        res: &mut Resource,
        url: &Url,
    ) -> (r:
        Result<(), CompileError>)
        ensures
            final(res)@ == self.anchors_of(*sch, sch_ptr@, old(res)@, url@).0,
            distinct_names(old(res).dynamic_anchors@) ==> distinct_names(final(res).dynamic_anchors@),
            match r {
                Ok(()) => self.anchors_of(*sch, sch_ptr@, old(res)@, url@).1 is None,
                Err(e) => self.anchors_of(*sch, sch_ptr@, old(res)@, url@).1 == Some(e@),
            },
    {
        match sch {
            Json::Object(_) => {},
            _ => {
                return Ok(());
            },
        }
        let version = self.version();
        if version < 2019 && sch.get("$ref").is_some() {
            return Ok(());
        }
        if version < 2020 && sch.get("$dynamicAnchor").is_some() {
            let loc = UrlFrag::format(url, sch_ptr.as_str());
            return Err(CompileError::DynamicAnchorNotSupported { loc });
        }
        if version < 2019 {
            match read_keyword(sch, self.id_keyword()) {
                Declared::Text(id) => match Fragment::split(id) {
                    Err(_) => {
                        let loc = UrlFrag::format(url, sch_ptr.as_str());
                        return Err(CompileError::ParseAnchorError { loc });
                    },
                    Ok((_, frag)) => {
                        if let Fragment::Anchor(anchor) = frag {
                            return add_anchor(res, anchor.as_str(), sch_ptr, url);
                        }
                        return Ok(());
                    },
                },
                Declared::Malformed => {
                    let loc = UrlFrag::format(url, sch_ptr.as_str());
                    return Err(CompileError::ParseAnchorError { loc });
                },
                Declared::Nothing => {
                    return Ok(());
                },
            }
        }
        match read_keyword(sch, "$anchor") {
            Declared::Text(name) => match add_anchor(res, name, sch_ptr, url) {
                Err(e) => {
                    return Err(e);
                },
                Ok(()) => {},
            },
            Declared::Malformed => {
                let loc = UrlFrag::format(url, sch_ptr.as_str());
                return Err(CompileError::ParseAnchorError { loc });
            },
            Declared::Nothing => {},
        }
        if version >= 2020 {
            match read_keyword(sch, "$dynamicAnchor") {
                Declared::Text(name) => {
                    match add_anchor(res, name, sch_ptr, url) {
                        Err(e) => {
                            return Err(e);
                        },
                        Ok(()) => {},
                    }
                    insert_name(&mut res.dynamic_anchors, name);
                },
                Declared::Malformed => {
                    let loc = UrlFrag::format(url, sch_ptr.as_str());
                    return Err(CompileError::ParseAnchorError { loc });
                },
                Declared::Nothing => {},
            }
        }
        Ok(())
    }
}

/// Recording an anchor changes nothing else, and keeps every anchor that was
/// recorded.
pub proof fn lemma_with_anchor_extends(
    res: ResourceView,
    name: Seq<char>,
    ptr: Seq<char>,
    url: Seq<char>,
)
    ensures
        with_anchor(res, name, ptr, url).0.ptr == res.ptr,
        with_anchor(res, name, ptr, url).0.id == res.id,
        res.anchors.submap_of(with_anchor(res, name, ptr, url).0.anchors),
        with_anchor(res, name, ptr, url).0.dynamic_anchors == res.dynamic_anchors,
{
}

impl Draft {
    /// The keywords that hold subschemas, in the order in which a schema
    /// is walked.
    pub open spec fn subschema_table(self) -> Seq<(Seq<char>, Position)> {
        let v4 = seq![
            ("definitions"@, Position::Members),
            ("not"@, Position::Whole),
            ("allOf"@, Position::Items),
            ("anyOf"@, Position::Items),
            ("oneOf"@, Position::Items),
            ("properties"@, Position::Members),
            ("additionalProperties"@, Position::Whole),
            ("patternProperties"@, Position::Members),
            ("items"@, Position::WholeOrItems),
            ("additionalItems"@, Position::Whole),
            ("dependencies"@, Position::Members),
        ];
        let v6 = seq![("propertyNames"@, Position::Whole), ("contains"@, Position::Whole)];
        let v7 = seq![
            ("if"@, Position::Whole),
            ("then"@, Position::Whole),
            ("else"@, Position::Whole),
        ];
        let v2019 = seq![
            ("$defs"@, Position::Members),
            ("dependentSchemas"@, Position::Members),
            ("unevaluatedProperties"@, Position::Whole),
            ("unevaluatedItems"@, Position::Whole),
            ("contentSchema"@, Position::Whole),
        ];
        let v2020 = seq![("prefixItems"@, Position::Items)];
        match self {
            Draft::V4 => v4,
            Draft::V6 => v4 + v6,
            Draft::V7 => v4 + v6 + v7,
            Draft::V2019_09 => v4 + v6 + v7 + v2019,
            Draft::V2020_12 => v4 + v6 + v7 + v2019 + v2020,
        }
    }

    /// The keywords that hold subschemas.
    pub fn subschemas(&self) -> (r: Vec<(&'static str, Position)>)
        ensures
            table_view(r@) == self.subschema_table(),
    {
        let version = self.version();
        let mut table: Vec<(&'static str, Position)> = Vec::new();
        table.push(("definitions", Position::Members));
        table.push(("not", Position::Whole));
        table.push(("allOf", Position::Items));
        table.push(("anyOf", Position::Items));
        table.push(("oneOf", Position::Items));
        table.push(("properties", Position::Members));
        table.push(("additionalProperties", Position::Whole));
        table.push(("patternProperties", Position::Members));
        table.push(("items", Position::WholeOrItems));
        table.push(("additionalItems", Position::Whole));
        table.push(("dependencies", Position::Members));
        if version >= 6 {
            table.push(("propertyNames", Position::Whole));
            table.push(("contains", Position::Whole));
        }
        if version >= 7 {
            table.push(("if", Position::Whole));
            table.push(("then", Position::Whole));
            table.push(("else", Position::Whole));
        }
        if version >= 2019 {
            table.push(("$defs", Position::Members));
            table.push(("dependentSchemas", Position::Members));
            table.push(("unevaluatedProperties", Position::Whole));
            table.push(("unevaluatedItems", Position::Whole));
            table.push(("contentSchema", Position::Whole));
        }
        if version >= 2020 {
            table.push(("prefixItems", Position::Items));
        }
        proof {
            assert(table_view(table@) =~= self.subschema_table());
        }
        table
    }

    /// No value inside `j`, and not `j` itself, declares an identifier.
    pub open spec fn id_free(self, j: Json) -> bool
        decreases j,
    {
        match j {
            Json::Object(members) => self.declared_id(j) is Nothing && forall|i: int|
                0 <= i < members@.len() ==> self.id_free(#[trigger] members@[i].1),
            Json::Array(items) => forall|i: int|
                0 <= i < items@.len() ==> self.id_free(#[trigger] items@[i]),
            _ => true,
        }
    }

    /// The first step at an object: it becomes a resource where it
    /// declares an identifier, which is resolved against `base`, and where
    /// it is the document's root. An identifier that is malformed or
    /// cannot be resolved is a `ParseIdError`. The second part of the
    /// result is the base of what stands inside.
    pub open spec fn enter(
        self,
        sch: Json,
        base: Seq<char>,
        ptr: Seq<char>,
        url: Seq<char>,
        rs: Seq<ResourceView>,
    ) -> (
        Outcome,
        Seq<char>,
    ) {
        match self.declared_id(sch) {
            DeclaredView::Text(id) => match url_joined(base, id) {
                None => (failed(rs, ErrorView::ParseIdError { loc: format_loc(url, ptr) }), base),
                Some(u) => (register_spec(rs, ptr, u, url), u),
            },
            DeclaredView::Malformed => (
                failed(rs, ErrorView::ParseIdError { loc: format_loc(url, ptr) }),
                base,
            ),
            DeclaredView::Nothing => if ptr.len() == 0 {
                (register_spec(rs, ptr, base, url), base)
            } else {
                (done(rs), base)
            },
        }
    }

    /// The second step at an object: its anchors are recorded in the
    /// resource whose identifier is `base`, where there is one.
    pub open spec fn note_anchors(
        self,
        sch: Json,
        base: Seq<char>,
        ptr: Seq<char>,
        url: Seq<char>,
        rs: Seq<ResourceView>,
    ) -> Outcome {
        let k = id_index(rs, base);
        if 0 <= k < rs.len() {
            let noted = self.anchors_of(sch, ptr, rs[k], url);
            Outcome { resources: rs.update(k, noted.0), error: noted.1 }
        } else {
            done(rs)
        }
    }

    /// The resources of a document after the schema `sch` at `ptr` has
    /// been walked with the base `base`. A location that is registered
    /// already is left alone, with all that stands inside it. A boolean is
    /// a resource only at the document's root. An object is entered, its
    /// anchors are recorded, and the subschemas that its keywords hold are
    /// walked in the order of the table. The walk stops at the first error.
    pub open spec fn walk(
        self,
        sch: Json,
        base: Seq<char>,
        ptr: Seq<char>,
        url: Seq<char>,
        rs: Seq<ResourceView>,
    ) -> Outcome
        decreases sch, 1nat, 0nat,
    {
        if ptr_index(rs, ptr) < rs.len() {
            done(rs)
        } else {
            match sch {
                Json::Bool(_) => if ptr.len() == 0 {
                    register_spec(rs, ptr, base, url)
                } else {
                    done(rs)
                },
                Json::Object(_) => {
                    let entered = self.enter(sch, base, ptr, url, rs);
                    if entered.0.error is Some {
                        entered.0
                    } else {
                        let noted = self.note_anchors(sch, entered.1, ptr, url, entered.0.resources);
                        if noted.error is Some {
                            noted
                        } else {
                            self.walk_keywords(sch, entered.1, ptr, url, noted.resources, 0)
                        }
                    }
                },
                _ => done(rs),
            }
        }
    }

    /// The walk through the keywords of `sch` from the `k`-th of the table
    /// on.
    pub open spec fn walk_keywords(
        self,
        sch: Json,
        base: Seq<char>,
        ptr: Seq<char>,
        url: Seq<char>,
        rs: Seq<ResourceView>,
        k: nat,
    ) -> Outcome
        decreases sch, 0nat, self.subschema_table().len() - k,
    {
        let table = self.subschema_table();
        if k >= table.len() {
            done(rs)
        } else {
            let step = match sch {
                Json::Object(members) => {
                    let i = member_index(members@, table[k as int].0);
                    if 0 <= i < members@.len() {
                        self.walk_value(
                            members@[i].1,
                            table[k as int].1,
                            base,
                            child_ptr(ptr, table[k as int].0),
                            url,
                            rs,
                        )
                    } else {
                        done(rs)
                    }
                },
                _ => done(rs),
            };
            if step.error is Some {
                step
            } else {
                self.walk_keywords(sch, base, ptr, url, step.resources, k + 1)
            }
        }
    }

    /// The walk through the subschemas that the value `v` of a keyword
    /// holds: `v` itself, then its items, then its members, each where the
    /// keyword's position says so.
    pub open spec fn walk_value(
        self,
        v: Json,
        position: Position,
        base: Seq<char>,
        ptr: Seq<char>,
        url: Seq<char>,
        rs: Seq<ResourceView>,
    ) -> Outcome
        decreases v, 2nat, 0nat,
    {
        let first = if position.whole() {
            self.walk(v, base, ptr, url, rs)
        } else {
            done(rs)
        };
        if first.error is Some {
            first
        } else {
            let second = if position.items() {
                self.walk_items(v, base, ptr, url, first.resources, 0)
            } else {
                first
            };
            if second.error is Some {
                second
            } else if position.members() {
                self.walk_members(v, base, ptr, url, second.resources, 0)
            } else {
                second
            }
        }
    }

    /// The walk through the items of the array `v` from the `i`-th on.
    pub open spec fn walk_items(
        self,
        v: Json,
        base: Seq<char>,
        ptr: Seq<char>,
        url: Seq<char>,
        rs: Seq<ResourceView>,
        i: nat,
    ) -> Outcome
        decreases v, 1nat, (if v is Array { v->Array_0@.len() - i } else { 0 }),
    {
        match v {
            Json::Array(items) => if i >= items@.len() {
                done(rs)
            } else {
                let step = self.walk(items@[i as int], base, child_ptr(ptr, index_digits(i)), url, rs);
                if step.error is Some {
                    step
                } else {
                    self.walk_items(v, base, ptr, url, step.resources, i + 1)
                }
            },
            _ => done(rs),
        }
    }

    /// The walk through the members of the object `v` from the `i`-th on.
    /// A member whose name an earlier member has is passed over: the name
    /// stands for the first.
    pub open spec fn walk_members(
        self,
        v: Json,
        base: Seq<char>,
        ptr: Seq<char>,
        url: Seq<char>,
        rs: Seq<ResourceView>,
        i: nat,
    ) -> Outcome
        decreases v, 1nat, (if v is Object { v->Object_0@.len() - i } else { 0 }),
    {
        match v {
            Json::Object(members) => if i >= members@.len() {
                done(rs)
            } else {
                let step = if member_index(members@, members@[i as int].0@) == i {
                    self.walk(
                        members@[i as int].1,
                        base,
                        child_ptr(ptr, members@[i as int].0@),
                        url,
                        rs,
                    )
                } else {
                    done(rs)
                };
                if step.error is Some {
                    step
                } else {
                    self.walk_members(v, base, ptr, url, step.resources, i + 1)
                }
            },
            _ => done(rs),
        }
    }
}

/// A registry to which the resource at the empty pointer was added holds
/// the document's root.
pub proof fn lemma_registered_has_root(
    before: Seq<ResourceView>,
    ptr: Seq<char>,
    id: Seq<char>,
    after: Seq<ResourceView>,
)
    requires
        ptr.len() == 0,
        after == before.push(fresh_resource(ptr, id)),
    ensures
        has_root(after),
{
    let at = |r: ResourceView| r.ptr == Seq::<char>::empty();
    lemma_first_match(after, at);
    assert(ptr =~= Seq::<char>::empty());
    assert(at(after[after.len() - 1]));
}

/// What every step of registration keeps: the resources that were there,
/// and the registry's form.
pub open spec fn kept(before: Seq<ResourceView>, after: Seq<ResourceView>) -> bool {
    &&& extends(before, after)
    &&& registry_wf(before) ==> registry_wf(after)
}

/// What two steps in a row keep.
pub proof fn lemma_kept_trans(a: Seq<ResourceView>, b: Seq<ResourceView>, c: Seq<ResourceView>)
    requires
        kept(a, b),
        kept(b, c),
    ensures
        kept(a, c),
{
    lemma_extends_trans(a, b, c);
}

impl Draft {
    /// Recording the anchors of a schema leaves the resource where it is, with
    /// every anchor it had.
    pub proof fn lemma_anchors_of_extends(
        self,
        sch: Json,
        ptr: Seq<char>,
        res: ResourceView,
        url: Seq<char>,
    )
        ensures
            self.anchors_of(sch, ptr, res, url).0.ptr == res.ptr,
            self.anchors_of(sch, ptr, res, url).0.id == res.id,
            res.anchors.submap_of(self.anchors_of(sch, ptr, res, url).0.anchors),
            res.dynamic_anchors.subset_of(self.anchors_of(sch, ptr, res, url).0.dynamic_anchors),
            is_pointer(ptr) && anchors_lead_to_pointers(res) ==> anchors_lead_to_pointers(
                self.anchors_of(sch, ptr, res, url).0,
            ),
    {
    }

    /// Recording the anchors of a schema in the `k`-th resource keeps what
    /// `kept` asks for.
    pub proof fn lemma_note_update_kept(
        self,
        sch: Json,
        ptr: Seq<char>,
        url: Seq<char>,
        rs: Seq<ResourceView>,
        k: int,
    )
        requires
            0 <= k < rs.len(),
            is_pointer(ptr),
        ensures
            kept(rs, rs.update(k, self.anchors_of(sch, ptr, rs[k], url).0)),
    {
        let after = rs.update(k, self.anchors_of(sch, ptr, rs[k], url).0);
        self.lemma_anchors_of_extends(sch, ptr, rs[k], url);
        assert forall|i: int| 0 <= i < rs.len() implies {
            &&& (#[trigger] after[i]).ptr == rs[i].ptr
            &&& after[i].id == rs[i].id
            &&& rs[i].anchors.submap_of(after[i].anchors)
            &&& rs[i].dynamic_anchors.subset_of(after[i].dynamic_anchors)
        } by {}
        if registry_wf(rs) {
            assert forall|i: int, j: int| 0 <= i < j < after.len() implies after[i].ptr
                != after[j].ptr by {
                assert(after[i].ptr == rs[i].ptr && after[j].ptr == rs[j].ptr);
            }
            assert forall|i: int, j: int| 0 <= i < j < after.len() implies after[i].id
                != after[j].id by {
                assert(after[i].id == rs[i].id && after[j].id == rs[j].id);
            }
            assert forall|i: int| 0 <= i < after.len() implies is_pointer(
                #[trigger] after[i].ptr,
            ) by {
                assert(after[i].ptr == rs[i].ptr);
            }
            assert forall|i: int| 0 <= i < after.len() implies anchors_lead_to_pointers(
                #[trigger] after[i],
            ) by {
                assert(anchors_lead_to_pointers(rs[i]));
            }
        }
    }

    /// Recording anchors keeps what `kept` asks for.
    pub proof fn lemma_note_anchors_kept(
        self,
        sch: Json,
        base: Seq<char>,
        ptr: Seq<char>,
        url: Seq<char>,
        rs: Seq<ResourceView>,
    )
        requires
            is_pointer(ptr),
        ensures
            kept(rs, self.note_anchors(sch, base, ptr, url, rs).resources),
            self.note_anchors(sch, base, ptr, url, rs).resources.len() == rs.len(),
    {
        let k = id_index(rs, base);
        if 0 <= k < rs.len() {
            self.lemma_note_update_kept(sch, ptr, url, rs, k);
        } else {
            lemma_extends_refl(rs);
        }
    }

    /// Where nothing inside a document declares an identifier, nothing
    /// inside the value that a pointer leads to does.
    pub proof fn lemma_id_free_lookup(self, doc: Json, p: Seq<char>)
        requires
            self.id_free(doc),
        ensures
            lookup_spec(doc, p) matches Lookup::Found(v) ==> self.id_free(v),
        decreases p.len(),
    {
        if p.len() > 0 {
            let end = first_index_from(p, '/', 1);
            match unescape_spec(p.subrange(1, end)) {
                None => {},
                Some(tok) => match child(doc, tok) {
                    None => {},
                    Some(v) => {
                        match doc {
                            Json::Object(members) => {
                                lemma_member_index(members@, tok);
                                assert(v == members@[member_index(members@, tok)].1);
                            },
                            Json::Array(items) => {
                                assert(v == items@[index_value(tok)->0 as int]);
                            },
                            _ => {},
                        }
                        if 1 <= end <= p.len() {
                            self.lemma_id_free_lookup(v, p.skip(end));
                        }
                    },
                },
            }
        }
    }

    /// Registers the resources that the schema `sch` at `sch_ptr` holds,
    /// and records their anchors. `base` is the URL in force at `sch_ptr`,
    /// `url` that of the document. What is registered and which error ends
    /// the walk is what `walk` says; resources that were registered stay as
    /// they are but for new anchors, and a schema in which nothing declares
    /// an identifier adds no resource below the document's root.
    pub fn collect_resources(
        &self,
        sch: &Json,
        base: &Url,
        sch_ptr: JsonPointer,
        url: &Url,
        resources: &mut Vec<Resource>,
    ) -> (r: Result<(), CompileError>)
        requires
            sch_ptr.wf(),
        ensures
            realizes(
                self.walk(*sch, base@, sch_ptr@, url@, views(old(resources)@)),
                views(final(resources)@),
                r,
            ),
            kept(views(old(resources)@), views(final(resources)@)),
            all_distinct_names(old(resources)@) ==> all_distinct_names(final(resources)@),
            self.id_free(*sch) ==> final(resources)@.len() <= old(resources)@.len() + (if sch_ptr@.len()
                == 0 {
                1int
            } else {
                0int
            }),
            sch_ptr@.len() == 0 ==> has_root(views(final(resources)@)) || views(final(resources)@)
                == views(old(resources)@),
    {
        let table = self.subschemas();
        self.collect_at(&table, sch, base, sch_ptr, url, resources)
    }

    fn collect_at(
        &self,
        table: &Vec<(&'static str, Position)>,
        sch: &Json,
        base: &Url,
        sch_ptr: JsonPointer,
        url: &Url,
        resources: &mut Vec<Resource>,
    ) -> (r: Result<(), CompileError>)
        requires
            table_view(table@) == self.subschema_table(),
            sch_ptr.wf(),
        ensures
            realizes(
                self.walk(*sch, base@, sch_ptr@, url@, views(old(resources)@)),
                views(final(resources)@),
                r,
            ),
            kept(views(old(resources)@), views(final(resources)@)),
            all_distinct_names(old(resources)@) ==> all_distinct_names(final(resources)@),
            self.id_free(*sch) ==> final(resources)@.len() <= old(resources)@.len() + (if sch_ptr@.len()
                == 0 {
                1int
            } else {
                0int
            }),
            sch_ptr@.len() == 0 ==> has_root(views(final(resources)@)) || views(final(resources)@)
                == views(old(resources)@),
        decreases sch, 1nat, 0nat,
    {
        let ghost start = views(resources@);
        if find_ptr(resources, sch_ptr.as_str()).is_some() {
            return Ok(());
        }
        match sch {
            Json::Bool(_) => {
                if sch_ptr.is_empty() {
                    let r = register(resources, &sch_ptr, base.clone(), url);
                    proof {
                        if r is Ok {
                            lemma_registered_has_root(start, sch_ptr@, base@, views(resources@));
                        }
                    }
                    return r;
                }
                return Ok(());
            },
            Json::Object(_) => {},
            _ => {
                return Ok(());
            },
        }
        let own: Option<Url> = match self.get_id(sch) {
            Declared::Malformed => {
                let loc = UrlFrag::format(url, sch_ptr.as_str());
                return Err(CompileError::ParseIdError { loc });
            },
            Declared::Text(id) => match base.join(id) {
                Err(_) => {
                    let loc = UrlFrag::format(url, sch_ptr.as_str());
                    return Err(CompileError::ParseIdError { loc });
                },
                Ok(u) => {
                    match register(resources, &sch_ptr, u.clone(), url) {
                        Err(e) => {
                            return Err(e);
                        },
                        Ok(()) => {},
                    }
                    Some(u)
                },
            },
            Declared::Nothing => {
                if sch_ptr.is_empty() {
                    match register(resources, &sch_ptr, base.clone(), url) {
                        Err(e) => {
                            return Err(e);
                        },
                        Ok(()) => {},
                    }
                }
                None
            },
        };
        let inner: &Url = match &own {
            Some(u) => u,
            None => base,
        };
        let ghost entered = views(resources@);
        proof {
            if sch_ptr@.len() == 0 {
                lemma_registered_has_root(start, sch_ptr@, inner@, entered);
            }
            assert(entered == self.enter(*sch, base@, sch_ptr@, url@, start).0.resources);
            assert(inner@ == self.enter(*sch, base@, sch_ptr@, url@, start).1);
            self.lemma_note_anchors_kept(*sch, inner@, sch_ptr@, url@, entered);
        }
        match find_id(resources, inner) {
            Some(k) => {
                let noted = self.collect_anchors(sch, &sch_ptr, &mut resources[k], url);
                proof {
                    assert(views(resources@) =~= self.note_anchors(
                        *sch,
                        inner@,
                        sch_ptr@,
                        url@,
                        entered,
                    ).resources);
                    lemma_kept_trans(start, entered, views(resources@));
                    if sch_ptr@.len() == 0 {
                        lemma_extends_keeps_index(entered, views(resources@), Seq::empty());
                    }
                }
                match noted {
                    Err(e) => {
                        return Err(e);
                    },
                    Ok(()) => {},
                }
            },
            None => {},
        }
        let ghost noted = views(resources@);
        let r = self.collect_keywords(table, sch, inner, &sch_ptr, url, resources);
        proof {
            lemma_kept_trans(start, noted, views(resources@));
            if sch_ptr@.len() == 0 {
                lemma_extends_trans(entered, noted, views(resources@));
                lemma_extends_keeps_index(entered, views(resources@), Seq::empty());
            }
        }
        r
    }

    fn collect_keywords(
        &self,
        table: &Vec<(&'static str, Position)>,
        sch: &Json,
        base: &Url,
        sch_ptr: &JsonPointer,
        url: &Url,
        resources: &mut Vec<Resource>,
    ) -> (r: Result<(), CompileError>)
        requires
            table_view(table@) == self.subschema_table(),
            sch_ptr.wf(),
        ensures
            realizes(
                self.walk_keywords(*sch, base@, sch_ptr@, url@, views(old(resources)@), 0),
                views(final(resources)@),
                r,
            ),
            kept(views(old(resources)@), views(final(resources)@)),
            all_distinct_names(old(resources)@) ==> all_distinct_names(final(resources)@),
            self.id_free(*sch) ==> final(resources)@.len() == old(resources)@.len(),
        decreases sch, 0nat, 0nat,
    {
        let ghost start = views(resources@);
        let mut k: usize = 0;
        proof {
            lemma_extends_refl(start);
        }
        while k < table.len()
            invariant
                k <= table.len(),
                table_view(table@) == self.subschema_table(),
                sch_ptr.wf(),
                self.walk_keywords(*sch, base@, sch_ptr@, url@, start, 0) == self.walk_keywords(
                    *sch,
                    base@,
                    sch_ptr@,
                    url@,
                    views(resources@),
                    k as nat,
                ),
                start == views(old(resources)@),
                kept(start, views(resources@)),
                all_distinct_names(old(resources)@) ==> all_distinct_names(resources@),
                self.id_free(*sch) ==> resources@.len() == start.len(),
            decreases table.len() - k,
        {
            let ghost before = views(resources@);
            let keyword = table[k].0;
            let position = table[k].1;
            proof {
                assert(table_view(table@)[k as int] == (keyword@, position));
            }
            match sch.get(keyword) {
                Some(v) => {
                    proof {
                        let members = sch->Object_0;
                        lemma_member_index(members@, keyword@);
                        assert(*v == members@[member_index(members@, keyword@)].1);
                    }
                    let r = self.collect_value(
                        table,
                        v,
                        position,
                        base,
                        sch_ptr.append(keyword),
                        url,
                        resources,
                    );
                    proof {
                        lemma_kept_trans(start, before, views(resources@));
                    }
                    match r {
                        Err(e) => {
                            return Err(e);
                        },
                        Ok(()) => {},
                    }
                },
                None => {
                    proof {
                        if sch is Object {
                            lemma_member_index(sch->Object_0@, keyword@);
                        }
                    }
                },
            }
            k = k + 1;
        }
        Ok(())
    }

    fn collect_value(
        &self,
        table: &Vec<(&'static str, Position)>,
        v: &Json,
        position: Position,
        base: &Url,
        ptr: JsonPointer,
        url: &Url,
        resources: &mut Vec<Resource>,
    ) -> (r: Result<(), CompileError>)
        requires
            table_view(table@) == self.subschema_table(),
            ptr.wf(),
            ptr@.len() > 0,
        ensures
            realizes(
                self.walk_value(*v, position, base@, ptr@, url@, views(old(resources)@)),
                views(final(resources)@),
                r,
            ),
            kept(views(old(resources)@), views(final(resources)@)),
            all_distinct_names(old(resources)@) ==> all_distinct_names(final(resources)@),
            self.id_free(*v) ==> final(resources)@.len() == old(resources)@.len(),
        decreases v, 2nat, 0nat,
    {
        let ghost start = views(resources@);
        proof {
            lemma_extends_refl(start);
        }
        if position.whole() {
            match self.collect_at(table, v, base, ptr.clone(), url, resources) {
                Err(e) => {
                    return Err(e);
                },
                Ok(()) => {},
            }
        }
        let ghost first = views(resources@);
        if position.items() {
            let r = self.collect_items(table, v, base, &ptr, url, resources);
            proof {
                lemma_kept_trans(start, first, views(resources@));
            }
            match r {
                Err(e) => {
                    return Err(e);
                },
                Ok(()) => {},
            }
        }
        let ghost second = views(resources@);
        if position.members() {
            let r = self.collect_members(table, v, base, &ptr, url, resources);
            proof {
                lemma_kept_trans(start, second, views(resources@));
            }
            r
        } else {
            Ok(())
        }
    }

    fn collect_items(
        &self,
        table: &Vec<(&'static str, Position)>,
        v: &Json,
        base: &Url,
        ptr: &JsonPointer,
        url: &Url,
        resources: &mut Vec<Resource>,
    ) -> (r: Result<(), CompileError>)
        requires
            table_view(table@) == self.subschema_table(),
            ptr.wf(),
        ensures
            realizes(
                self.walk_items(*v, base@, ptr@, url@, views(old(resources)@), 0),
                views(final(resources)@),
                r,
            ),
            kept(views(old(resources)@), views(final(resources)@)),
            all_distinct_names(old(resources)@) ==> all_distinct_names(final(resources)@),
            self.id_free(*v) ==> final(resources)@.len() == old(resources)@.len(),
        decreases v, 1nat, 0nat,
    {
        let ghost start = views(resources@);
        proof {
            lemma_extends_refl(start);
        }
        match v {
            Json::Array(items) => {
                let mut i: usize = 0;
                while i < items.len()
                    invariant
                        i <= items.len(),
                        *v == Json::Array(*items),
                        table_view(table@) == self.subschema_table(),
                        ptr.wf(),
                        self.walk_items(*v, base@, ptr@, url@, start, 0) == self.walk_items(
                            *v,
                            base@,
                            ptr@,
                            url@,
                            views(resources@),
                            i as nat,
                        ),
                        start == views(old(resources)@),
                        kept(start, views(resources@)),
                        all_distinct_names(old(resources)@) ==> all_distinct_names(resources@),
                        self.id_free(*v) ==> resources@.len() == start.len(),
                    decreases items.len() - i,
                {
                    let ghost before = views(resources@);
                    let token = index_text(i);
                    let r = self.collect_at(
                        table,
                        &items[i],
                        base,
                        ptr.append(token.as_str()),
                        url,
                        resources,
                    );
                    proof {
                        lemma_kept_trans(start, before, views(resources@));
                    }
                    match r {
                        Err(e) => {
                            return Err(e);
                        },
                        Ok(()) => {},
                    }
                    i = i + 1;
                }
                Ok(())
            },
            _ => Ok(()),
        }
    }

    fn collect_members(
        &self,
        table: &Vec<(&'static str, Position)>,
        v: &Json,
        base: &Url,
        ptr: &JsonPointer,
        url: &Url,
        resources: &mut Vec<Resource>,
    ) -> (r: Result<(), CompileError>)
        requires
            table_view(table@) == self.subschema_table(),
            ptr.wf(),
        ensures
            realizes(
                self.walk_members(*v, base@, ptr@, url@, views(old(resources)@), 0),
                views(final(resources)@),
                r,
            ),
            kept(views(old(resources)@), views(final(resources)@)),
            all_distinct_names(old(resources)@) ==> all_distinct_names(final(resources)@),
            self.id_free(*v) ==> final(resources)@.len() == old(resources)@.len(),
        decreases v, 1nat, 0nat,
    {
        let ghost start = views(resources@);
        proof {
            lemma_extends_refl(start);
        }
        match v {
            Json::Object(members) => {
                let mut i: usize = 0;
                while i < members.len()
                    invariant
                        i <= members.len(),
                        *v == Json::Object(*members),
                        table_view(table@) == self.subschema_table(),
                        ptr.wf(),
                        self.walk_members(*v, base@, ptr@, url@, start, 0) == self.walk_members(
                            *v,
                            base@,
                            ptr@,
                            url@,
                            views(resources@),
                            i as nat,
                        ),
                        start == views(old(resources)@),
                        kept(start, views(resources@)),
                        all_distinct_names(old(resources)@) ==> all_distinct_names(resources@),
                        self.id_free(*v) ==> resources@.len() == start.len(),
                    decreases members.len() - i,
                {
                    if position(members, members[i].0.as_str()) == i {
                        let ghost before = views(resources@);
                        let r = self.collect_at(
                            table,
                            &members[i].1,
                            base,
                            ptr.append(members[i].0.as_str()),
                            url,
                            resources,
                        );
                        proof {
                            lemma_kept_trans(start, before, views(resources@));
                        }
                        match r {
                            Err(e) => {
                                return Err(e);
                            },
                            Ok(()) => {},
                        }
                    }
                    i = i + 1;
                }
                Ok(())
            },
            _ => Ok(()),
        }
    }
}

impl Draft {
    /// Whether documents of this draft choose their vocabularies.
    pub open spec fn has_vocabs_spec(self) -> bool {
        self.version_spec() >= 2019
    }

    /// Whether documents of this draft choose their vocabularies.
    pub fn has_vocabs(&self) -> (r: bool)
        ensures
            r == self.has_vocabs_spec(),
    {
        self.version() >= 2019
    }

    /// The vocabularies that are on where a document names none.
    pub open spec fn default_vocabs_spec(self) -> Seq<Seq<char>> {
        match self {
            Draft::V2019_09 => seq!["core"@, "applicator"@, "validation"@],
            Draft::V2020_12 => seq!["core"@, "applicator"@, "unevaluated"@, "validation"@],
            _ => Seq::empty(),
        }
    }

    /// The vocabularies that the draft has.
    pub open spec fn all_vocabs_spec(self) -> Seq<Seq<char>> {
        match self {
            Draft::V2019_09 => seq![
                "core"@,
                "applicator"@,
                "validation"@,
                "meta-data"@,
                "format"@,
                "content"@,
            ],
            Draft::V2020_12 => seq![
                "core"@,
                "applicator"@,
                "unevaluated"@,
                "validation"@,
                "meta-data"@,
                "format-annotation"@,
                "format-assertion"@,
                "content"@,
            ],
            _ => Seq::empty(),
        }
    }

    /// The vocabularies that the draft has.
    pub fn all_vocabs(&self) -> (r: Vec<&'static str>)
        ensures
            Self::names_view(r@) == self.all_vocabs_spec(),
    {
        let mut names: Vec<&'static str> = Vec::new();
        match self {
            Draft::V2019_09 => {
                names.push("core");
                names.push("applicator");
                names.push("validation");
                names.push("meta-data");
                names.push("format");
                names.push("content");
            },
            Draft::V2020_12 => {
                names.push("core");
                names.push("applicator");
                names.push("unevaluated");
                names.push("validation");
                names.push("meta-data");
                names.push("format-annotation");
                names.push("format-assertion");
                names.push("content");
            },
            _ => {},
        }
        proof {
            assert(Self::names_view(names@) =~= self.all_vocabs_spec());
        }
        names
    }

    /// Whether the draft has the vocabulary `name`.
    pub fn knows_vocab(&self, name: &str) -> (r: bool)
        ensures
            r == self.all_vocabs_spec().contains(name@),
    {
        let all = self.all_vocabs();
        let ghost names = self.all_vocabs_spec();
        let mut i: usize = 0;
        while i < all.len()
            invariant
                i <= all.len(),
                names == self.all_vocabs_spec(),
                Self::names_view(all@) == names,
                forall|j: int| 0 <= j < i ==> #[trigger] names[j] != name@,
            decreases all.len() - i,
        {
            proof {
                assert(names[i as int] == all@[i as int]@);
            }
            if str_eq(all[i], name) {
                proof {
                    assert(names[i as int] == name@);
                }
                return true;
            }
            i = i + 1;
        }
        false
    }

    /// Position of the first of `names` that the draft does not have as
    /// a vocabulary, from the `k`-th on; `names.len()` where it has all.
    pub open spec fn first_unknown_vocab(self, names: Seq<Seq<char>>, k: int) -> int
        decreases names.len() - k,
    {
        if k < 0 || k >= names.len() {
            names.len() as int
        } else if !self.all_vocabs_spec().contains(names[k]) {
            k
        } else {
            self.first_unknown_vocab(names, k + 1)
        }
    }

    /// The first of `names` that the draft does not have as a vocabulary.
    pub fn find_unknown_vocab(&self, names: &Vec<String>) -> (r: Option<usize>)
        ensures
            match r {
                Some(k) => k < names@.len() && k == self.first_unknown_vocab(text_views(names@), 0),
                None => self.first_unknown_vocab(text_views(names@), 0) == names@.len(),
            },
    {
        let mut k: usize = 0;
        while k < names.len()
            invariant
                k <= names.len(),
                self.first_unknown_vocab(text_views(names@), 0) == self.first_unknown_vocab(
                    text_views(names@),
                    k as int,
                ),
            decreases names.len() - k,
        {
            if !self.knows_vocab(names[k].as_str()) {
                return Some(k);
            }
            k = k + 1;
        }
        None
    }

    /// What the URLs of the draft's vocabularies begin with.
    pub open spec fn vocab_prefix_spec(self) -> Seq<char> {
        match self {
            Draft::V2019_09 => "https://json-schema.org/draft/2019-09/vocab/"@,
            Draft::V2020_12 => "https://json-schema.org/draft/2020-12/vocab/"@,
            _ => Seq::empty(),
        }
    }

    /// What the URLs of the draft's vocabularies begin with.
    pub fn vocab_prefix(&self) -> (r: &'static str)
        ensures
            r@ == self.vocab_prefix_spec(),
    {
        proof {
            reveal_strlit("");
            assert(""@ =~= Seq::<char>::empty());
        }
        match self {
            Draft::V2019_09 => "https://json-schema.org/draft/2019-09/vocab/",
            Draft::V2020_12 => "https://json-schema.org/draft/2020-12/vocab/",
            _ => "",
        }
    }

    /// The vocabulary of the draft that stands at `vocab_url`.
    pub open spec fn vocab_named(self, vocab_url: Seq<char>) -> Option<Seq<char>> {
        let rest = vocab_url.skip(self.vocab_prefix_spec().len() as int);
        if starts_with(vocab_url, self.vocab_prefix_spec()) && self.all_vocabs_spec().contains(rest) {
            Some(rest)
        } else {
            None
        }
    }

    /// The vocabulary of the draft that stands at `vocab_url`.
    pub fn vocab_name<'a>(&self, vocab_url: &'a str) -> (r: Option<&'a str>)
        ensures
            match r {
                Some(name) => self.vocab_named(vocab_url@) == Some(name@),
                None => self.vocab_named(vocab_url@) is None,
            },
    {
        match strip_prefix(vocab_url, self.vocab_prefix()) {
            Some(rest) => if self.knows_vocab(rest) {
                Some(rest)
            } else {
                None
            },
            None => None,
        }
    }

    /// The vocabularies that the first `n` members of a `$vocabulary`
    /// name. A member whose URL names none of the draft's vocabularies is
    /// passed over where its value is not `true`, and is the error where
    /// it is.
    pub open spec fn vocabs_upto(self, members: Seq<(String, Json)>, n: int) -> Result<
        Seq<Seq<char>>,
        Seq<char>,
    >
        decreases n,
    {
        if n <= 0 || n > members.len() {
            Ok(Seq::empty())
        } else {
            match self.vocabs_upto(members, n - 1) {
                Err(u) => Err(u),
                Ok(head) => match self.vocab_named(members[n - 1].0@) {
                    Some(name) => Ok(head.push(name)),
                    None => if members[n - 1].1 matches Json::Bool(b) && b {
                        Err(members[n - 1].0@)
                    } else {
                        Ok(head)
                    },
                },
            }
        }
    }

    /// An error among the first members is the error of all of them.
    pub proof fn lemma_vocabs_stay_err(self, members: Seq<(String, Json)>, n: int, m: int)
        requires
            0 < n <= m <= members.len(),
            self.vocabs_upto(members, n) is Err,
        ensures
            self.vocabs_upto(members, m) == self.vocabs_upto(members, n),
        decreases m - n,
    {
        if n < m {
            self.lemma_vocabs_stay_err(members, n, m - 1);
        }
    }

    /// The vocabularies that the meta-schema `meta` names for the
    /// documents that refer to it: those of its `$vocabulary`, and `None`
    /// where it has none or the draft has no vocabularies. The error is
    /// the URL of a vocabulary that is asked for and not known.
    pub open spec fn vocabs_of(self, meta: Json) -> Result<Option<Seq<Seq<char>>>, Seq<char>> {
        if !self.has_vocabs_spec() {
            Ok(None)
        } else {
            match meta.member("$vocabulary"@) {
                Some(Json::Object(members)) => match self.vocabs_upto(
                    members@,
                    members@.len() as int,
                ) {
                    Ok(names) => Ok(Some(names)),
                    Err(u) => Err(u),
                },
                _ => Ok(None),
            }
        }
    }

    /// The vocabularies that the meta-schema `meta` names for the document
    /// at `url`.
    pub fn get_vocabs(&self, meta: &Json, url: &Url) -> (r: Result<Option<Vec<String>>, CompileError>)
        ensures
            match r {
                Ok(Some(names)) => self.vocabs_of(*meta) == Ok::<_, Seq<char>>(
                    Some(text_views(names@)),
                ),
                Ok(None) => self.vocabs_of(*meta) == Ok::<Option<Seq<Seq<char>>>, Seq<char>>(None),
                Err(e) => self.vocabs_of(*meta) matches Err(u) && e@
                    == (ErrorView::UnsupportedVocabulary { url: url@, vocabulary: u }),
            },
    {
        if !self.has_vocabs() {
            return Ok(None);
        }
        let members = match meta.get("$vocabulary") {
            Some(Json::Object(members)) => members,
            _ => {
                return Ok(None);
            },
        };
        let mut names: Vec<String> = Vec::new();
        let mut i: usize = 0;
        proof {
            assert(text_views(names@) =~= Seq::<Seq<char>>::empty());
        }
        while i < members.len()
            invariant
                i <= members.len(),
                self.has_vocabs_spec(),
                meta.member("$vocabulary"@) == Some(Json::Object(*members)),
                self.vocabs_upto(members@, i as int) == Ok::<_, Seq<char>>(text_views(names@)),
            decreases members.len() - i,
        {
            let ghost before = text_views(names@);
            match self.vocab_name(members[i].0.as_str()) {
                Some(name) => {
                    names.push(name.to_owned());
                    proof {
                        assert(text_views(names@) =~= before.push(name@));
                    }
                },
                None => {
                    if let Json::Bool(true) = &members[i].1 {
                        proof {
                            assert(self.vocabs_upto(members@, i + 1) == Err::<Seq<Seq<char>>, _>(
                                members@[i as int].0@,
                            ));
                            self.lemma_vocabs_stay_err(members@, i + 1, members@.len() as int);
                        }
                        return Err(
                            CompileError::UnsupportedVocabulary {
                                url: url.to_string(),
                                vocabulary: members[i].0.clone(),
                            },
                        );
                    }
                },
            }
            i = i + 1;
        }
        Ok(Some(names))
    }

    /// The names of `names`, as plain values.
    pub open spec fn names_view(names: Seq<&'static str>) -> Seq<Seq<char>> {
        names.map_values(|n: &'static str| n@)
    }

    /// The vocabularies that are on where a document names none.
    pub fn default_vocabs(&self) -> (r: Vec<&'static str>)
        ensures
            Self::names_view(r@) == self.default_vocabs_spec(),
    {
        let mut names: Vec<&'static str> = Vec::new();
        match self {
            Draft::V2019_09 => {
                names.push("core");
                names.push("applicator");
                names.push("validation");
            },
            Draft::V2020_12 => {
                names.push("core");
                names.push("applicator");
                names.push("unevaluated");
                names.push("validation");
            },
            _ => {},
        }
        proof {
            assert(Self::names_view(names@) =~= self.default_vocabs_spec());
        }
        names
    }
}

/// A URL without `http:` or `https:` in front; `None` where it begins
/// with neither.
pub open spec fn without_scheme(u: Seq<char>) -> Option<Seq<char>> {
    if starts_with(u, "http:"@) {
        Some(u.skip("http:"@.len() as int))
    } else if starts_with(u, "https:"@) {
        Some(u.skip("https:"@.len() as int))
    } else {
        None
    }
}

impl Draft {
    /// The draft whose meta-schema stands at `rest`, which is a URL
    /// without its scheme.
    pub open spec fn from_address(rest: Seq<char>) -> Option<Draft> {
        if rest == "//json-schema.org/schema"@ || rest == "//json-schema.org/draft/2020-12/schema"@ {
            Some(Draft::V2020_12)
        } else if rest == "//json-schema.org/draft/2019-09/schema"@ {
            Some(Draft::V2019_09)
        } else if rest == "//json-schema.org/draft-07/schema"@ {
            Some(Draft::V7)
        } else if rest == "//json-schema.org/draft-06/schema"@ {
            Some(Draft::V6)
        } else if rest == "//json-schema.org/draft-04/schema"@ {
            Some(Draft::V4)
        } else {
            None
        }
    }

    /// The draft that `url` names as a meta-schema: one of the known
    /// addresses under `http:` or `https:`, with nothing or an empty
    /// fragment behind it.
    pub open spec fn from_url_spec(url: Seq<char>) -> Option<Draft> {
        if split_ref(url).1.len() > 0 {
            None
        } else {
            match without_scheme(split_ref(url).0) {
                Some(rest) => Self::from_address(rest),
                None => None,
            }
        }
    }

    /// The draft that `url` names as a meta-schema.
    pub fn from_url(url: &str) -> (r: Option<Draft>)
        ensures
            r == Self::from_url_spec(url@),
    {
        let (u, frag) = split(url);
        if frag.unicode_len() > 0 {
            return None;
        }
        let rest = match strip_prefix(u, "http:") {
            Some(rest) => rest,
            None => match strip_prefix(u, "https:") {
                Some(rest) => rest,
                None => {
                    return None;
                },
            },
        };
        if str_eq(rest, "//json-schema.org/schema") || str_eq(
            rest,
            "//json-schema.org/draft/2020-12/schema",
        ) {
            Some(Draft::V2020_12)
        } else if str_eq(rest, "//json-schema.org/draft/2019-09/schema") {
            Some(Draft::V2019_09)
        } else if str_eq(rest, "//json-schema.org/draft-07/schema") {
            Some(Draft::V7)
        } else if str_eq(rest, "//json-schema.org/draft-06/schema") {
            Some(Draft::V6)
        } else if str_eq(rest, "//json-schema.org/draft-04/schema") {
            Some(Draft::V4)
        } else {
            None
        }
    }

    /// The draft that the document `doc` is written in: the one that its
    /// `$schema` names, or `fallback` where it has no `$schema`. `None`
    /// where `$schema` names no known draft.
    pub open spec fn of_document(doc: Json, fallback: Draft) -> Option<Draft> {
        match doc.member("$schema"@) {
            Some(Json::String(url)) => Self::from_url_spec(url@),
            _ => Some(fallback),
        }
    }

    /// The draft that `doc` is written in, or the `$schema` that names
    /// none.
    pub fn detect<'a>(doc: &'a Json, fallback: Draft) -> (r: Result<Draft, &'a str>)
        ensures
            match r {
                Ok(d) => Self::of_document(*doc, fallback) == Some(d),
                Err(url) => {
                    &&& Self::of_document(*doc, fallback) is None
                    &&& doc.member("$schema"@) matches Some(Json::String(text)) && text@ == url@
                },
            },
    {
        match doc.get("$schema") {
            Some(Json::String(url)) => match Self::from_url(url.as_str()) {
                Some(d) => Ok(d),
                None => Err(url.as_str()),
            },
            _ => Ok(fallback),
        }
    }
}

} // verus!
