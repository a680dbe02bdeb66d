//! Compiled schemas and their application to values.

use vstd::prelude::*;
use vstd::string::*;
use crate::builder::schema_builder::PrimitiveType;
use crate::json::Json;
use crate::pointer::{child_ptr, index_digits, index_text, JsonPointer};
use crate::text::str_eq;
use crate::util::{format_loc, UrlPtr};

verus! {

/// The place of a compiled schema among the `Schemas` it was compiled
/// into.
#[derive(Clone, Copy, Debug, PartialEq, Eq, Structural)]
pub struct SchemaIndex(pub usize);

/// A reference that is resolved while a value is validated.
pub struct DynamicRef {
    /// The dynamic anchor that the reference names, where the schema it
    /// leads to by itself declares that anchor; else the reference is an
    /// ordinary one.
    pub anchor: Option<String>,
    /// The schema that the reference leads to by itself.
    pub target: usize,
}

/// One compiled schema. Every `usize` in it is the place of another
/// schema of the same `Schemas`.
pub struct Schema {
    /// Where the schema stands.
    pub loc: UrlPtr,
    /// Whether the fields below are filled in yet.
    pub compiled: bool,
    /// The schema at which the resource of this schema begins.
    pub resource: usize,
    /// Where the resource begins here: its dynamic anchors and the
    /// schemas that they name.
    pub dynamic_anchors: Vec<(String, usize)>,
    /// `true` and `false` as schemas.
    pub boolean: Option<bool>,
    pub ref_: Option<usize>,
    pub dynamic_ref: Option<DynamicRef>,
    /// The types that the value may have; every type where empty.
    pub types: Vec<PrimitiveType>,
    pub required: Vec<String>,
    pub properties: Vec<(String, usize)>,
    pub prefix_items: Vec<usize>,
    pub items: Option<usize>,
    pub all_of: Vec<usize>,
    pub any_of: Vec<usize>,
    pub one_of: Vec<usize>,
    pub not: Option<usize>,
}

/// Why a value was not accepted.
#[derive(Clone, Copy, Debug, PartialEq, Eq, Structural)]
pub enum ErrorKind {
    /// The schema is `false`.
    FalseSchema,
    /// The schema that `$ref` leads to rejects the value.
    Reference,
    /// The schema that `$dynamicRef` leads to rejects the value.
    DynamicReference,
    /// The value has none of the types asked for.
    Type,
    /// A required member is missing; `detail` names it.
    Required,
    /// A member is rejected by its schema; `detail` names it.
    Properties,
    /// An item is rejected by the schema for its position.
    PrefixItems,
    /// An item is rejected by the schema for the remaining items.
    Items,
    /// One of the schemas of `allOf` rejects the value.
    AllOf,
    /// Every schema of `anyOf` rejects the value.
    AnyOf,
    /// Not exactly one schema of `oneOf` accepts the value.
    OneOf,
    /// The schema of `not` accepts the value.
    Not,
    /// Validation went deeper than the limit allows. This is no verdict
    /// on the value: it is handed up unchanged through every keyword.
    DepthExceeded,
}

/// A value that was not accepted: the schema and the keyword that
/// rejected it, where in the value, and the failure inside that led to it.
#[derive(Debug, PartialEq, Eq)]
pub struct ValidationError {
    /// The schema's location, written out.
    pub schema_location: String,
    /// The pointer to the rejected part of the value.
    pub instance_location: String,
    pub kind: ErrorKind,
    /// The name of the member concerned, where the kind has one.
    pub detail: String,
    pub cause: Option<Box<ValidationError>>,
}

/// A `ValidationError` as plain values.
pub struct Rejection {
    pub schema_location: Seq<char>,
    pub instance_location: Seq<char>,
    pub kind: ErrorKind,
    pub detail: Seq<char>,
    pub cause: Option<Box<Rejection>>,
}

impl View for ValidationError {
    type V = Rejection;

    open spec fn view(&self) -> Rejection
        decreases self,
    {
        Rejection {
            schema_location: self.schema_location@,
            instance_location: self.instance_location@,
            kind: self.kind,
            detail: self.detail@,
            cause: match self.cause {
                Some(inner) => Some(Box::new((*inner)@)),
                None => None,
            },
        }
    }
}

/// `f`, or `g` where there is no `f`.
pub open spec fn or_else(f: Option<Rejection>, g: Option<Rejection>) -> Option<Rejection> {
    if f is Some {
        f
    } else {
        g
    }
}

/// The text is a whole number: digits, behind `-` or not.
pub open spec fn is_integer_text(t: Seq<char>) -> bool {
    if t.len() > 0 && t[0] == '-' {
        t.len() > 1 && forall|i: int| 1 <= i < t.len() ==> crate::pointer::is_digit(#[trigger] t[i])
    } else {
        t.len() > 0 && forall|i: int| 0 <= i < t.len() ==> crate::pointer::is_digit(#[trigger] t[i])
    }
}

/// Whether the value `v` has the type `t`. A number is an integer when
/// it is written without fraction and exponent.
pub open spec fn has_type(v: Json, t: PrimitiveType) -> bool {
    match t {
        PrimitiveType::Array => v is Array,
        PrimitiveType::Boolean => v is Bool,
        PrimitiveType::Integer => v matches Json::Number(text) && is_integer_text(text@),
        PrimitiveType::Number => v is Number,
        PrimitiveType::Null => v is Null,
        PrimitiveType::Object => v is Object,
        PrimitiveType::String => v is String,
    }
}

/// Position of the first entry named `name`, or `entries.len()`.
pub open spec fn entry_index(entries: Seq<(String, usize)>, name: Seq<char>) -> int
    decreases entries.len(),
{
    if entries.len() == 0 {
        0
    } else if entries[0].0@ == name {
        0
    } else {
        1 + entry_index(entries.drop_first(), name)
    }
}

/// What `entry_index` finds is the first entry named `name`, if there is one.
pub proof fn lemma_entry_index(entries: Seq<(String, usize)>, name: Seq<char>)
    ensures
        0 <= entry_index(entries, name) <= entries.len(),
        entry_index(entries, name) < entries.len() ==> entries[entry_index(entries, name)].0@
            == name,
        forall|i: int| 0 <= i < entry_index(entries, name) ==> (#[trigger] entries[i]).0@ != name,
    decreases entries.len(),
{
    if entries.len() > 0 && entries[0].0@ != name {
        let rest = entries.drop_first();
        lemma_entry_index(rest, name);
        assert forall|i: int| 0 <= i < entry_index(entries, name) implies (#[trigger] entries[i]).0@
            != name by {
            if i > 0 {
                assert(rest[i - 1] == entries[i]);
            }
        }
    }
}

/// Finds the first entry named `name`.
pub fn find_entry(entries: &Vec<(String, usize)>, name: &str) -> (r: Option<usize>)
    ensures
        match r {
            Some(i) => i < entries@.len() && i == entry_index(entries@, name@),
            None => entry_index(entries@, name@) == entries@.len(),
        },
{
    let mut i: usize = 0;
    proof {
        lemma_entry_index(entries@, name@);
    }
    while i < entries.len()
        invariant
            i <= entries.len(),
            i <= entry_index(entries@, name@) <= entries@.len(),
        decreases entries.len() - i,
    {
        if str_eq(entries[i].0.as_str(), name) {
            proof {
                lemma_entry_index(entries@, name@);
                assert(entries@[i as int].0@ == name@);
            }
            return Some(i);
        }
        proof {
            lemma_entry_index(entries@, name@);
            assert(entries@[i as int].0@ != name@);
        }
        i = i + 1;
    }
    None
}

/// Whether the text is a whole number.
pub fn check_integer_text(text: &str) -> (r: bool)
    ensures
        r == is_integer_text(text@),
{
    let n = text.unicode_len();
    if n == 0 {
        return false;
    }
    let start: usize = if text.get_char(0) == '-' {
        1
    } else {
        0
    };
    if start == n {
        return false;
    }
    let mut i: usize = start;
    while i < n
        invariant
            start <= i <= n,
            n == text@.len(),
            start == (if text@[0] == '-' {
                1int
            } else {
                0int
            }),
            forall|j: int| start <= j < i ==> crate::pointer::is_digit(#[trigger] text@[j]),
        decreases n - i,
    {
        let c = text.get_char(i);
        if !(c >= '0' && c <= '9') {
            proof {
                assert(!crate::pointer::is_digit(text@[i as int]));
            }
            return false;
        }
        i = i + 1;
    }
    true
}

/// Whether `v` has the type `t`.
pub fn check_type(v: &Json, t: PrimitiveType) -> (r: bool)
    ensures
        r == has_type(*v, t),
{
    match t {
        PrimitiveType::Array => match v {
            Json::Array(_) => true,
            _ => false,
        },
        PrimitiveType::Boolean => match v {
            Json::Bool(_) => true,
            _ => false,
        },
        PrimitiveType::Integer => match v {
            Json::Number(text) => check_integer_text(text.as_str()),
            _ => false,
        },
        PrimitiveType::Number => match v {
            Json::Number(_) => true,
            _ => false,
        },
        PrimitiveType::Null => match v {
            Json::Null => true,
            _ => false,
        },
        PrimitiveType::Object => match v {
            Json::Object(_) => true,
            _ => false,
        },
        PrimitiveType::String => match v {
            Json::String(_) => true,
            _ => false,
        },
    }
}

/// Position of the first schema that stands at `ptr` of the document at
/// `url`, or `list.len()`.
pub open spec fn loc_index(list: Seq<Schema>, url: Seq<char>, ptr: Seq<char>) -> int
    decreases list.len(),
{
    if list.len() == 0 {
        0
    } else if list[0].loc.url@ == url && list[0].loc.ptr@ == ptr {
        0
    } else {
        1 + loc_index(list.drop_first(), url, ptr)
    }
}

/// What `loc_index` finds is the first schema at the location, if there is one.
pub proof fn lemma_loc_index(list: Seq<Schema>, url: Seq<char>, ptr: Seq<char>)
    ensures
        0 <= loc_index(list, url, ptr) <= list.len(),
        loc_index(list, url, ptr) < list.len() ==> list[loc_index(list, url, ptr)].loc.url@ == url
            && list[loc_index(list, url, ptr)].loc.ptr@ == ptr,
        forall|i: int|
            0 <= i < loc_index(list, url, ptr) ==> !((#[trigger] list[i]).loc.url@ == url
                && list[i].loc.ptr@ == ptr),
    decreases list.len(),
{
    if list.len() > 0 && !(list[0].loc.url@ == url && list[0].loc.ptr@ == ptr) {
        let rest = list.drop_first();
        lemma_loc_index(rest, url, ptr);
        assert forall|i: int| 0 <= i < loc_index(list, url, ptr) implies !((
        #[trigger] list[i]).loc.url@ == url && list[i].loc.ptr@ == ptr) by {
            if i > 0 {
                assert(rest[i - 1] == list[i]);
            }
        }
    }
}

/// The first schema at a location is at `k` when one stands there and
/// none before it does.
pub proof fn lemma_loc_index_at(list: Seq<Schema>, url: Seq<char>, ptr: Seq<char>, k: int)
    requires
        0 <= k <= list.len(),
        k < list.len() ==> list[k].loc.url@ == url && list[k].loc.ptr@ == ptr,
        forall|i: int|
            0 <= i < k ==> !((#[trigger] list[i]).loc.url@ == url && list[i].loc.ptr@ == ptr),
    ensures
        loc_index(list, url, ptr) == k,
{
    lemma_loc_index(list, url, ptr);
    let m = loc_index(list, url, ptr);
    if m < k {
        assert(!(list[m].loc.url@ == url && list[m].loc.ptr@ == ptr));
    }
}

/// Where the first schema at a location stands depends on the locations
/// of the schemas alone.
pub proof fn lemma_loc_index_same(a: Seq<Schema>, b: Seq<Schema>)
    requires
        a.len() == b.len(),
        forall|i: int|
            0 <= i < a.len() ==> (#[trigger] b[i]).loc.url@ == a[i].loc.url@ && b[i].loc.ptr@
                == a[i].loc.ptr@,
    ensures
        forall|url: Seq<char>, ptr: Seq<char>| #[trigger]
            loc_index(b, url, ptr) == loc_index(a, url, ptr),
{
    assert forall|url: Seq<char>, ptr: Seq<char>| #[trigger]
        loc_index(b, url, ptr) == loc_index(a, url, ptr) by {
        lemma_loc_index(a, url, ptr);
        let k = loc_index(a, url, ptr);
        assert forall|i: int| 0 <= i < k implies !((#[trigger] b[i]).loc.url@ == url
            && b[i].loc.ptr@ == ptr) by {
            assert(!(a[i].loc.url@ == url && a[i].loc.ptr@ == ptr));
        }
        lemma_loc_index_at(b, url, ptr, k);
    }
}

/// No two schemas stand at the same location.
pub open spec fn distinct_locs(list: Seq<Schema>) -> bool {
    forall|i: int, j: int|
        0 <= i < j < list.len() ==> !((#[trigger] list[i]).loc.url@ == (#[trigger] list[j]).loc.url@
            && list[i].loc.ptr@ == list[j].loc.ptr@)
}

/// Every schema from the `from`-th on is compiled.
pub open spec fn compiled_from(list: Seq<Schema>, from: int) -> bool {
    forall|i: int| from <= i < list.len() ==> (#[trigger] list[i]).compiled
}

/// Finds the schema that stands at `up`.
pub fn find_loc(list: &Vec<Schema>, up: &UrlPtr) -> (r: Option<usize>)
    ensures
        match r {
            Some(i) => i < list@.len() && i == loc_index(list@, up.url@, up.ptr@),
            None => loc_index(list@, up.url@, up.ptr@) == list@.len(),
        },
{
    let mut i: usize = 0;
    while i < list.len()
        invariant
            i <= list.len(),
            forall|j: int|
                0 <= j < i ==> !((#[trigger] list@[j]).loc.url@ == up.url@ && list@[j].loc.ptr@
                    == up.ptr@),
        decreases list.len() - i,
    {
        if list[i].loc.same(up) {
            proof {
                lemma_loc_index_at(list@, up.url@, up.ptr@, i as int);
            }
            return Some(i);
        }
        i = i + 1;
    }
    proof {
        lemma_loc_index_at(list@, up.url@, up.ptr@, i as int);
    }
    None
}

impl Schema {
    /// A schema at `loc` that asks for nothing, for the place `idx`.
    pub fn placeholder(loc: UrlPtr, idx: usize) -> (r: Schema)
        ensures
            r.loc == loc,
            !r.compiled,
            r.resource == idx,
            r.dynamic_anchors@.len() == 0,
            r.boolean is None,
            r.ref_ is None,
            r.dynamic_ref is None,
            r.types@.len() == 0,
            r.required@.len() == 0,
            r.properties@.len() == 0,
            r.prefix_items@.len() == 0,
            r.items is None,
            r.all_of@.len() == 0,
            r.any_of@.len() == 0,
            r.one_of@.len() == 0,
            r.not is None,
    {
        Schema {
            loc,
            compiled: false,
            resource: idx,
            dynamic_anchors: Vec::new(),
            boolean: None,
            ref_: None,
            dynamic_ref: None,
            types: Vec::new(),
            required: Vec::new(),
            properties: Vec::new(),
            prefix_items: Vec::new(),
            items: None,
            all_of: Vec::new(),
            any_of: Vec::new(),
            one_of: Vec::new(),
            not: None,
        }
    }
}

/// The compiled schemas, each at its place.
pub struct Schemas {
    pub list: Vec<Schema>,
    /// How many schemas deep a validation may go.
    pub max_depth: usize,
}

impl Schemas {
    /// Every place in `idxs` holds a schema.
    pub open spec fn all_in_range(self, idxs: Seq<usize>) -> bool {
        forall|j: int| 0 <= j < idxs.len() ==> #[trigger] idxs[j] < self.list@.len()
    }

    /// Every place that `entries` names holds a schema.
    pub open spec fn entries_in_range(self, entries: Seq<(String, usize)>) -> bool {
        forall|j: int| 0 <= j < entries.len() ==> (#[trigger] entries[j]).1 < self.list@.len()
    }

    /// Every place that the schema `n` names holds a schema.
    pub open spec fn node_wf(self, n: Schema) -> bool {
        &&& n.resource < self.list@.len()
        &&& self.entries_in_range(n.dynamic_anchors@)
        &&& n.ref_ matches Some(t) ==> t < self.list@.len()
        &&& n.dynamic_ref matches Some(dr) ==> dr.target < self.list@.len()
        &&& self.entries_in_range(n.properties@)
        &&& self.all_in_range(n.prefix_items@)
        &&& n.items matches Some(t) ==> t < self.list@.len()
        &&& self.all_in_range(n.all_of@)
        &&& self.all_in_range(n.any_of@)
        &&& self.all_in_range(n.one_of@)
        &&& n.not matches Some(t) ==> t < self.list@.len()
    }

    /// No schema names a place that holds none.
    pub open spec fn wf(self) -> bool {
        &&& self.list@.len() <= usize::MAX
        &&& forall|i: int| 0 <= i < self.list@.len() ==> self.node_wf(#[trigger] self.list@[i])
    }

    /// `after` holds every schema of `self` at its place, unchanged, and
    /// no two schemas at one location unless `self` does.
    pub open spec fn grows_to(self, after: Schemas) -> bool {
        &&& after.max_depth == self.max_depth
        &&& self.list@.len() <= after.list@.len()
        &&& forall|i: int| 0 <= i < self.list@.len() ==> #[trigger] after.list@[i] == self.list@[i]
        &&& distinct_locs(self.list@) ==> distinct_locs(after.list@)
    }

    /// A schema that names only places of `self` names only places of
    /// longer `Schemas`.
    pub proof fn lemma_node_wf_grows(self, after: Schemas, n: Schema)
        requires
            self.node_wf(n),
            self.list@.len() <= after.list@.len(),
        ensures
            after.node_wf(n),
    {
    }

    /// What grew twice grew.
    pub proof fn lemma_grows_trans(self, b: Schemas, c: Schemas)
        requires
            self.grows_to(b),
            b.grows_to(c),
        ensures
            self.grows_to(c),
    {
        assert forall|i: int| 0 <= i < self.list@.len() implies #[trigger] c.list@[i]
            == self.list@[i] by {
            assert(b.list@[i] == self.list@[i]);
        }
    }

    /// Schemas grow to themselves.
    pub proof fn lemma_grows_refl(self)
        ensures
            self.grows_to(self),
    {
    }

    /// The failure of the schema at `idx` on the part of the value at
    /// `inst`.
    pub open spec fn failure(
        self,
        idx: usize,
        inst: Seq<char>,
        kind: ErrorKind,
        detail: Seq<char>,
        cause: Option<Rejection>,
    ) -> Rejection {
        Rejection {
            schema_location: format_loc(
                self.list@[idx as int].loc.url@,
                self.list@[idx as int].loc.ptr@,
            ),
            instance_location: inst,
            kind,
            detail,
            cause: match cause {
                Some(c) => Some(Box::new(c)),
                None => None,
            },
        }
    }

    /// What a keyword of the schema at `idx` reports when the schema it
    /// applied reported `inner`: nothing for nothing, a failure of its
    /// own kind around a failure, and `DepthExceeded` as it came.
    pub open spec fn wrap(
        self,
        inner: Option<Rejection>,
        idx: usize,
        inst: Seq<char>,
        kind: ErrorKind,
        detail: Seq<char>,
    ) -> Option<Rejection> {
        match inner {
            None => None,
            Some(f) => if f.kind == ErrorKind::DepthExceeded {
                Some(f)
            } else {
                Some(self.failure(idx, inst, kind, detail, Some(f)))
            },
        }
    }

    /// The schema that a dynamic reference to `name` leads to: the one
    /// that the outermost schema on `scope`, from the `k`-th on, names for
    /// `name` among the dynamic anchors of its resource, and `fallback`
    /// where none does.
    pub open spec fn dynamic_target(
        self,
        scope: Seq<usize>,
        k: int,
        name: Seq<char>,
        fallback: usize,
    ) -> usize
        decreases scope.len() - k,
    {
        if k < 0 || k >= scope.len() {
            fallback
        } else {
            let anchors = self.list@[self.list@[scope[k] as int].resource as int].dynamic_anchors@;
            let j = entry_index(anchors, name);
            if j < anchors.len() {
                anchors[j].1
            } else {
                self.dynamic_target(scope, k + 1, name, fallback)
            }
        }
    }

    /// A dynamic reference leads to `fallback` where no schema on
    /// `scope`, from the `k`-th on, names the anchor among the dynamic
    /// anchors of its resource, and else to what the first of them that
    /// names it leads to.
    pub proof fn lemma_dynamic_target_is_outermost(
        self,
        scope: Seq<usize>,
        k: int,
        name: Seq<char>,
        fallback: usize,
    )
        requires
            0 <= k <= scope.len(),
        ensures
            (forall|j: int|
                k <= j < scope.len() ==> entry_index(
                    self.list@[self.list@[#[trigger] scope[j] as int].resource as int].dynamic_anchors@,
                    name,
                ) >= self.list@[self.list@[scope[j] as int].resource as int].dynamic_anchors@.len())
                ==> self.dynamic_target(scope, k, name, fallback) == fallback,
            forall|j: int|
                k <= j < scope.len() && (forall|i: int|
                    k <= i < j ==> entry_index(
                        self.list@[self.list@[#[trigger] scope[i] as int].resource as int].dynamic_anchors@,
                        name,
                    ) >= self.list@[self.list@[scope[i] as int].resource as int].dynamic_anchors@.len())
                    && entry_index(
                    self.list@[self.list@[#[trigger] scope[j] as int].resource as int].dynamic_anchors@,
                    name,
                ) < self.list@[self.list@[scope[j] as int].resource as int].dynamic_anchors@.len()
                    ==> self.dynamic_target(scope, k, name, fallback)
                    == self.list@[self.list@[scope[j] as int].resource as int].dynamic_anchors@[entry_index(
                        self.list@[self.list@[scope[j] as int].resource as int].dynamic_anchors@,
                        name,
                    )].1,
        decreases scope.len() - k,
    {
        if k < scope.len() {
            self.lemma_dynamic_target_is_outermost(scope, k + 1, name, fallback);
            let anchors = self.list@[self.list@[scope[k] as int].resource as int].dynamic_anchors@;
            lemma_entry_index(anchors, name);
        }
    }

    /// What the schema at `idx` reports on the value `v`, which stands at
    /// `inst` in the value that is validated: `None` where it accepts `v`.
    /// `scope` holds the schemas entered so far, outermost first, and
    /// `depth` how many more may be entered. The keywords are asked in a
    /// fixed order and the first failure is the report.
    pub open spec fn eval(
        self,
        idx: usize,
        v: Json,
        inst: Seq<char>,
        scope: Seq<usize>,
        depth: nat,
    ) -> Option<Rejection>
        decreases depth, 0nat, 0nat,
    {
        if depth == 0 {
            Some(self.failure(idx, inst, ErrorKind::DepthExceeded, Seq::empty(), None))
        } else {
            let d = (depth - 1) as nat;
            let inner = scope.push(idx);
            match self.list@[idx as int].boolean {
                Some(b) => if b {
                    None
                } else {
                    Some(self.failure(idx, inst, ErrorKind::FalseSchema, Seq::empty(), None))
                },
                None => self.eval_keywords(idx, v, inst, inner, d),
            }
        }
    }

    /// What the keywords of the schema at `idx` report, asked in their
    /// order: the first failure.
    pub open spec fn eval_keywords(
        self,
        idx: usize,
        v: Json,
        inst: Seq<char>,
        inner: Seq<usize>,
        d: nat,
    ) -> Option<Rejection>
        decreases d, 2nat, 0nat,
    {
        or_else(
                    self.eval_ref(idx, v, inst, inner, d),
                    or_else(
                        self.eval_dynamic_ref(idx, v, inst, inner, d),
                        or_else(
                            self.eval_type(idx, v, inst),
                            or_else(
                                self.eval_required(idx, v, inst, 0),
                                or_else(
                                    self.eval_properties(idx, v, inst, inner, d, 0),
                                    or_else(
                                        self.eval_prefix(idx, v, inst, inner, d, 0),
                                        or_else(
                                            self.eval_items(
                                                idx,
                                                v,
                                                inst,
                                                inner,
                                                d,
                                                self.list@[idx as int].prefix_items@.len(),
                                            ),
                                            or_else(
                                                self.eval_all_of(idx, v, inst, inner, d, 0),
                                                or_else(
                                                    self.eval_any_of(idx, v, inst, inner, d, 0),
                                                    or_else(
                                                        self.eval_one_of(
                                                            idx,
                                                            v,
                                                            inst,
                                                            inner,
                                                            d,
                                                            0,
                                                            false,
                                                        ),
                                                        self.eval_not(idx, v, inst, inner, d),
                                                    ),
                                                ),
                                            ),
                                        ),
                                    ),
                                ),
                            ),
                        ),
                    ),
                )
    }

    /// `$ref`: the schema it leads to must accept the value.
    pub open spec fn eval_ref(
        self,
        idx: usize,
        v: Json,
        inst: Seq<char>,
        scope: Seq<usize>,
        d: nat,
    ) -> Option<Rejection>
        decreases d, 1nat, 0nat,
    {
        match self.list@[idx as int].ref_ {
            Some(t) => self.wrap(
                self.eval(t, v, inst, scope, d),
                idx,
                inst,
                ErrorKind::Reference,
                Seq::empty(),
            ),
            None => None,
        }
    }

    /// The schema that the dynamic reference of the schema at `idx` leads
    /// to under `scope`.
    pub open spec fn dynamic_choice(self, idx: usize, scope: Seq<usize>) -> usize {
        let dr = self.list@[idx as int].dynamic_ref->0;
        match dr.anchor {
            Some(name) => self.dynamic_target(scope, 0, name@, dr.target),
            None => dr.target,
        }
    }

    /// `$dynamicRef`: the schema it leads to under `scope` must accept
    /// the value.
    pub open spec fn eval_dynamic_ref(
        self,
        idx: usize,
        v: Json,
        inst: Seq<char>,
        scope: Seq<usize>,
        d: nat,
    ) -> Option<Rejection>
        decreases d, 1nat, 0nat,
    {
        if self.list@[idx as int].dynamic_ref is Some {
            self.wrap(
                self.eval(self.dynamic_choice(idx, scope), v, inst, scope, d),
                idx,
                inst,
                ErrorKind::DynamicReference,
                Seq::empty(),
            )
        } else {
            None
        }
    }

    /// `type`: the value has one of the types, where any are named.
    pub open spec fn eval_type(self, idx: usize, v: Json, inst: Seq<char>) -> Option<Rejection> {
        let types = self.list@[idx as int].types@;
        if types.len() == 0 || exists|j: int| 0 <= j < types.len() && has_type(v, #[trigger] types[j]) {
            None
        } else {
            Some(self.failure(idx, inst, ErrorKind::Type, Seq::empty(), None))
        }
    }

    /// `required`, from the `k`-th name on: an object has each member
    /// named.
    pub open spec fn eval_required(
        self,
        idx: usize,
        v: Json,
        inst: Seq<char>,
        k: nat,
    ) -> Option<Rejection>
        decreases self.list@[idx as int].required@.len() - k,
    {
        let names = self.list@[idx as int].required@;
        if !(v is Object) || k >= names.len() {
            None
        } else if v.member(names[k as int]@) is None {
            Some(self.failure(idx, inst, ErrorKind::Required, names[k as int]@, None))
        } else {
            self.eval_required(idx, v, inst, k + 1)
        }
    }

    /// `properties`, from the `k`-th entry on: each member of an object
    /// that an entry names is accepted by the entry's schema.
    pub open spec fn eval_properties(
        self,
        idx: usize,
        v: Json,
        inst: Seq<char>,
        scope: Seq<usize>,
        d: nat,
        k: nat,
    ) -> Option<Rejection>
        decreases d, 1nat, self.list@[idx as int].properties@.len() - k,
    {
        let entries = self.list@[idx as int].properties@;
        if !(v is Object) || k >= entries.len() {
            None
        } else {
            let name = entries[k as int].0@;
            let here = match v.member(name) {
                Some(inner) => self.wrap(
                    self.eval(entries[k as int].1, inner, child_ptr(inst, name), scope, d),
                    idx,
                    inst,
                    ErrorKind::Properties,
                    name,
                ),
                None => None,
            };
            or_else(here, self.eval_properties(idx, v, inst, scope, d, k + 1))
        }
    }

    /// `prefixItems`, from the `k`-th on: each item of an array is
    /// accepted by the schema for its position, where there is one.
    pub open spec fn eval_prefix(
        self,
        idx: usize,
        v: Json,
        inst: Seq<char>,
        scope: Seq<usize>,
        d: nat,
        k: nat,
    ) -> Option<Rejection>
        decreases d, 1nat, self.list@[idx as int].prefix_items@.len() - k,
    {
        let prefix = self.list@[idx as int].prefix_items@;
        match v {
            Json::Array(items) => if k >= prefix.len() || k >= items@.len() {
                None
            } else {
                or_else(
                    self.wrap(
                        self.eval(
                            prefix[k as int],
                            items@[k as int],
                            child_ptr(inst, index_digits(k)),
                            scope,
                            d,
                        ),
                        idx,
                        inst,
                        ErrorKind::PrefixItems,
                        Seq::empty(),
                    ),
                    self.eval_prefix(idx, v, inst, scope, d, k + 1),
                )
            },
            _ => None,
        }
    }

    /// `items`, from the `k`-th item on: each item of an array behind
    /// those that `prefixItems` covers is accepted by the one schema.
    pub open spec fn eval_items(
        self,
        idx: usize,
        v: Json,
        inst: Seq<char>,
        scope: Seq<usize>,
        d: nat,
        k: nat,
    ) -> Option<Rejection>
        decreases d, 1nat, (if v is Array {
            v->Array_0@.len() - k
        } else {
            0
        }),
    {
        match (v, self.list@[idx as int].items) {
            (Json::Array(items), Some(t)) => if k >= items@.len() {
                None
            } else {
                or_else(
                    self.wrap(
                        self.eval(t, items@[k as int], child_ptr(inst, index_digits(k)), scope, d),
                        idx,
                        inst,
                        ErrorKind::Items,
                        Seq::empty(),
                    ),
                    self.eval_items(idx, v, inst, scope, d, k + 1),
                )
            },
            _ => None,
        }
    }

    /// `allOf`, from the `k`-th schema on: each accepts the value.
    pub open spec fn eval_all_of(
        self,
        idx: usize,
        v: Json,
        inst: Seq<char>,
        scope: Seq<usize>,
        d: nat,
        k: nat,
    ) -> Option<Rejection>
        decreases d, 1nat, self.list@[idx as int].all_of@.len() - k,
    {
        let all = self.list@[idx as int].all_of@;
        if k >= all.len() {
            None
        } else {
            or_else(
                self.wrap(
                    self.eval(all[k as int], v, inst, scope, d),
                    idx,
                    inst,
                    ErrorKind::AllOf,
                    Seq::empty(),
                ),
                self.eval_all_of(idx, v, inst, scope, d, k + 1),
            )
        }
    }

    /// `anyOf`, from the `k`-th schema on: one accepts the value. An
    /// empty list asks for nothing.
    pub open spec fn eval_any_of(
        self,
        idx: usize,
        v: Json,
        inst: Seq<char>,
        scope: Seq<usize>,
        d: nat,
        k: nat,
    ) -> Option<Rejection>
        decreases d, 1nat, self.list@[idx as int].any_of@.len() - k,
    {
        let any = self.list@[idx as int].any_of@;
        if any.len() == 0 {
            None
        } else if k >= any.len() {
            Some(self.failure(idx, inst, ErrorKind::AnyOf, Seq::empty(), None))
        } else {
            match self.eval(any[k as int], v, inst, scope, d) {
                None => None,
                Some(f) => if f.kind == ErrorKind::DepthExceeded {
                    Some(f)
                } else {
                    self.eval_any_of(idx, v, inst, scope, d, k + 1)
                },
            }
        }
    }

    /// `oneOf`, from the `k`-th schema on, where `found` says whether an
    /// earlier one accepted the value: exactly one accepts it. An empty
    /// list asks for nothing.
    pub open spec fn eval_one_of(
        self,
        idx: usize,
        v: Json,
        inst: Seq<char>,
        scope: Seq<usize>,
        d: nat,
        k: nat,
        found: bool,
    ) -> Option<Rejection>
        decreases d, 1nat, self.list@[idx as int].one_of@.len() - k,
    {
        let one = self.list@[idx as int].one_of@;
        if one.len() == 0 {
            None
        } else if k >= one.len() {
            if found {
                None
            } else {
                Some(self.failure(idx, inst, ErrorKind::OneOf, Seq::empty(), None))
            }
        } else {
            match self.eval(one[k as int], v, inst, scope, d) {
                None => if found {
                    Some(self.failure(idx, inst, ErrorKind::OneOf, Seq::empty(), None))
                } else {
                    self.eval_one_of(idx, v, inst, scope, d, k + 1, true)
                },
                Some(f) => if f.kind == ErrorKind::DepthExceeded {
                    Some(f)
                } else {
                    self.eval_one_of(idx, v, inst, scope, d, k + 1, found)
                },
            }
        }
    }

    /// `not`: its schema rejects the value.
    pub open spec fn eval_not(
        self,
        idx: usize,
        v: Json,
        inst: Seq<char>,
        scope: Seq<usize>,
        d: nat,
    ) -> Option<Rejection>
        decreases d, 1nat, 0nat,
    {
        match self.list@[idx as int].not {
            Some(t) => match self.eval(t, v, inst, scope, d) {
                None => Some(self.failure(idx, inst, ErrorKind::Not, Seq::empty(), None)),
                Some(f) => if f.kind == ErrorKind::DepthExceeded {
                    Some(f)
                } else {
                    None
                },
            },
            None => None,
        }
    }
}

/// What a validation's result reports.
pub open spec fn report(r: Result<(), ValidationError>) -> Option<Rejection> {
    match r {
        Ok(()) => None,
        Err(e) => Some(e@),
    }
}

impl Default for Schemas {
    fn default() -> (r: Self)
        ensures
            r.list@.len() == 0,
            r.max_depth == 512,
            r.wf(),
    {
        Schemas { list: Vec::new(), max_depth: 512 }
    }
}

impl Schemas {
    /// No schemas, and the usual limit on depth.
    pub fn new() -> (r: Self)
        ensures
            r.list@.len() == 0,
            r.max_depth == 512,
            r.wf(),
    {
        Schemas { list: Vec::new(), max_depth: 512 }
    }

    /// Sets how many schemas deep a validation may go.
    pub fn set_max_depth(&mut self, depth: usize)
        ensures
            final(self).list == old(self).list,
            final(self).max_depth == depth,
    {
        self.max_depth = depth;
    }

    /// Applies the schema at `idx` to the value `v`. `Ok` says that the
    /// schema accepts `v`; the error is the first failure in the order of
    /// the keywords, with the failure that led to it inside.
    pub fn validate(&self, v: &Json, idx: SchemaIndex) -> (r: Result<(), ValidationError>)
        requires
            self.wf(),
            idx.0 < self.list@.len(),
        ensures
            report(r) == self.eval(
                idx.0,
                *v,
                Seq::empty(),
                Seq::empty(),
                self.max_depth as nat,
            ),
    {
        let mut scope: Vec<usize> = Vec::new();
        let inst = JsonPointer::root();
        self.run(idx.0, v, &inst, &mut scope, self.max_depth)
    }

    fn error_at(
        &self,
        idx: usize,
        inst: &JsonPointer,
        kind: ErrorKind,
        detail: &str,
        cause: Option<Box<ValidationError>>,
    ) -> (r:
        ValidationError)
        requires
            idx < self.list@.len(),
        ensures
            r@ == self.failure(
                idx,
                inst@,
                kind,
                detail@,
                match cause {
                    Some(c) => Some((*c)@),
                    None => None,
                },
            ),
    {
        ValidationError {
            schema_location: self.list[idx].loc.to_string(),
            instance_location: inst.to_string(),
            kind,
            detail: detail.to_owned(),
            cause,
        }
    }

    fn plain_error(&self, idx: usize, inst: &JsonPointer, kind: ErrorKind) -> (r: ValidationError)
        requires
            idx < self.list@.len(),
        ensures
            r@ == self.failure(idx, inst@, kind, Seq::empty(), None),
    {
        proof {
            reveal_strlit("");
            assert(""@ =~= Seq::<char>::empty());
        }
        self.error_at(idx, inst, kind, "", None)
    }

    fn wrap_result(
        &self,
        inner: Result<(), ValidationError>,
        idx: usize,
        inst: &JsonPointer,
        kind: ErrorKind,
        detail: &str,
    ) -> (r:
        Result<(), ValidationError>)
        requires
            idx < self.list@.len(),
        ensures
            report(r) == self.wrap(report(inner), idx, inst@, kind, detail@),
    {
        match inner {
            Ok(()) => Ok(()),
            Err(e) => {
                if e.kind == ErrorKind::DepthExceeded {
                    Err(e)
                } else {
                    Err(self.error_at(idx, inst, kind, detail, Some(Box::new(e))))
                }
            },
        }
    }

    fn plain_wrap(
        &self,
        inner: Result<(), ValidationError>,
        idx: usize,
        inst: &JsonPointer,
        kind: ErrorKind,
    ) -> (r:
        Result<(), ValidationError>)
        requires
            idx < self.list@.len(),
        ensures
            report(r) == self.wrap(report(inner), idx, inst@, kind, Seq::empty()),
    {
        proof {
            reveal_strlit("");
            assert(""@ =~= Seq::<char>::empty());
        }
        self.wrap_result(inner, idx, inst, kind, "")
    }

    /// The schema that a dynamic reference to `name` leads to under
    /// `scope`.
    pub fn find_dynamic(&self, scope: &Vec<usize>, name: &str, fallback: usize) -> (t: usize)
        requires
            self.wf(),
            self.all_in_range(scope@),
            fallback < self.list@.len(),
        ensures
            t == self.dynamic_target(scope@, 0, name@, fallback),
            t < self.list@.len(),
    {
        let mut k: usize = 0;
        while k < scope.len()
            invariant
                k <= scope.len(),
                self.wf(),
                self.all_in_range(scope@),
                fallback < self.list@.len(),
                self.dynamic_target(scope@, 0, name@, fallback) == self.dynamic_target(
                    scope@,
                    k as int,
                    name@,
                    fallback,
                ),
            decreases scope.len() - k,
        {
            let entered = scope[k];
            let first = self.list[entered].resource;
            proof {
                assert(self.node_wf(self.list@[entered as int]));
                assert(self.node_wf(self.list@[first as int]));
            }
            let anchors = &self.list[first].dynamic_anchors;
            match find_entry(anchors, name) {
                Some(j) => {
                    return anchors[j].1;
                },
                None => {},
            }
            k = k + 1;
        }
        fallback
    }

    fn run(
        &self,
        idx: usize,
        v: &Json,
        inst: &JsonPointer,
        scope: &mut Vec<usize>,
        depth: usize,
    ) -> (r:
        Result<(), ValidationError>)
        requires
            self.wf(),
            idx < self.list@.len(),
            self.all_in_range(old(scope)@),
        ensures
            final(scope)@ == old(scope)@,
            report(r) == self.eval(idx, *v, inst@, old(scope)@, depth as nat),
        decreases depth, 0nat, 0nat,
    {
        if depth == 0 {
            return Err(self.plain_error(idx, inst, ErrorKind::DepthExceeded));
        }
        match self.list[idx].boolean {
            Some(b) => {
                if b {
                    return Ok(());
                }
                return Err(self.plain_error(idx, inst, ErrorKind::FalseSchema));
            },
            None => {},
        }
        let ghost outer = scope@;
        scope.push(idx);
        let r = self.apply(idx, v, inst, scope, depth - 1);
        scope.pop();
        proof {
            assert(scope@ =~= outer);
        }
        r
    }

    fn apply(
        &self,
        idx: usize,
        v: &Json,
        inst: &JsonPointer,
        scope: &mut Vec<usize>,
        d: usize,
    ) -> (r:
        Result<(), ValidationError>)
        requires
            self.wf(),
            idx < self.list@.len(),
            self.all_in_range(old(scope)@),
        ensures
            final(scope)@ == old(scope)@,
            report(r) == self.eval_keywords(idx, *v, inst@, old(scope)@, d as nat),
        decreases d, 2nat, 0nat,
    {
        let node = &self.list[idx];
        proof {
            assert(self.node_wf(*node));
        }
        if let Some(t) = node.ref_ {
            let inner = self.run(t, v, inst, scope, d);
            let r = self.plain_wrap(inner, idx, inst, ErrorKind::Reference);
            if r.is_err() {
                return r;
            }
        }
        if let Some(dr) = &node.dynamic_ref {
            let t = match &dr.anchor {
                Some(name) => self.find_dynamic(scope, name.as_str(), dr.target),
                None => dr.target,
            };
            let inner = self.run(t, v, inst, scope, d);
            let r = self.plain_wrap(inner, idx, inst, ErrorKind::DynamicReference);
            if r.is_err() {
                return r;
            }
        }
        let r = self.apply_type(idx, v, inst);
        if r.is_err() {
            return r;
        }
        let r = self.apply_required(idx, v, inst);
        if r.is_err() {
            return r;
        }
        let r = self.apply_properties(idx, v, inst, scope, d);
        if r.is_err() {
            return r;
        }
        let r = self.apply_prefix(idx, v, inst, scope, d);
        if r.is_err() {
            return r;
        }
        let r = self.apply_items(idx, v, inst, scope, d);
        if r.is_err() {
            return r;
        }
        let r = self.apply_all_of(idx, v, inst, scope, d);
        if r.is_err() {
            return r;
        }
        let r = self.apply_any_of(idx, v, inst, scope, d);
        if r.is_err() {
            return r;
        }
        let r = self.apply_one_of(idx, v, inst, scope, d);
        if r.is_err() {
            return r;
        }
        self.apply_not(idx, v, inst, scope, d)
    }

    fn apply_type(
        &self,
        idx: usize,
        v: &Json,
        inst: &JsonPointer,
    ) -> (r: Result<(), ValidationError>)
        requires
            idx < self.list@.len(),
        ensures
            report(r) == self.eval_type(idx, *v, inst@),
    {
        let types = &self.list[idx].types;
        if types.len() == 0 {
            return Ok(());
        }
        let mut j: usize = 0;
        while j < types.len()
            invariant
                j <= types.len(),
                idx < self.list@.len(),
                *types == self.list@[idx as int].types,
                forall|i: int| 0 <= i < j ==> !has_type(*v, #[trigger] types@[i]),
            decreases types.len() - j,
        {
            if check_type(v, types[j]) {
                proof {
                    assert(has_type(*v, types@[j as int]));
                }
                return Ok(());
            }
            j = j + 1;
        }
        Err(self.plain_error(idx, inst, ErrorKind::Type))
    }

    fn apply_required(
        &self,
        idx: usize,
        v: &Json,
        inst: &JsonPointer,
    ) -> (r: Result<(), ValidationError>)
        requires
            idx < self.list@.len(),
        ensures
            report(r) == self.eval_required(idx, *v, inst@, 0),
    {
        match v {
            Json::Object(_) => {},
            _ => {
                return Ok(());
            },
        }
        let names = &self.list[idx].required;
        let mut k: usize = 0;
        while k < names.len()
            invariant
                k <= names.len(),
                idx < self.list@.len(),
                *names == self.list@[idx as int].required,
                *v is Object,
                self.eval_required(idx, *v, inst@, 0) == self.eval_required(idx, *v, inst@, k as nat),
            decreases names.len() - k,
        {
            if v.get(names[k].as_str()).is_none() {
                return Err(
                    self.error_at(idx, inst, ErrorKind::Required, names[k].as_str(), None),
                );
            }
            k = k + 1;
        }
        Ok(())
    }

    fn apply_properties(
        &self,
        idx: usize,
        v: &Json,
        inst: &JsonPointer,
        scope: &mut Vec<usize>,
        d: usize,
    ) -> (r:
        Result<(), ValidationError>)
        requires
            self.wf(),
            idx < self.list@.len(),
            self.all_in_range(old(scope)@),
        ensures
            final(scope)@ == old(scope)@,
            report(r) == self.eval_properties(idx, *v, inst@, old(scope)@, d as nat, 0),
        decreases d, 1nat, 0nat,
    {
        match v {
            Json::Object(_) => {},
            _ => {
                return Ok(());
            },
        }
        let entries = &self.list[idx].properties;
        proof {
            assert(self.node_wf(self.list@[idx as int]));
        }
        let mut k: usize = 0;
        while k < entries.len()
            invariant
                k <= entries.len(),
                self.wf(),
                idx < self.list@.len(),
                *entries == self.list@[idx as int].properties,
                self.entries_in_range(entries@),
                *v is Object,
                scope@ == old(scope)@,
                self.all_in_range(scope@),
                self.eval_properties(idx, *v, inst@, scope@, d as nat, 0) == self.eval_properties(
                    idx,
                    *v,
                    inst@,
                    scope@,
                    d as nat,
                    k as nat,
                ),
            decreases entries.len() - k,
        {
            let name = entries[k].0.as_str();
            proof {
                assert(entries@[k as int].1 < self.list@.len());
            }
            if let Some(inner) = v.get(name) {
                let child = inst.append(name);
                let found = self.run(entries[k].1, inner, &child, scope, d);
                let r = self.wrap_result(found, idx, inst, ErrorKind::Properties, name);
                if r.is_err() {
                    return r;
                }
            }
            k = k + 1;
        }
        Ok(())
    }

    fn apply_prefix(
        &self,
        idx: usize,
        v: &Json,
        inst: &JsonPointer,
        scope: &mut Vec<usize>,
        d: usize,
    ) -> (r:
        Result<(), ValidationError>)
        requires
            self.wf(),
            idx < self.list@.len(),
            self.all_in_range(old(scope)@),
        ensures
            final(scope)@ == old(scope)@,
            report(r) == self.eval_prefix(idx, *v, inst@, old(scope)@, d as nat, 0),
        decreases d, 1nat, 0nat,
    {
        let prefix = &self.list[idx].prefix_items;
        proof {
            assert(self.node_wf(self.list@[idx as int]));
        }
        match v {
            Json::Array(items) => {
                let mut k: usize = 0;
                while k < prefix.len() && k < items.len()
                    invariant
                        k <= prefix.len(),
                        k <= items.len(),
                        self.wf(),
                        idx < self.list@.len(),
                        *prefix == self.list@[idx as int].prefix_items,
                        self.all_in_range(prefix@),
                        *v == Json::Array(*items),
                        scope@ == old(scope)@,
                        self.all_in_range(scope@),
                        self.eval_prefix(idx, *v, inst@, scope@, d as nat, 0) == self.eval_prefix(
                            idx,
                            *v,
                            inst@,
                            scope@,
                            d as nat,
                            k as nat,
                        ),
                    decreases prefix.len() - k,
                {
                    let child = inst.append(index_text(k).as_str());
                    let found = self.run(prefix[k], &items[k], &child, scope, d);
                    let r = self.plain_wrap(found, idx, inst, ErrorKind::PrefixItems);
                    if r.is_err() {
                        return r;
                    }
                    k = k + 1;
                }
                Ok(())
            },
            _ => Ok(()),
        }
    }

    fn apply_items(
        &self,
        idx: usize,
        v: &Json,
        inst: &JsonPointer,
        scope: &mut Vec<usize>,
        d: usize,
    ) -> (r:
        Result<(), ValidationError>)
        requires
            self.wf(),
            idx < self.list@.len(),
            self.all_in_range(old(scope)@),
        ensures
            final(scope)@ == old(scope)@,
            report(r) == self.eval_items(
                idx,
                *v,
                inst@,
                old(scope)@,
                d as nat,
                self.list@[idx as int].prefix_items@.len(),
            ),
        decreases d, 1nat, 0nat,
    {
        proof {
            assert(self.node_wf(self.list@[idx as int]));
        }
        let t = match self.list[idx].items {
            Some(t) => t,
            None => {
                return Ok(());
            },
        };
        match v {
            Json::Array(items) => {
                let first = self.list[idx].prefix_items.len();
                let mut k: usize = first;
                while k < items.len()
                    invariant
                        first <= k,
                        self.wf(),
                        idx < self.list@.len(),
                        t < self.list@.len(),
                        self.list@[idx as int].items == Some(t),
                        first == self.list@[idx as int].prefix_items@.len(),
                        *v == Json::Array(*items),
                        scope@ == old(scope)@,
                        self.all_in_range(scope@),
                        self.eval_items(idx, *v, inst@, scope@, d as nat, first as nat)
                            == self.eval_items(idx, *v, inst@, scope@, d as nat, k as nat),
                    decreases items.len() - k,
                {
                    let child = inst.append(index_text(k).as_str());
                    let found = self.run(t, &items[k], &child, scope, d);
                    let r = self.plain_wrap(found, idx, inst, ErrorKind::Items);
                    if r.is_err() {
                        return r;
                    }
                    k = k + 1;
                }
                Ok(())
            },
            _ => Ok(()),
        }
    }

    fn apply_all_of(
        &self,
        idx: usize,
        v: &Json,
        inst: &JsonPointer,
        scope: &mut Vec<usize>,
        d: usize,
    ) -> (r:
        Result<(), ValidationError>)
        requires
            self.wf(),
            idx < self.list@.len(),
            self.all_in_range(old(scope)@),
        ensures
            final(scope)@ == old(scope)@,
            report(r) == self.eval_all_of(idx, *v, inst@, old(scope)@, d as nat, 0),
        decreases d, 1nat, 0nat,
    {
        let all = &self.list[idx].all_of;
        proof {
            assert(self.node_wf(self.list@[idx as int]));
        }
        let mut k: usize = 0;
        while k < all.len()
            invariant
                k <= all.len(),
                self.wf(),
                idx < self.list@.len(),
                *all == self.list@[idx as int].all_of,
                self.all_in_range(all@),
                scope@ == old(scope)@,
                self.all_in_range(scope@),
                self.eval_all_of(idx, *v, inst@, scope@, d as nat, 0) == self.eval_all_of(
                    idx,
                    *v,
                    inst@,
                    scope@,
                    d as nat,
                    k as nat,
                ),
            decreases all.len() - k,
        {
            let found = self.run(all[k], v, inst, scope, d);
            let r = self.plain_wrap(found, idx, inst, ErrorKind::AllOf);
            if r.is_err() {
                return r;
            }
            k = k + 1;
        }
        Ok(())
    }

    fn apply_any_of(
        &self,
        idx: usize,
        v: &Json,
        inst: &JsonPointer,
        scope: &mut Vec<usize>,
        d: usize,
    ) -> (r:
        Result<(), ValidationError>)
        requires
            self.wf(),
            idx < self.list@.len(),
            self.all_in_range(old(scope)@),
        ensures
            final(scope)@ == old(scope)@,
            report(r) == self.eval_any_of(idx, *v, inst@, old(scope)@, d as nat, 0),
        decreases d, 1nat, 0nat,
    {
        let any = &self.list[idx].any_of;
        proof {
            assert(self.node_wf(self.list@[idx as int]));
        }
        if any.len() == 0 {
            return Ok(());
        }
        let mut k: usize = 0;
        while k < any.len()
            invariant
                k <= any.len(),
                any.len() > 0,
                self.wf(),
                idx < self.list@.len(),
                *any == self.list@[idx as int].any_of,
                self.all_in_range(any@),
                scope@ == old(scope)@,
                self.all_in_range(scope@),
                self.eval_any_of(idx, *v, inst@, scope@, d as nat, 0) == self.eval_any_of(
                    idx,
                    *v,
                    inst@,
                    scope@,
                    d as nat,
                    k as nat,
                ),
            decreases any.len() - k,
        {
            match self.run(any[k], v, inst, scope, d) {
                Ok(()) => {
                    return Ok(());
                },
                Err(e) => {
                    if e.kind == ErrorKind::DepthExceeded {
                        return Err(e);
                    }
                },
            }
            k = k + 1;
        }
        Err(self.plain_error(idx, inst, ErrorKind::AnyOf))
    }

    fn apply_one_of(
        &self,
        idx: usize,
        v: &Json,
        inst: &JsonPointer,
        scope: &mut Vec<usize>,
        d: usize,
    ) -> (r:
        Result<(), ValidationError>)
        requires
            self.wf(),
            idx < self.list@.len(),
            self.all_in_range(old(scope)@),
        ensures
            final(scope)@ == old(scope)@,
            report(r) == self.eval_one_of(idx, *v, inst@, old(scope)@, d as nat, 0, false),
        decreases d, 1nat, 0nat,
    {
        let one = &self.list[idx].one_of;
        proof {
            assert(self.node_wf(self.list@[idx as int]));
        }
        if one.len() == 0 {
            return Ok(());
        }
        let mut found = false;
        let mut k: usize = 0;
        while k < one.len()
            invariant
                k <= one.len(),
                one.len() > 0,
                self.wf(),
                idx < self.list@.len(),
                *one == self.list@[idx as int].one_of,
                self.all_in_range(one@),
                scope@ == old(scope)@,
                self.all_in_range(scope@),
                self.eval_one_of(idx, *v, inst@, scope@, d as nat, 0, false) == self.eval_one_of(
                    idx,
                    *v,
                    inst@,
                    scope@,
                    d as nat,
                    k as nat,
                    found,
                ),
            decreases one.len() - k,
        {
            match self.run(one[k], v, inst, scope, d) {
                Ok(()) => {
                    if found {
                        return Err(self.plain_error(idx, inst, ErrorKind::OneOf));
                    }
                    found = true;
                },
                Err(e) => {
                    if e.kind == ErrorKind::DepthExceeded {
                        return Err(e);
                    }
                },
            }
            k = k + 1;
        }
        if found {
            Ok(())
        } else {
            Err(self.plain_error(idx, inst, ErrorKind::OneOf))
        }
    }

    fn apply_not(
        &self,
        idx: usize,
        v: &Json,
        inst: &JsonPointer,
        scope: &mut Vec<usize>,
        d: usize,
    ) -> (r:
        Result<(), ValidationError>)
        requires
            self.wf(),
            idx < self.list@.len(),
            self.all_in_range(old(scope)@),
        ensures
            final(scope)@ == old(scope)@,
            report(r) == self.eval_not(idx, *v, inst@, old(scope)@, d as nat),
        decreases d, 1nat, 0nat,
    {
        proof {
            assert(self.node_wf(self.list@[idx as int]));
        }
        match self.list[idx].not {
            Some(t) => match self.run(t, v, inst, scope, d) {
                Ok(()) => Err(self.plain_error(idx, inst, ErrorKind::Not)),
                Err(e) => {
                    if e.kind == ErrorKind::DepthExceeded {
                        Err(e)
                    } else {
                        Ok(())
                    }
                },
            },
            None => Ok(()),
        }
    }
}

} // verus!
