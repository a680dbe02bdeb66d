//! One registered document: its resources, and how references into it are
//! resolved.

use vstd::prelude::*;
use vstd::hash_map::StringHashMap;
use crate::compiler::{CompileError, ErrorView};
use crate::draft::{done, failed, realizes, Draft, Outcome};
use crate::json::Json;
use crate::outline::text_views;
use crate::pointer::{is_path_prefix, is_pointer, lookup_spec, JsonPointer, Lookup};
use crate::text::{last_index, lemma_last_index, rfind_char, str_eq};
use crate::util::{format_loc, Fragment, FragmentView, Url, UrlFrag, UrlPtr};

verus! {

/// One scope of resolution inside a document.
pub struct Resource {
    /// Where the resource begins, from the document's root.
    pub ptr: JsonPointer,
    /// The URL against which references inside the resource are resolved.
    pub id: Url,
    /// The named locations of the resource.
    pub anchors: StringHashMap<JsonPointer>,
    /// The names among them that are resolved against the resources
    /// entered during validation, each once, in the order in which they
    /// were found.
    pub dynamic_anchors: Vec<String>,
}

/// No name occurs twice in `names`.
pub open spec fn distinct_names(names: Seq<String>) -> bool {
    forall|i: int, j: int| 0 <= i < j < names.len() ==> names[i]@ != names[j]@
}

/// No resource of `rs` holds a dynamic anchor twice.
pub open spec fn all_distinct_names(rs: Seq<Resource>) -> bool {
    forall|i: int| 0 <= i < rs.len() ==> distinct_names((#[trigger] rs[i]).dynamic_anchors@)
}

/// The names that `names` holds.
pub open spec fn names_set(names: Seq<String>) -> Set<Seq<char>> {
    Set::new(|n: Seq<char>| exists|i: int| 0 <= i < names.len() && (#[trigger] names[i])@ == n)
}

/// Position of the first `name` in `names`, if it is there.
pub fn find_name(names: &Vec<String>, name: &str) -> (r: Option<usize>)
    ensures
        match r {
            Some(i) => i < names@.len() && names@[i as int]@ == name@,
            None => !names_set(names@).contains(name@),
        },
{
    let mut i: usize = 0;
    while i < names.len()
        invariant
            i <= names.len(),
            forall|j: int| 0 <= j < i ==> (#[trigger] names@[j])@ != name@,
        decreases names.len() - i,
    {
        if str_eq(names[i].as_str(), name) {
            return Some(i);
        }
        i = i + 1;
    }
    None
}

/// Adds `name` to `names` unless it is there.
pub fn insert_name(names: &mut Vec<String>, name: &str)
    ensures
        names_set(final(names)@) == names_set(old(names)@).insert(name@),
        distinct_names(old(names)@) ==> distinct_names(final(names)@),
{
    let ghost before = names@;
    if find_name(names, name).is_none() {
        names.push(name.to_owned());
        proof {
            let after = names@;
            assert(after[before.len() as int]@ == name@);
            if distinct_names(before) {
                assert forall|i: int, j: int| 0 <= i < j < after.len() implies after[i]@
                    != after[j]@ by {
                    assert(after[i] == before[i]);
                    if j < before.len() {
                        assert(after[j] == before[j]);
                    } else {
                        assert(names_set(before).contains(before[i]@));
                    }
                }
            }
            assert forall|n: Seq<char>| names_set(after).contains(n) == names_set(before).insert(
                name@,
            ).contains(n) by {
                if names_set(before).contains(n) {
                    let i = choose|i: int| 0 <= i < before.len() && (#[trigger] before[i])@ == n;
                    assert(after[i] == before[i]);
                }
                if names_set(after).contains(n) {
                    let i = choose|i: int| 0 <= i < after.len() && (#[trigger] after[i])@ == n;
                    if i < before.len() {
                        assert(after[i] == before[i]);
                    }
                }
            }
            assert(names_set(after) =~= names_set(before).insert(name@));
        }
    } else {
        proof {
            assert(names_set(before).insert(name@) =~= names_set(before));
        }
    }
}

/// A `Resource` as plain values.
pub struct ResourceView {
    pub ptr: Seq<char>,
    pub id: Seq<char>,
    pub anchors: Map<Seq<char>, Seq<char>>,
    pub dynamic_anchors: Set<Seq<char>>,
}

impl View for Resource {
    type V = ResourceView;

    open spec fn view(&self) -> ResourceView {
        ResourceView {
            ptr: self.ptr@,
            id: self.id@,
            anchors: self.anchors@.map_values(|p: JsonPointer| p@),
            dynamic_anchors: names_set(self.dynamic_anchors@),
        }
    }
}

/// The resource at `ptr` with the identifier `id` and no anchors yet.
pub open spec fn fresh_resource(ptr: Seq<char>, id: Seq<char>) -> ResourceView {
    ResourceView { ptr, id, anchors: Map::empty(), dynamic_anchors: Set::empty() }
}

/// Each resource of `rs` as plain values.
pub open spec fn views(rs: Seq<Resource>) -> Seq<ResourceView> {
    rs.map_values(|r: Resource| r@)
}

/// Position of the first resource that `wanted` holds of, or `rs.len()`
/// when it holds of none.
pub open spec fn first_match(rs: Seq<ResourceView>, wanted: spec_fn(ResourceView) -> bool) -> int
    decreases rs.len(),
{
    if rs.len() == 0 {
        0
    } else if wanted(rs[0]) {
        0
    } else {
        1 + first_match(rs.drop_first(), wanted)
    }
}

/// Position of the resource that begins at `ptr`, or `rs.len()`.
pub open spec fn ptr_index(rs: Seq<ResourceView>, ptr: Seq<char>) -> int {
    first_match(rs, |r: ResourceView| r.ptr == ptr)
}

/// Position of the resource whose identifier is `id`, or `rs.len()`.
pub open spec fn id_index(rs: Seq<ResourceView>, id: Seq<char>) -> int {
    first_match(rs, |r: ResourceView| r.id == id)
}

/// The resources of one document are well formed when no two of them
/// begin at the same location, no two of them have the same identifier,
/// each begins at a pointer, and each anchor leads to a pointer.
pub open spec fn registry_wf(rs: Seq<ResourceView>) -> bool {
    &&& forall|i: int, j: int| 0 <= i < j < rs.len() ==> rs[i].ptr != rs[j].ptr
    &&& forall|i: int, j: int| 0 <= i < j < rs.len() ==> rs[i].id != rs[j].id
    &&& forall|i: int| 0 <= i < rs.len() ==> is_pointer(#[trigger] rs[i].ptr)
    &&& forall|i: int| 0 <= i < rs.len() ==> anchors_lead_to_pointers(#[trigger] rs[i])
}

/// Every anchor of `res` leads to a pointer.
pub open spec fn anchors_lead_to_pointers(res: ResourceView) -> bool {
    forall|name: Seq<char>| #[trigger]
        res.anchors.contains_key(name) ==> is_pointer(res.anchors[name])
}

/// The document's root is registered as a resource.
pub open spec fn has_root(rs: Seq<ResourceView>) -> bool {
    ptr_index(rs, Seq::empty()) < rs.len()
}

/// `after` holds every resource of `before` at its place, with the same
/// location and identifier and with every anchor it had.
pub open spec fn extends(before: Seq<ResourceView>, after: Seq<ResourceView>) -> bool {
    &&& before.len() <= after.len()
    &&& forall|i: int|
        0 <= i < before.len() ==> {
            &&& (#[trigger] after[i]).ptr == before[i].ptr
            &&& after[i].id == before[i].id
            &&& before[i].anchors.submap_of(after[i].anchors)
            &&& before[i].dynamic_anchors.subset_of(after[i].dynamic_anchors)
        }
}

/// What `first_match` finds is the first resource that `wanted` holds of, if
/// there is one.
pub proof fn lemma_first_match(rs: Seq<ResourceView>, wanted: spec_fn(ResourceView) -> bool)
    ensures
        0 <= first_match(rs, wanted) <= rs.len(),
        first_match(rs, wanted) < rs.len() ==> wanted(rs[first_match(rs, wanted)]),
        forall|i: int| 0 <= i < first_match(rs, wanted) ==> !wanted(#[trigger] rs[i]),
    decreases rs.len(),
{
    if rs.len() > 0 && !wanted(rs[0]) {
        let rest = rs.drop_first();
        lemma_first_match(rest, wanted);
        assert forall|i: int| 0 <= i < first_match(rs, wanted) implies !wanted(
            #[trigger] rs[i],
        ) by {
            if i > 0 {
                assert(rest[i - 1] == rs[i]);
            }
        }
    }
}

/// The first match is at `k` when `wanted` holds there and nowhere before.
pub proof fn lemma_first_match_at(
    rs: Seq<ResourceView>,
    wanted: spec_fn(ResourceView) -> bool, k: int,
)
    requires
        0 <= k <= rs.len(),
        k < rs.len() ==> wanted(rs[k]),
        forall|i: int| 0 <= i < k ==> !wanted(#[trigger] rs[i]),
    ensures
        first_match(rs, wanted) == k,
{
    lemma_first_match(rs, wanted);
    let m = first_match(rs, wanted);
    if m < k {
        assert(!wanted(rs[m]));
    }
}

/// A registry extends itself.
pub proof fn lemma_extends_refl(a: Seq<ResourceView>)
    ensures
        extends(a, a),
{
}

/// What extends an extension extends what that extended.
pub proof fn lemma_extends_trans(a: Seq<ResourceView>, b: Seq<ResourceView>, c: Seq<ResourceView>)
    requires
        extends(a, b),
        extends(b, c),
    ensures
        extends(a, c),
{
    assert forall|i: int| 0 <= i < a.len() implies {
        &&& (#[trigger] c[i]).ptr == a[i].ptr
        &&& c[i].id == a[i].id
        &&& a[i].anchors.submap_of(c[i].anchors)
        &&& a[i].dynamic_anchors.subset_of(c[i].dynamic_anchors)
    } by {
        assert(b[i].ptr == a[i].ptr);
        assert(a[i].anchors.submap_of(b[i].anchors));
        assert(b[i].anchors.submap_of(c[i].anchors));
        vstd::map_lib::lemma_submap_of_trans(a[i].anchors, b[i].anchors, c[i].anchors);
        assert(a[i].dynamic_anchors.subset_of(b[i].dynamic_anchors));
        assert(b[i].dynamic_anchors.subset_of(c[i].dynamic_anchors));
        assert forall|k: Seq<char>| #[trigger]
            a[i].dynamic_anchors.contains(k) implies c[i].dynamic_anchors.contains(k) by {
            assert(b[i].dynamic_anchors.contains(k));
        }
    }
}

/// Finds the resource that begins at `ptr`.
pub fn find_ptr(resources: &Vec<Resource>, ptr: &str) -> (r: Option<usize>)
    ensures
        match r {
            Some(i) => i < resources@.len() && i == ptr_index(views(resources@), ptr@),
            None => ptr_index(views(resources@), ptr@) == resources@.len(),
        },
{
    let ghost rs = views(resources@);
    let ghost wanted = |r: ResourceView| r.ptr == ptr@;
    let mut i: usize = 0;
    while i < resources.len()
        invariant
            i <= resources.len(),
            rs == views(resources@),
            wanted == (|r: ResourceView| r.ptr == ptr@),
            forall|j: int| 0 <= j < i ==> !wanted(#[trigger] rs[j]),
        decreases resources.len() - i,
    {
        if str_eq(resources[i].ptr.as_str(), ptr) {
            proof {
                assert(wanted(rs[i as int]));
                lemma_first_match_at(rs, wanted, i as int);
            }
            return Some(i);
        }
        i = i + 1;
    }
    proof {
        lemma_first_match_at(rs, wanted, i as int);
    }
    None
}

/// Finds the resource whose identifier is `id`.
pub fn find_id(resources: &Vec<Resource>, id: &Url) -> (r: Option<usize>)
    ensures
        match r {
            Some(i) => i < resources@.len() && i == id_index(views(resources@), id@),
            None => id_index(views(resources@), id@) == resources@.len(),
        },
{
    let ghost rs = views(resources@);
    let ghost wanted = |r: ResourceView| r.id == id@;
    let mut i: usize = 0;
    while i < resources.len()
        invariant
            i <= resources.len(),
            rs == views(resources@),
            wanted == (|r: ResourceView| r.id == id@),
            forall|j: int| 0 <= j < i ==> !wanted(#[trigger] rs[j]),
        decreases resources.len() - i,
    {
        if resources[i].id.same(id) {
            proof {
                assert(wanted(rs[i as int]));
                lemma_first_match_at(rs, wanted, i as int);
            }
            return Some(i);
        }
        i = i + 1;
    }
    proof {
        lemma_first_match_at(rs, wanted, i as int);
    }
    None
}

impl Resource {
    /// The resource at `ptr` with the identifier `id` and no anchors yet.
    pub fn new(ptr: JsonPointer, id: Url) -> (r: Self)
        ensures
            r@ == fresh_resource(ptr@, id@),
            r.ptr == ptr,
            r.id == id,
            distinct_names(r.dynamic_anchors@),
    {
        let r = Resource {
            ptr,
            id,
            anchors: StringHashMap::new(),
            dynamic_anchors: Vec::new(),
        };
        proof {
            assert(r@.anchors =~= Map::<Seq<char>, Seq<char>>::empty());
            assert(r@.dynamic_anchors =~= Set::<Seq<char>>::empty());
        }
        r
    }
}

/// Position of the resource that owns the location `p`: the one that
/// begins at `p`, else the one that owns `p` without its last segment,
/// and for a pointer without `/` the one at the document's root.
pub open spec fn nearest(rs: Seq<ResourceView>, p: Seq<char>) -> int
    decreases p.len(),
{
    if ptr_index(rs, p) < rs.len() {
        ptr_index(rs, p)
    } else {
        let k = last_index(p, '/');
        if 0 <= k < p.len() {
            nearest(rs, p.take(k))
        } else {
            ptr_index(rs, Seq::empty())
        }
    }
}

/// The owner of a location is registered, begins at a prefix of the
/// location's path, and no registered resource begins at a longer one.
pub proof fn lemma_nearest_is_longest_prefix(rs: Seq<ResourceView>, p: Seq<char>)
    requires
        has_root(rs),
        is_pointer(p),
    ensures
        0 <= nearest(rs, p) < rs.len(),
        is_path_prefix(rs[nearest(rs, p)].ptr, p),
        forall|j: int|
            0 <= j < rs.len() && is_path_prefix(#[trigger] rs[j].ptr, p) ==> rs[j].ptr.len()
                <= rs[nearest(rs, p)].ptr.len(),
    decreases p.len(),
{
    let at = |r: ResourceView| r.ptr == p;
    lemma_first_match(rs, at);
    lemma_first_match(rs, |r: ResourceView| r.ptr == Seq::<char>::empty());
    if ptr_index(rs, p) < rs.len() {
        assert(at(rs[ptr_index(rs, p)]));
    } else {
        let k = last_index(p, '/');
        lemma_last_index(p, '/');
        if p.len() == 0 {
            assert(p =~= Seq::<char>::empty());
            assert(false);
        }
        assert(p[0] == '/');
        assert(0 <= k < p.len());
        let q = p.take(k);
        if k > 0 {
            assert(q[0] == p[0]);
        }
        lemma_nearest_is_longest_prefix(rs, q);
        let n = nearest(rs, q);
        let a = rs[n].ptr;
        assert(is_path_prefix(q, p)) by {
            assert(p.take(q.len() as int) =~= q);
        }
        assert(is_path_prefix(a, p)) by {
            if a != q {
                assert(p.take(a.len() as int) =~= q.take(a.len() as int));
                assert(p[a.len() as int] == q[a.len() as int]);
            }
        }
        assert forall|j: int|
            0 <= j < rs.len() && is_path_prefix(#[trigger] rs[j].ptr, p) implies rs[j].ptr.len()
            <= a.len() by {
            let r = rs[j].ptr;
            assert(!at(rs[j]));
            assert(r.len() <= k);
            assert(is_path_prefix(r, q)) by {
                if r.len() == k {
                    assert(r =~= q);
                } else {
                    assert(q.take(r.len() as int) =~= p.take(r.len() as int));
                    assert(q[r.len() as int] == p[r.len() as int]);
                }
            }
        }
    }
}

/// Where the document's root is the only resource, it owns every
/// location.
pub proof fn lemma_root_alone_owns_all(rs: Seq<ResourceView>, p: Seq<char>)
    requires
        rs.len() == 1,
        has_root(rs),
    ensures
        nearest(rs, p) == 0,
        rs[0].ptr == Seq::<char>::empty(),
    decreases p.len(),
{
    lemma_first_match(rs, |r: ResourceView| r.ptr == Seq::<char>::empty());
    lemma_first_match(rs, |r: ResourceView| r.ptr == p);
    if ptr_index(rs, p) >= rs.len() {
        let k = last_index(p, '/');
        if 0 <= k < p.len() {
            lemma_root_alone_owns_all(rs, p.take(k));
        }
    }
}

/// A resource below the document's root has another identifier than the
/// resource that encloses it, and only one resource begins at the root.
pub proof fn lemma_resource_differs_from_owner(rs: Seq<ResourceView>, i: int)
    requires
        registry_wf(rs),
        has_root(rs),
        0 <= i < rs.len(),
    ensures
        rs[i].ptr.len() == 0 ==> i == ptr_index(rs, Seq::empty()),
        rs[i].ptr.len() > 0 ==> {
            let owner = nearest(rs, rs[i].ptr.take(last_index(rs[i].ptr, '/')));
            &&& 0 <= last_index(rs[i].ptr, '/') < rs[i].ptr.len()
            &&& 0 <= owner < rs.len()
            &&& owner != i
            &&& rs[owner].id != rs[i].id
            &&& is_path_prefix(rs[owner].ptr, rs[i].ptr)
        },
{
    let p = rs[i].ptr;
    lemma_first_match(rs, |r: ResourceView| r.ptr == Seq::<char>::empty());
    if p.len() == 0 {
        assert(p =~= Seq::<char>::empty());
        let k = ptr_index(rs, Seq::empty());
        if k != i {
            assert(rs[k].ptr == rs[i].ptr);
        }
    } else {
        let k = last_index(p, '/');
        lemma_last_index(p, '/');
        assert(p[0] == '/');
        let q = p.take(k);
        if k > 0 {
            assert(q[0] == p[0]);
        }
        lemma_nearest_is_longest_prefix(rs, q);
        let owner = nearest(rs, q);
        assert(rs[owner].ptr.len() <= q.len());
        assert(is_path_prefix(q, p)) by {
            assert(p.take(q.len() as int) =~= q);
        }
        assert(is_path_prefix(rs[owner].ptr, p)) by {
            let a = rs[owner].ptr;
            if a != q {
                assert(p.take(a.len() as int) =~= q.take(a.len() as int));
                assert(p[a.len() as int] == q[a.len() as int]);
            }
        }
        if owner < i {
            assert(rs[owner].id != rs[i].id);
        } else if i < owner {
            assert(rs[i].id != rs[owner].id);
        }
    }
}

/// A registry that is extended keeps the place of every location that
/// was registered.
pub proof fn lemma_extends_keeps_index(
    before: Seq<ResourceView>,
    after: Seq<ResourceView>,
    p: Seq<char>,
)
    requires
        extends(before, after),
        ptr_index(before, p) < before.len(),
    ensures
        ptr_index(after, p) == ptr_index(before, p),
{
    let at = |r: ResourceView| r.ptr == p;
    lemma_first_match(before, at);
    let k = ptr_index(before, p);
    assert(at(after[k])) by {
        assert(after[k].ptr == before[k].ptr);
    }
    assert forall|i: int| 0 <= i < k implies !at(#[trigger] after[i]) by {
        assert(after[i].ptr == before[i].ptr);
        assert(!at(before[i]));
    }
    lemma_first_match_at(after, at, k);
}

/// Where a reference to `target` is resolved and what it resolves to: the
/// anchor's location for a name, the resource's own location followed by
/// the pointer for a pointer.
pub open spec fn resolve_in(url: Seq<char>, frag: FragmentView, res: ResourceView) -> Result<
    (Seq<char>, Seq<char>),
    ErrorView,
> {
    match frag {
        FragmentView::Anchor(name) => if res.anchors.contains_key(name) {
            Ok((url, res.anchors[name]))
        } else {
            Err(ErrorView::AnchorNotFound { url, reference: format_loc(res.id, name) })
        },
        FragmentView::JsonPointer(p) => Ok((url, res.ptr + p)),
    }
}

/// The error of a document that holds no resource at its root.
pub open spec fn no_root_resource(url: Seq<char>) -> ErrorView {
    ErrorView::Bug("no root resource found for "@ + url)
}

/// The resources `rs` of the document `doc` at `url` after the subschema at
/// `ptr` has been registered: the walk from `ptr` with the base of the
/// resource that owns `ptr`, and then, where `ptr` did not become a
/// resource of its own, the anchors of the schema at `ptr` recorded in the
/// resource that owns it. A document without the resource at its root is
/// left as it is, with the error that says so.
pub open spec fn subschema_outcome(
    draft: Draft,
    url: Seq<char>,
    rs: Seq<ResourceView>,
    doc: Json,
    ptr: Seq<char>,
) -> Outcome {
    match lookup_spec(doc, ptr) {
        Lookup::Found(v) => {
            let walked = draft.walk(v, rs[nearest(rs, ptr)].id, ptr, url, rs);
            if !has_root(rs) {
                failed(rs, no_root_resource(url))
            } else if walked.error is Some || ptr_index(walked.resources, ptr)
                < walked.resources.len() {
                walked
            } else {
                let k = nearest(walked.resources, ptr);
                let noted = draft.anchors_of(v, ptr, walked.resources[k], url);
                Outcome { resources: walked.resources.update(k, noted.0), error: noted.1 }
            }
        },
        other => failed(rs, JsonPointer::lookup_error(other, url, ptr)),
    }
}

/// The names of an optional list, as plain values.
pub open spec fn option_names(names: Option<Vec<String>>) -> Option<Seq<Seq<char>>> {
    match names {
        Some(list) => Some(text_views(list@)),
        None => None,
    }
}

/// One registered document.
pub struct Root {
    /// The draft that the document is written in.
    pub draft: Draft,
    /// The resources found so far, in the order in which they were found.
    pub resources: Vec<Resource>,
    /// The URL under which the document is registered.
    pub url: Url,
    /// The vocabularies that the document's meta-schema names, if it
    /// names any.
    pub meta_vocabs: Option<Vec<String>>,
}

impl Root {
    /// The resources as plain values.
    pub open spec fn rs(&self) -> Seq<ResourceView> {
        views(self.resources@)
    }

    /// The registry is well formed and holds the document's root, and
    /// no resource holds a dynamic anchor twice.
    pub open spec fn wf(&self) -> bool {
        registry_wf(self.rs()) && has_root(self.rs()) && all_distinct_names(self.resources@)
    }

    /// The resources of a document right after it is registered: those
    /// that the walk from its root finds, and the root itself where the
    /// document is neither an object nor a boolean.
    pub open spec fn initial(draft: Draft, doc: Json, url: Seq<char>) -> Outcome {
        let walked = draft.walk(doc, url, Seq::empty(), url, Seq::empty());
        if walked.error is Some || has_root(walked.resources) {
            walked
        } else {
            Outcome {
                resources: walked.resources.push(fresh_resource(Seq::empty(), url)),
                error: None,
            }
        }
    }

    /// The vocabulary among `names` that the draft does not have, as the
    /// error it is; `None` before 2019, where vocabularies are not chosen,
    /// and where the draft has every vocabulary named.
    pub open spec fn vocabulary_error(
        draft: Draft,
        url: Seq<char>,
        names: Option<Seq<Seq<char>>>,
    ) -> Option<ErrorView> {
        match names {
            Some(list) => {
                let k = draft.first_unknown_vocab(list, 0);
                if draft.has_vocabs_spec() && 0 <= k < list.len() {
                    Some(ErrorView::UnsupportedVocabulary { url, vocabulary: list[k] })
                } else {
                    None
                }
            },
            None => None,
        }
    }

    /// Registers the document `doc` under `url`. Fails with
    /// `UnsupportedVocabulary` where `meta_vocabs` names a vocabulary that
    /// the draft does not have, and else with the error that ends the
    /// walk through the document.
    pub fn new(draft: Draft, url: Url, meta_vocabs: Option<Vec<String>>, doc: &Json) -> (r: Result<
        Root,
        CompileError,
    >)
        ensures
            match r {
                Ok(root) => {
                    &&& root.wf()
                    &&& root.draft == draft
                    &&& root.url@ == url@
                    &&& root.meta_vocabs == meta_vocabs
                    &&& Self::vocabulary_error(draft, url@, option_names(meta_vocabs)) is None
                    &&& Self::initial(draft, *doc, url@).error is None
                    &&& root.rs() == Self::initial(draft, *doc, url@).resources
                    &&& draft.id_free(*doc) ==> root.resources@.len() == 1
                },
                Err(e) => Some(e@) == (if Self::vocabulary_error(
                    draft,
                    url@,
                    option_names(meta_vocabs),
                ) is Some {
                    Self::vocabulary_error(draft, url@, option_names(meta_vocabs))
                } else {
                    Self::initial(draft, *doc, url@).error
                }),
            },
    {
        if draft.has_vocabs() {
            if let Some(names) = &meta_vocabs {
                if let Some(k) = draft.find_unknown_vocab(names) {
                    return Err(
                        CompileError::UnsupportedVocabulary {
                            url: url.to_string(),
                            vocabulary: names[k].clone(),
                        },
                    );
                }
            }
        }
        let mut resources: Vec<Resource> = Vec::new();
        proof {
            assert(views(resources@) =~= Seq::<ResourceView>::empty());
        }
        match draft.collect_resources(doc, &url, JsonPointer::root(), &url, &mut resources) {
            Err(e) => {
                return Err(e);
            },
            Ok(()) => {},
        }
        let ghost walked = views(resources@);
        if find_ptr(&resources, "").is_none() {
            proof {
                lemma_first_match(walked, |r: ResourceView| r.ptr == Seq::<char>::empty());
                lemma_first_match(walked, |r: ResourceView| r.ptr == ""@);
                assert(""@ =~= Seq::<char>::empty()) by {
                    reveal_strlit("");
                }
                assert(walked =~= Seq::<ResourceView>::empty());
            }
            resources.push(Resource::new(JsonPointer::root(), url.clone()));
            proof {
                let after = views(resources@);
                assert(after =~= walked.push(fresh_resource(Seq::empty(), url@)));
                assert(after[0].ptr == Seq::<char>::empty());
                lemma_first_match_at(after, |r: ResourceView| r.ptr == Seq::<char>::empty(), 0);
            }
        } else {
            proof {
                assert(""@ =~= Seq::<char>::empty()) by {
                    reveal_strlit("");
                }
            }
        }
        Ok(Root { draft, resources, url, meta_vocabs })
    }

    /// Whether the keywords of the vocabulary `name` are in force in this
    /// document. Before 2019 every vocabulary is, and `core` always is.
    /// Otherwise the document's own list decides where it has one, and
    /// the draft's defaults where it has none.
    pub open spec fn has_vocab_spec(&self, name: Seq<char>) -> bool {
        ||| !self.draft.has_vocabs_spec()
        ||| name == "core"@
        ||| match self.meta_vocabs {
            Some(vocabs) => exists|i: int| 0 <= i < vocabs@.len() && (#[trigger] vocabs@[i])@ == name,
            None => self.draft.default_vocabs_spec().contains(name),
        }
    }

    /// Whether the keywords of the vocabulary `name` are in force in this
    /// document.
    #[verifier::loop_isolation(false)]
    pub fn has_vocab(&self, name: &str) -> (r: bool)
        ensures
            r == self.has_vocab_spec(name@),
            !self.draft.has_vocabs_spec() ==> r,
            self.draft.has_vocabs_spec() && name@ != "core"@ && self.meta_vocabs is Some && (
            forall|i: int|
                0 <= i < self.meta_vocabs->0@.len() ==> (#[trigger] self.meta_vocabs->0@[i])@
                    != name@) ==> !r,
    {
        if !self.draft.has_vocabs() || str_eq(name, "core") {
            return true;
        }
        match &self.meta_vocabs {
            Some(vocabs) => {
                let mut i: usize = 0;
                while i < vocabs.len()
                    invariant
                        i <= vocabs.len(),
                        forall|j: int| 0 <= j < i ==> (#[trigger] vocabs@[j])@ != name@,
                    decreases vocabs.len() - i,
                {
                    if str_eq(vocabs[i].as_str(), name) {
                        proof {
                            assert(vocabs@[i as int]@ == name@);
                        }
                        return true;
                    }
                    i = i + 1;
                }
                false
            },
            None => {
                let defaults = self.draft.default_vocabs();
                let ghost names = self.draft.default_vocabs_spec();
                let mut i: usize = 0;
                while i < defaults.len()
                    invariant
                        i <= defaults.len(),
                        Draft::names_view(defaults@) == names,
                        forall|j: int| 0 <= j < i ==> #[trigger] names[j] != name@,
                    decreases defaults.len() - i,
                {
                    proof {
                        assert(names[i as int] == defaults@[i as int]@);
                    }
                    if str_eq(defaults[i], name) {
                        proof {
                            assert(names[i as int] == name@);
                        }
                        return true;
                    }
                    i = i + 1;
                }
                false
            },
        }
    }

    /// Resolves `frag` inside the resource `res` of this document. A name
    /// that `res` does not declare is an `AnchorNotFound`, which cites the
    /// document's URL and the reference as the resource's identifier, `#`
    /// and the name.
    pub fn resolve_fragment_in(&self, frag: &Fragment, res: &Resource) -> (r: Result<
        UrlPtr,
        CompileError,
    >)
        ensures
            match r {
                Ok(up) => resolve_in(self.url@, frag@, res@) == Ok::<_, ErrorView>((up.url@, up.ptr@)),
                Err(e) => resolve_in(self.url@, frag@, res@) == Err::<(Seq<char>, Seq<char>), _>(
                    e@,
                ),
            },
            r matches Ok(up) ==> (frag.wf() && is_pointer(res.ptr@) && anchors_lead_to_pointers(res@)
                ==> up.ptr.wf()),
            frag@ is Anchor && frag@.text().len() > 0 && !res@.anchors.contains_key(frag@.text())
                ==> r is Err && r->Err_0@ == (
            ErrorView::AnchorNotFound {
                url: self.url@,
                reference: res.id@ + seq!['#'] + frag@.text(),
            }),
    {
        let ptr = match frag {
            Fragment::Anchor(anchor) => {
                match res.anchors.get(anchor.as_str()) {
                    Some(ptr) => ptr.clone(),
                    None => {
                        return Err(
                            CompileError::AnchorNotFound {
                                url: self.url.to_string(),
                                reference: UrlFrag::format(&res.id, frag.as_str()),
                            },
                        );
                    },
                }
            },
            Fragment::JsonPointer(ptr) => res.ptr.concat(ptr),
        };
        Ok(UrlPtr { url: self.url.clone(), ptr })
    }

    /// The error of this document where it holds no resource at its
    /// root.
    pub fn bug_no_root(&self) -> (r: CompileError)
        ensures
            r@ == no_root_resource(self.url@),
    {
        let mut words = String::new();
        words.append("no root resource found for ");
        words.append(self.url.as_str());
        proof {
            assert(words@ =~= "no root resource found for "@ + self.url@);
        }
        CompileError::Bug(words)
    }

    /// Resolves `frag` against the resource at the document's root. A
    /// document that holds no such resource gives the error that says so.
    pub fn resolve_fragment(&self, frag: &Fragment) -> (r: Result<UrlPtr, CompileError>)
        ensures
            r matches Ok(up) ==> up.url@ == self.url@ && (self.wf() && frag.wf() ==> up.ptr.wf()),
            !has_root(self.rs()) ==> (r matches Err(e) && e@ == no_root_resource(self.url@)),
            has_root(self.rs()) ==> match r {
                Ok(up) => resolve_in(self.url@, frag@, self.rs()[ptr_index(self.rs(), Seq::empty())])
                    == Ok::<_, ErrorView>((up.url@, up.ptr@)),
                Err(e) => resolve_in(self.url@, frag@, self.rs()[ptr_index(self.rs(), Seq::empty())])
                    == Err::<(Seq<char>, Seq<char>), _>(e@),
            },
    {
        match self.root_index() {
            Some(k) => self.resolve_fragment_in(frag, &self.resources[k]),
            None => Err(self.bug_no_root()),
        }
    }

    /// Position of the resource at the document's root, if there is one.
    pub fn root_index(&self) -> (r: Option<usize>)
        ensures
            match r {
                Some(k) => has_root(self.rs()) && k == ptr_index(self.rs(), Seq::empty()) && k
                    < self.resources@.len(),
                None => !has_root(self.rs()),
            },
    {
        proof {
            reveal_strlit("");
            assert(""@ =~= Seq::<char>::empty());
        }
        find_ptr(&self.resources, "")
    }

    /// Position of the resource against which a reference to the URL
    /// `target` is resolved: the one at the document's root where `target`
    /// is the document's URL, else the one whose identifier is `target`.
    pub open spec fn target_index(&self, target: Seq<char>) -> Option<int> {
        if target == self.url@ {
            Some(ptr_index(self.rs(), Seq::empty()))
        } else if id_index(self.rs(), target) < self.rs().len() {
            Some(id_index(self.rs(), target))
        } else {
            None
        }
    }

    /// Resolves a reference inside this document. `None` says that the
    /// reference leads to no resource of this document: its URL is not
    /// the document's and no resource has it as identifier. A reference
    /// to the document's own URL, in a document that holds no resource at
    /// its root, gives the error that says so.
    pub fn resolve(&self, uf: &UrlFrag) -> (r: Result<Option<UrlPtr>, CompileError>)
        ensures
            uf.url@ == self.url@ && !has_root(self.rs()) ==> (r matches Err(e) && e@
                == no_root_resource(self.url@)),
            !(uf.url@ == self.url@ && !has_root(self.rs())) ==> match r {
                Ok(None) => self.target_index(uf.url@) is None,
                Ok(Some(up)) => self.target_index(uf.url@) is Some && resolve_in(
                    self.url@,
                    uf.frag@,
                    self.rs()[self.target_index(uf.url@)->0],
                ) == Ok::<_, ErrorView>((up.url@, up.ptr@)),
                Err(e) => self.target_index(uf.url@) is Some && resolve_in(
                    self.url@,
                    uf.frag@,
                    self.rs()[self.target_index(uf.url@)->0],
                ) == Err::<(Seq<char>, Seq<char>), _>(e@),
            },
            r matches Ok(Some(up)) ==> up.url@ == self.url@ && (self.wf() && uf.frag.wf()
                ==> up.ptr.wf()),
            (r matches Ok(None)) <==> (uf.url@ != self.url@ && forall|i: int|
                0 <= i < self.rs().len() ==> (#[trigger] self.rs()[i]).id != uf.url@),
    {
        proof {
            let wanted = |res: ResourceView| res.id == uf.url@;
            lemma_first_match(self.rs(), wanted);
            if id_index(self.rs(), uf.url@) < self.rs().len() {
                assert(wanted(self.rs()[id_index(self.rs(), uf.url@)]));
            } else {
                assert forall|i: int| 0 <= i < self.rs().len() implies (#[trigger] self.rs()[i]).id
                    != uf.url@ by {
                    assert(!wanted(self.rs()[i]));
                }
            }
        }
        let k = if uf.url.same(&self.url) {
            match self.root_index() {
                Some(k) => k,
                None => {
                    return Err(self.bug_no_root());
                },
            }
        } else {
            match find_id(&self.resources, &uf.url) {
                Some(k) => k,
                None => {
                    return Ok(None);
                },
            }
        };
        match self.resolve_fragment_in(&uf.frag, &self.resources[k]) {
            Ok(up) => Ok(Some(up)),
            Err(e) => Err(e),
        }
    }

    /// Position of the resource that owns the location `ptr`.
    pub fn resource_index(&self, ptr: &JsonPointer) -> (k: usize)
        requires
            has_root(self.rs()),
        ensures
            k == nearest(self.rs(), ptr@),
            k < self.resources@.len(),
    {
        let ghost rs = self.rs();
        let text = ptr.as_str();
        let mut end: usize = text.unicode_len();
        proof {
            assert(text@.take(end as int) =~= text@);
            lemma_first_match(rs, |r: ResourceView| r.ptr == Seq::<char>::empty());
        }
        loop
            invariant
                has_root(self.rs()),
                rs == self.rs(),
                text@ == ptr@,
                end <= text@.len(),
                nearest(rs, ptr@) == nearest(rs, text@.take(end as int)),
            decreases end,
        {
            let head = text.substring_char(0, end);
            proof {
                assert(head@ =~= text@.take(end as int));
            }
            match find_ptr(&self.resources, head) {
                Some(k) => {
                    return k;
                },
                None => {},
            }
            match rfind_char(head, '/') {
                Some(k) => {
                    proof {
                        lemma_last_index(head@, '/');
                        assert(head@.take(k as int) =~= text@.take(k as int));
                    }
                    end = k;
                },
                None => {
                    proof {
                        lemma_last_index(head@, '/');
                    }
                    match self.root_index() {
                        Some(k) => {
                            return k;
                        },
                        None => {
                            return 0;
                        },
                    }
                },
            }
        }
    }

    /// The resource that owns the location `ptr`: the registered resource
    /// that begins at the longest prefix of `ptr`'s path. The document
    /// must hold the resource at its root.
    pub fn resource(&self, ptr: &JsonPointer) -> (r: &Resource)
        requires
            has_root(self.rs()),
        ensures
            0 <= nearest(self.rs(), ptr@) < self.resources@.len(),
            *r == self.resources@[nearest(self.rs(), ptr@)],
            ptr.wf() ==> is_path_prefix(r.ptr@, ptr@),
            ptr.wf() ==> forall|j: int|
                0 <= j < self.rs().len() && is_path_prefix((#[trigger] self.rs()[j]).ptr, ptr@)
                    ==> self.rs()[j].ptr.len() <= r.ptr@.len(),
            self.resources@.len() == 1 ==> r.ptr@.len() == 0,
    {
        let k = self.resource_index(ptr);
        proof {
            if ptr.wf() {
                lemma_nearest_is_longest_prefix(self.rs(), ptr@);
            }
            if self.resources@.len() == 1 {
                lemma_root_alone_owns_all(self.rs(), ptr@);
            }
            assert(self.rs()[k as int] == self.resources@[k as int]@);
        }
        &self.resources[k]
    }

    /// The URL against which references at `ptr` are resolved.
    pub fn base_url(&self, ptr: &JsonPointer) -> (r: &Url)
        requires
            has_root(self.rs()),
        ensures
            0 <= nearest(self.rs(), ptr@) < self.resources@.len(),
            r@ == self.rs()[nearest(self.rs(), ptr@)].id,
    {
        &self.resource(ptr).id
    }

    /// The resources of the document after the subschema at `ptr` of
    /// `doc` has been registered.
    pub open spec fn add_subschema_spec(&self, doc: Json, ptr: Seq<char>) -> Outcome {
        subschema_outcome(self.draft, self.url@, self.rs(), doc, ptr)
    }

    /// Registers the subschema at `ptr` of the document `doc`. Fails with
    /// the lookup's error where `ptr` addresses nothing in `doc`, and with
    /// the error that ended the walk or the recording of anchors. Whatever
    /// the result, the registry stays well formed and keeps every resource
    /// and anchor it had; and a subschema that was registered is settled:
    /// registering it once more changes nothing. A document that holds no
    /// resource at its root is left as it is, with the error that says so.
    pub fn add_subschema(&mut self, doc: &Json, ptr: &JsonPointer) -> (r: Result<(), CompileError>)
        requires
            ptr.wf(),
        ensures
            old(self).wf() ==> final(self).wf(),
            final(self).draft == old(self).draft,
            final(self).url == old(self).url,
            final(self).meta_vocabs == old(self).meta_vocabs,
            realizes(old(self).add_subschema_spec(*doc, ptr@), final(self).rs(), r),
            r is Ok ==> final(self).add_subschema_spec(*doc, ptr@) == done(final(self).rs()),
            extends(old(self).rs(), final(self).rs()),
            old(self).draft.id_free(*doc) ==> final(self).resources@.len() == old(
                self,
            ).resources@.len(),
    {
        let ghost before = self.rs();
        proof {
            if has_root(before) && subschema_outcome(
                self.draft,
                self.url@,
                before,
                *doc,
                ptr@,
            ).error is None {
                crate::settle::lemma_subschema_settles(self.draft, self.url@, before, *doc, ptr@);
            }
        }
        proof {
            lemma_extends_refl(before);
        }
        let v = match ptr.lookup(doc, &self.url) {
            Ok(v) => v,
            Err(e) => {
                return Err(e);
            },
        };
        if self.root_index().is_none() {
            return Err(self.bug_no_root());
        }
        proof {
            if self.draft.id_free(*doc) {
                self.draft.lemma_id_free_lookup(*doc, ptr@);
            }
            if ptr@.len() == 0 {
                assert(ptr@ =~= Seq::<char>::empty());
            }
        }
        let base_url = self.base_url(ptr).clone();
        let walked = self.draft.collect_resources(
            v,
            &base_url,
            ptr.clone(),
            &self.url,
            &mut self.resources,
        );
        let ghost middle = self.rs();
        proof {
            lemma_extends_keeps_index(before, middle, Seq::empty());
        }
        match walked {
            Err(e) => {
                return Err(e);
            },
            Ok(()) => {},
        }
        if find_ptr(&self.resources, ptr.as_str()).is_none() {
            let k = self.resource_index(ptr);
            let noted = self.draft.collect_anchors(v, ptr, &mut self.resources[k], &self.url);
            proof {
                let after = self.rs();
                assert(after =~= middle.update(
                    k as int,
                    self.draft.anchors_of(*v, ptr@, middle[k as int], self.url@).0,
                ));
                self.draft.lemma_note_update_kept(*v, ptr@, self.url@, middle, k as int);
                lemma_extends_trans(before, middle, after);
                lemma_extends_keeps_index(before, after, Seq::empty());
            }
            return noted;
        }
        Ok(())
    }
}

} // verus!
