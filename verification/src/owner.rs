//! Registration touches one owner: of the resources that were registered,
//! a walk changes only the one whose identifier is its base, and
//! registering a subschema only the one that owns the subschema.

use vstd::prelude::*;
use crate::draft::{keyword_text, DeclaredView, Draft, Position};
use crate::json::{member_index, Json};
use crate::pointer::{child_ptr, index_digits, lookup_spec, Lookup};
use crate::root::{
    has_root, id_index, lemma_extends_keeps_index, lemma_first_match, nearest, ptr_index,
    registry_wf, subschema_outcome, ResourceView,
};
use crate::settle::{
    grows, lemma_grows_trans, lemma_grows_weaken, lemma_nearest_in_range, lemma_nearest_stable,
    lemma_pushed_is_found,
};

verus! {

/// `after` holds every resource of `before` at its place, and each of
/// them as it was, but for the one whose identifier is `base`.
pub open spec fn touches_only(
    before: Seq<ResourceView>,
    after: Seq<ResourceView>,
    base: Seq<char>,
) -> bool {
    before.len() <= after.len() && forall|i: int|
        0 <= i < before.len() && before[i].id != base ==> #[trigger] after[i] == before[i]
}

/// What is touched twice with the same base is touched with that base.
pub proof fn lemma_touches_trans(
    a: Seq<ResourceView>,
    b: Seq<ResourceView>,
    c: Seq<ResourceView>,
    base: Seq<char>,
)
    requires
        touches_only(a, b, base),
        touches_only(b, c, base),
    ensures
        touches_only(a, c, base),
{
    assert forall|i: int| 0 <= i < a.len() && a[i].id != base implies #[trigger] c[i] == a[i] by {
        assert(b[i] == a[i]);
    }
}

impl Draft {
    /// Recording the anchors of a schema changes only the resource whose
    /// identifier is the base.
    pub proof fn lemma_note_touches(
        self,
        sch: Json,
        base: Seq<char>,
        ptr: Seq<char>,
        url: Seq<char>,
        rs: Seq<ResourceView>,
    )
        ensures
            touches_only(rs, self.note_anchors(sch, base, ptr, url, rs).resources, base),
    {
        lemma_first_match(rs, |r: ResourceView| r.id == base);
    }

    /// A walk changes, of the resources that were registered, only the
    /// one whose identifier is its base.
    pub proof fn lemma_walk_touches(
        self,
        sch: Json,
        base: Seq<char>,
        ptr: Seq<char>,
        url: Seq<char>,
        rs: Seq<ResourceView>,
    )
        ensures
            touches_only(rs, self.walk(sch, base, ptr, url, rs).resources, base),
        decreases sch, 1nat, 0nat,
    {
        if ptr_index(rs, ptr) < rs.len() {
        } else {
            match sch {
                Json::Object(_) => {
                    let entered = self.enter(sch, base, ptr, url, rs);
                    let inner = entered.1;
                    let first = entered.0.resources;
                    lemma_first_match(rs, |r: ResourceView| r.id == inner);
                    if entered.0.error is None {
                        let noted = self.note_anchors(sch, inner, ptr, url, first);
                        self.lemma_note_touches(sch, inner, ptr, url, first);
                        let last = if noted.error is None {
                            self.lemma_keywords_touches(sch, inner, ptr, url, noted.resources, 0);
                            self.walk_keywords(sch, inner, ptr, url, noted.resources, 0).resources
                        } else {
                            noted.resources
                        };
                        lemma_touches_trans(first, noted.resources, last, inner);
                        assert forall|i: int| 0 <= i < rs.len() && rs[i].id != base implies #[trigger] last[i]
                            == rs[i] by {
                            assert(first[i] == rs[i]);
                        }
                    }
                },
                _ => {},
            }
        }
    }

    /// A walk through the keywords changes, of the resources that were
    /// registered, only the one whose identifier is its base.
    pub proof fn lemma_keywords_touches(
        self,
        sch: Json,
        base: Seq<char>,
        ptr: Seq<char>,
        url: Seq<char>,
        rs: Seq<ResourceView>,
        k: nat,
    )
        ensures
            touches_only(rs, self.walk_keywords(sch, base, ptr, url, rs, k).resources, base),
        decreases sch, 0nat, self.subschema_table().len() - k,
    {
        let table = self.subschema_table();
        if k < table.len() {
            let step = match sch {
                Json::Object(members) => {
                    let i = member_index(members@, table[k as int].0);
                    if 0 <= i < members@.len() {
                        self.lemma_value_touches(
                            members@[i].1,
                            table[k as int].1,
                            base,
                            child_ptr(ptr, table[k as int].0),
                            url,
                            rs,
                        );
                        self.walk_value(
                            members@[i].1,
                            table[k as int].1,
                            base,
                            child_ptr(ptr, table[k as int].0),
                            url,
                            rs,
                        )
                    } else {
                        crate::draft::done(rs)
                    }
                },
                _ => crate::draft::done(rs),
            };
            if step.error is None {
                self.lemma_keywords_touches(sch, base, ptr, url, step.resources, k + 1);
                lemma_touches_trans(
                    rs,
                    step.resources,
                    self.walk_keywords(sch, base, ptr, url, step.resources, k + 1).resources,
                    base,
                );
            }
        }
    }

    /// A walk through a keyword's value changes, of the resources that
    /// were registered, only the one whose identifier is its base.
    pub proof fn lemma_value_touches(
        self,
        v: Json,
        position: Position,
        base: Seq<char>,
        ptr: Seq<char>,
        url: Seq<char>,
        rs: Seq<ResourceView>,
    )
        ensures
            touches_only(rs, self.walk_value(v, position, base, ptr, url, rs).resources, base),
        decreases v, 2nat, 0nat,
    {
        let first = if position.whole() {
            self.walk(v, base, ptr, url, rs)
        } else {
            crate::draft::done(rs)
        };
        if position.whole() {
            self.lemma_walk_touches(v, base, ptr, url, rs);
        }
        if first.error is None {
            let second = if position.items() {
                self.walk_items(v, base, ptr, url, first.resources, 0)
            } else {
                first
            };
            if position.items() {
                self.lemma_items_touches(v, base, ptr, url, first.resources, 0);
            }
            lemma_touches_trans(rs, first.resources, second.resources, base);
            if second.error is None && position.members() {
                self.lemma_members_touches(v, base, ptr, url, second.resources, 0);
                lemma_touches_trans(
                    rs,
                    second.resources,
                    self.walk_members(v, base, ptr, url, second.resources, 0).resources,
                    base,
                );
            }
        }
    }

    /// A walk through the items of an array changes, of the resources
    /// that were registered, only the one whose identifier is its base.
    pub proof fn lemma_items_touches(
        self,
        v: Json,
        base: Seq<char>,
        ptr: Seq<char>,
        url: Seq<char>,
        rs: Seq<ResourceView>,
        i: nat,
    )
        ensures
            touches_only(rs, self.walk_items(v, base, ptr, url, rs, i).resources, base),
        decreases v, 1nat, (if v is Array {
            v->Array_0@.len() - i
        } else {
            0
        }),
    {
        match v {
            Json::Array(items) => {
                if i < items@.len() {
                    let at = child_ptr(ptr, index_digits(i));
                    let step = self.walk(items@[i as int], base, at, url, rs);
                    self.lemma_walk_touches(items@[i as int], base, at, url, rs);
                    if step.error is None {
                        self.lemma_items_touches(v, base, ptr, url, step.resources, i + 1);
                        lemma_touches_trans(
                            rs,
                            step.resources,
                            self.walk_items(v, base, ptr, url, step.resources, i + 1).resources,
                            base,
                        );
                    }
                }
            },
            _ => {},
        }
    }

    /// A walk through the members of an object changes, of the resources
    /// that were registered, only the one whose identifier is its base.
    pub proof fn lemma_members_touches(
        self,
        v: Json,
        base: Seq<char>,
        ptr: Seq<char>,
        url: Seq<char>,
        rs: Seq<ResourceView>,
        i: nat,
    )
        ensures
            touches_only(rs, self.walk_members(v, base, ptr, url, rs, i).resources, base),
        decreases v, 1nat, (if v is Object {
            v->Object_0@.len() - i
        } else {
            0
        }),
    {
        match v {
            Json::Object(members) => {
                if i < members@.len() {
                    let at = child_ptr(ptr, members@[i as int].0@);
                    let first = member_index(members@, members@[i as int].0@) == i;
                    let step = if first {
                        self.walk(members@[i as int].1, base, at, url, rs)
                    } else {
                        crate::draft::done(rs)
                    };
                    if first {
                        self.lemma_walk_touches(members@[i as int].1, base, at, url, rs);
                    }
                    if step.error is None {
                        self.lemma_members_touches(v, base, ptr, url, step.resources, i + 1);
                        lemma_touches_trans(
                            rs,
                            step.resources,
                            self.walk_members(v, base, ptr, url, step.resources, i + 1).resources,
                            base,
                        );
                    }
                }
            },
            _ => {},
        }
    }
}

impl Draft {
    /// What a walk through the keywords of a schema adds begins below
    /// the schema's pointer, at a longer one.
    pub proof fn lemma_keywords_below(
        self,
        sch: Json,
        base: Seq<char>,
        ptr: Seq<char>,
        url: Seq<char>,
        rs: Seq<ResourceView>,
        k: nat,
    )
        ensures
            grows(rs, self.walk_keywords(sch, base, ptr, url, rs, k).resources, ptr.len() + 1),
        decreases self.subschema_table().len() - k,
    {
        let table = self.subschema_table();
        crate::root::lemma_extends_refl(rs);
        if k < table.len() {
            let at = child_ptr(ptr, table[k as int].0);
            let step = match sch {
                Json::Object(members) => {
                    let i = member_index(members@, table[k as int].0);
                    if 0 <= i < members@.len() {
                        self.lemma_value_grows(members@[i].1, table[k as int].1, base, at, url, rs);
                        self.walk_value(members@[i].1, table[k as int].1, base, at, url, rs)
                    } else {
                        crate::draft::done(rs)
                    }
                },
                _ => crate::draft::done(rs),
            };
            lemma_grows_weaken(rs, step.resources, at.len(), ptr.len() + 1);
            if step.error is None {
                self.lemma_keywords_below(sch, base, ptr, url, step.resources, k + 1);
                lemma_grows_trans(
                    rs,
                    step.resources,
                    self.walk_keywords(sch, base, ptr, url, step.resources, k + 1).resources,
                    ptr.len() + 1,
                );
            }
        }
    }
}

/// Registering a subschema leaves every resource that was registered as
/// it was, but for the one that owns the subschema: no other gets an
/// anchor or a dynamic anchor.
pub proof fn lemma_subschema_touches_owner(
    draft: Draft,
    url: Seq<char>,
    rs: Seq<ResourceView>,
    doc: Json,
    ptr: Seq<char>,
)
    requires
        registry_wf(rs),
        has_root(rs),
    ensures
        rs.len() <= subschema_outcome(draft, url, rs, doc, ptr).resources.len(),
        forall|i: int|
            0 <= i < rs.len() && i != nearest(rs, ptr) ==> #[trigger] subschema_outcome(
                draft,
                url,
                rs,
                doc,
                ptr,
            ).resources[i] == rs[i],
{
    let after = subschema_outcome(draft, url, rs, doc, ptr).resources;
    match lookup_spec(doc, ptr) {
        Lookup::Found(v) => {
            let n = nearest(rs, ptr);
            lemma_nearest_in_range(rs, ptr);
            let walked = draft.walk(v, rs[n].id, ptr, url, rs);
            draft.lemma_walk_touches(v, rs[n].id, ptr, url, rs);
            draft.lemma_walk_grows(v, rs[n].id, ptr, url, rs);
            if !(walked.error is Some || ptr_index(walked.resources, ptr) < walked.resources.len()) {
                lemma_nearest_stable(rs, walked.resources, ptr, ptr.len());
            }
            assert forall|i: int| 0 <= i < rs.len() && i != n implies #[trigger] after[i]
                == rs[i] by {
                assert(rs[i].id != rs[n].id);
                assert(walked.resources[i] == rs[i]);
            }
        },
        _ => {},
    }
}

/// Registering a subschema that declares a dynamic anchor, at a location
/// that is no resource yet, records the name in the resource that owns
/// the location afterwards.
pub proof fn lemma_dynamic_anchor_is_recorded(
    draft: Draft,
    url: Seq<char>,
    rs: Seq<ResourceView>,
    doc: Json,
    ptr: Seq<char>,
    name: Seq<char>,
)
    requires
        registry_wf(rs),
        has_root(rs),
        ptr_index(rs, ptr) >= rs.len(),
        lookup_spec(doc, ptr) is Found,
        lookup_spec(doc, ptr)->Found_0 is Object,
        draft.version_spec() >= 2020,
        keyword_text(lookup_spec(doc, ptr)->Found_0, "$dynamicAnchor"@) == DeclaredView::Text(name),
        subschema_outcome(draft, url, rs, doc, ptr).error is None,
    ensures
        ({
            let after = subschema_outcome(draft, url, rs, doc, ptr).resources;
            0 <= nearest(after, ptr) < after.len() && after[nearest(after, ptr)].dynamic_anchors.contains(
                name,
            )
        }),
{
    let v = lookup_spec(doc, ptr)->Found_0;
    let after = subschema_outcome(draft, url, rs, doc, ptr).resources;
    let n = nearest(rs, ptr);
    lemma_nearest_in_range(rs, ptr);
    let base = rs[n].id;
    let walked = draft.walk(v, base, ptr, url, rs);
    draft.lemma_walk_grows(v, base, ptr, url, rs);
    lemma_extends_keeps_index(rs, walked.resources, Seq::empty());
    if ptr_index(walked.resources, ptr) < walked.resources.len() {
        let entered = draft.enter(v, base, ptr, url, rs);
        let inner = entered.1;
        let first = entered.0.resources;
        lemma_first_match(rs, |r: ResourceView| r.ptr == ptr);
        lemma_first_match(rs, |r: ResourceView| r.id == inner);
        lemma_pushed_is_found(rs, ptr, inner);
        let noted = draft.note_anchors(v, inner, ptr, url, first);
        draft.lemma_note_grows(v, inner, ptr, url, first, ptr.len());
        draft.lemma_keywords_grows(v, inner, ptr, url, noted.resources, 0);
        if first.len() == rs.len() {
            draft.lemma_keywords_below(v, inner, ptr, url, noted.resources, 0);
            lemma_first_match(walked.resources, |r: ResourceView| r.ptr == ptr);
            let j = ptr_index(walked.resources, ptr);
            if j < rs.len() {
                assert(walked.resources[j].ptr == rs[j].ptr);
            } else {
                assert(walked.resources[j].ptr.len() >= ptr.len() + 1);
            }
            assert(false);
        }
        let k = rs.len() as int;
        lemma_first_match(first, |r: ResourceView| r.id == inner);
        crate::root::lemma_first_match_at(first, |r: ResourceView| r.id == inner, k);
        crate::root::lemma_first_match_at(first, |r: ResourceView| r.ptr == ptr, k);
        assert(noted.resources[k].dynamic_anchors.contains(name));
        lemma_extends_keeps_index(first, noted.resources, ptr);
        lemma_extends_keeps_index(noted.resources, walked.resources, ptr);
        assert(walked.resources[k].dynamic_anchors.contains(name));
    } else {
        lemma_nearest_stable(rs, walked.resources, ptr, ptr.len());
        let recorded = draft.anchors_of(v, ptr, walked.resources[n], url);
        assert(recorded.0.dynamic_anchors.contains(name));
        assert(after[n].dynamic_anchors.contains(name));
        assert(grows(walked.resources, after, ptr.len())) by {
            draft.lemma_anchors_of_extends(v, ptr, walked.resources[n], url);
            assert forall|i: int| 0 <= i < walked.resources.len() implies {
                &&& (#[trigger] after[i]).ptr == walked.resources[i].ptr
                &&& after[i].id == walked.resources[i].id
                &&& walked.resources[i].anchors.submap_of(after[i].anchors)
                &&& walked.resources[i].dynamic_anchors.subset_of(after[i].dynamic_anchors)
            } by {}
        }
        lemma_first_match(walked.resources, |r: ResourceView| r.ptr == ptr);
        lemma_first_match(after, |r: ResourceView| r.ptr == ptr);
        assert(ptr_index(after, ptr) >= after.len()) by {
            if ptr_index(after, ptr) < after.len() {
                let j = ptr_index(after, ptr);
                assert(after[j].ptr == walked.resources[j].ptr);
            }
        }
        lemma_extends_keeps_index(rs, walked.resources, Seq::empty());
        lemma_nearest_stable(walked.resources, after, ptr, ptr.len());
    }
}

} // verus!
