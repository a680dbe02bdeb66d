//! What registration adds: every resource that a walk adds begins at the
//! walk's pointer or below it, at an object of the document that declares
//! its identifier.

use vstd::prelude::*;
use crate::draft::{done, Draft, Position};
use crate::json::{member_index, Json};
use crate::pointer::{
    child, child_ptr, index_digits, is_path_prefix, is_pointer, lemma_index_digits,
    lemma_lookup_child, lemma_parent_of_child, lookup_spec, Lookup,
};
use crate::root::{
    extends, has_root, lemma_extends_keeps_index, lemma_extends_refl, lemma_extends_trans, nearest,
    ptr_index, subschema_outcome, ResourceView,
};
use crate::settle::lemma_nearest_in_range;

verus! {

/// The resource `res` begins at `ptr` or below it, at an object of `doc`
/// that declares its identifier.
pub open spec fn declared_below(draft: Draft, doc: Json, ptr: Seq<char>, res: ResourceView) -> bool {
    &&& is_path_prefix(ptr, res.ptr)
    &&& lookup_spec(doc, res.ptr) is Found
    &&& lookup_spec(doc, res.ptr)->Found_0 is Object
    &&& draft.declared_id(lookup_spec(doc, res.ptr)->Found_0) is Text
}

/// `after` extends `before`, and every resource that it adds begins at
/// `ptr` or below it, at an object of `doc` that declares its identifier.
pub open spec fn adds_below(
    draft: Draft,
    doc: Json,
    ptr: Seq<char>,
    before: Seq<ResourceView>,
    after: Seq<ResourceView>,
) -> bool {
    extends(before, after) && forall|i: int|
        before.len() <= i < after.len() ==> declared_below(draft, doc, ptr, #[trigger] after[i])
}

/// What encloses a location encloses what the location encloses.
pub proof fn lemma_path_prefix_trans(a: Seq<char>, b: Seq<char>, c: Seq<char>)
    requires
        is_path_prefix(a, b),
        is_path_prefix(b, c),
    ensures
        is_path_prefix(a, c),
{
    if a != b && b != c {
        assert(c.take(a.len() as int) =~= b.take(a.len() as int)) by {
            assert(c.take(b.len() as int) == b);
            assert forall|i: int| 0 <= i < a.len() implies c[i] == b[i] by {
                assert(c.take(b.len() as int)[i] == c[i]);
            }
        }
        assert(c[a.len() as int] == b[a.len() as int]) by {
            assert(c.take(b.len() as int)[a.len() as int] == c[a.len() as int]);
        }
    }
}

/// What was added below a pointer twice was added below it.
pub proof fn lemma_adds_trans(
    draft: Draft,
    doc: Json,
    ptr: Seq<char>,
    a: Seq<ResourceView>,
    b: Seq<ResourceView>,
    c: Seq<ResourceView>,
)
    requires
        adds_below(draft, doc, ptr, a, b),
        adds_below(draft, doc, ptr, b, c),
    ensures
        adds_below(draft, doc, ptr, a, c),
{
    lemma_extends_trans(a, b, c);
    assert forall|i: int| a.len() <= i < c.len() implies declared_below(
        draft,
        doc,
        ptr,
        #[trigger] c[i],
    ) by {
        if i < b.len() {
            assert(declared_below(draft, doc, ptr, b[i]));
            assert(c[i].ptr == b[i].ptr);
        }
    }
}

/// What was added below a location was added below what encloses it.
pub proof fn lemma_adds_weaken(
    draft: Draft,
    doc: Json,
    at: Seq<char>,
    ptr: Seq<char>,
    a: Seq<ResourceView>,
    b: Seq<ResourceView>,
)
    requires
        adds_below(draft, doc, at, a, b),
        is_path_prefix(ptr, at),
    ensures
        adds_below(draft, doc, ptr, a, b),
{
    assert forall|i: int| a.len() <= i < b.len() implies declared_below(
        draft,
        doc,
        ptr,
        #[trigger] b[i],
    ) by {
        assert(declared_below(draft, doc, at, b[i]));
        lemma_path_prefix_trans(ptr, at, b[i].ptr);
    }
}

impl Draft {
    /// A walk from a location below the document's root adds only
    /// resources that begin at the location or below it, at objects that
    /// declare their identifiers.
    pub proof fn lemma_walk_adds(
        self,
        doc: Json,
        sch: Json,
        base: Seq<char>,
        ptr: Seq<char>,
        url: Seq<char>,
        rs: Seq<ResourceView>,
    )
        requires
            is_pointer(ptr),
            ptr.len() > 0,
            lookup_spec(doc, ptr) == Lookup::Found(sch),
        ensures
            adds_below(self, doc, ptr, rs, self.walk(sch, base, ptr, url, rs).resources),
        decreases sch, 1nat, 0nat,
    {
        lemma_extends_refl(rs);
        if ptr_index(rs, ptr) < rs.len() {
        } else {
            match sch {
                Json::Object(_) => {
                    let entered = self.enter(sch, base, ptr, url, rs);
                    let first = entered.0.resources;
                    self.lemma_enter_grows(sch, base, ptr, url, rs);
                    assert(adds_below(self, doc, ptr, rs, first));
                    if entered.0.error is None {
                        let noted = self.note_anchors(sch, entered.1, ptr, url, first);
                        self.lemma_note_grows(sch, entered.1, ptr, url, first, 0);
                        assert(adds_below(self, doc, ptr, first, noted.resources));
                        lemma_adds_trans(self, doc, ptr, rs, first, noted.resources);
                        if noted.error is None {
                            self.lemma_keywords_adds(doc, sch, entered.1, ptr, url, noted.resources, 0);
                            lemma_adds_trans(
                                self,
                                doc,
                                ptr,
                                rs,
                                noted.resources,
                                self.walk_keywords(sch, entered.1, ptr, url, noted.resources, 0).resources,
                            );
                        }
                    }
                },
                _ => {},
            }
        }
    }

    /// A walk through the keywords of a schema adds only resources that
    /// begin below the schema, at objects that declare their
    /// identifiers.
    pub proof fn lemma_keywords_adds(
        self,
        doc: Json,
        sch: Json,
        base: Seq<char>,
        ptr: Seq<char>,
        url: Seq<char>,
        rs: Seq<ResourceView>,
        k: nat,
    )
        requires
            is_pointer(ptr),
            lookup_spec(doc, ptr) == Lookup::Found(sch),
        ensures
            adds_below(self, doc, ptr, rs, self.walk_keywords(sch, base, ptr, url, rs, k).resources),
        decreases sch, 0nat, self.subschema_table().len() - k,
    {
        let table = self.subschema_table();
        lemma_extends_refl(rs);
        if k < table.len() {
            let at = child_ptr(ptr, table[k as int].0);
            lemma_parent_of_child(ptr, table[k as int].0);
            let step = match sch {
                Json::Object(members) => {
                    let i = member_index(members@, table[k as int].0);
                    if 0 <= i < members@.len() {
                        lemma_lookup_child(doc, ptr, table[k as int].0);
                        self.lemma_value_adds(doc, members@[i].1, table[k as int].1, base, at, url, rs);
                        lemma_adds_weaken(
                            self,
                            doc,
                            at,
                            ptr,
                            rs,
                            self.walk_value(members@[i].1, table[k as int].1, base, at, url, rs).resources,
                        );
                        self.walk_value(members@[i].1, table[k as int].1, base, at, url, rs)
                    } else {
                        done(rs)
                    }
                },
                _ => done(rs),
            };
            if step.error is None {
                self.lemma_keywords_adds(doc, sch, base, ptr, url, step.resources, k + 1);
                lemma_adds_trans(
                    self,
                    doc,
                    ptr,
                    rs,
                    step.resources,
                    self.walk_keywords(sch, base, ptr, url, step.resources, k + 1).resources,
                );
            }
        }
    }

    /// A walk through a keyword's value adds only resources that begin at
    /// the keyword or below it, at objects that declare their
    /// identifiers.
    pub proof fn lemma_value_adds(
        self,
        doc: Json,
        v: Json,
        position: Position,
        base: Seq<char>,
        ptr: Seq<char>,
        url: Seq<char>,
        rs: Seq<ResourceView>,
    )
        requires
            is_pointer(ptr),
            ptr.len() > 0,
            lookup_spec(doc, ptr) == Lookup::Found(v),
        ensures
            adds_below(self, doc, ptr, rs, self.walk_value(v, position, base, ptr, url, rs).resources),
        decreases v, 2nat, 0nat,
    {
        lemma_extends_refl(rs);
        let first = if position.whole() {
            self.walk(v, base, ptr, url, rs)
        } else {
            done(rs)
        };
        if position.whole() {
            self.lemma_walk_adds(doc, v, base, ptr, url, rs);
        }
        if first.error is None {
            let second = if position.items() {
                self.walk_items(v, base, ptr, url, first.resources, 0)
            } else {
                first
            };
            lemma_extends_refl(first.resources);
            if position.items() {
                self.lemma_items_adds(doc, v, base, ptr, url, first.resources, 0);
            }
            lemma_adds_trans(self, doc, ptr, rs, first.resources, second.resources);
            if second.error is None && position.members() {
                self.lemma_members_adds(doc, v, base, ptr, url, second.resources, 0);
                lemma_adds_trans(
                    self,
                    doc,
                    ptr,
                    rs,
                    second.resources,
                    self.walk_members(v, base, ptr, url, second.resources, 0).resources,
                );
            }
        }
    }

    /// A walk through the items of an array adds only resources that
    /// begin below the array, at objects that declare their identifiers.
    pub proof fn lemma_items_adds(
        self,
        doc: Json,
        v: Json,
        base: Seq<char>,
        ptr: Seq<char>,
        url: Seq<char>,
        rs: Seq<ResourceView>,
        i: nat,
    )
        requires
            is_pointer(ptr),
            lookup_spec(doc, ptr) == Lookup::Found(v),
        ensures
            adds_below(self, doc, ptr, rs, self.walk_items(v, base, ptr, url, rs, i).resources),
        decreases v, 1nat, (if v is Array {
            v->Array_0@.len() - i
        } else {
            0
        }),
    {
        lemma_extends_refl(rs);
        match v {
            Json::Array(items) => {
                if i < items@.len() {
                    let at = child_ptr(ptr, index_digits(i));
                    let step = self.walk(items@[i as int], base, at, url, rs);
                    lemma_parent_of_child(ptr, index_digits(i));
                    lemma_index_digits(i);
                    lemma_lookup_child(doc, ptr, index_digits(i));
                    assert(child(v, index_digits(i)) == Some(items@[i as int]));
                    self.lemma_walk_adds(doc, items@[i as int], base, at, url, rs);
                    lemma_adds_weaken(self, doc, at, ptr, rs, step.resources);
                    if step.error is None {
                        self.lemma_items_adds(doc, v, base, ptr, url, step.resources, i + 1);
                        lemma_adds_trans(
                            self,
                            doc,
                            ptr,
                            rs,
                            step.resources,
                            self.walk_items(v, base, ptr, url, step.resources, i + 1).resources,
                        );
                    }
                }
            },
            _ => {},
        }
    }

    /// A walk through the members of an object adds only resources that
    /// begin below the object, at objects that declare their
    /// identifiers.
    pub proof fn lemma_members_adds(
        self,
        doc: Json,
        v: Json,
        base: Seq<char>,
        ptr: Seq<char>,
        url: Seq<char>,
        rs: Seq<ResourceView>,
        i: nat,
    )
        requires
            is_pointer(ptr),
            lookup_spec(doc, ptr) == Lookup::Found(v),
        ensures
            adds_below(self, doc, ptr, rs, self.walk_members(v, base, ptr, url, rs, i).resources),
        decreases v, 1nat, (if v is Object {
            v->Object_0@.len() - i
        } else {
            0
        }),
    {
        lemma_extends_refl(rs);
        match v {
            Json::Object(members) => {
                if i < members@.len() {
                    let name = members@[i as int].0@;
                    let at = child_ptr(ptr, name);
                    let first = member_index(members@, name) == i;
                    let step = if first {
                        self.walk(members@[i as int].1, base, at, url, rs)
                    } else {
                        done(rs)
                    };
                    if first {
                        lemma_parent_of_child(ptr, name);
                        lemma_lookup_child(doc, ptr, name);
                        assert(child(v, name) == Some(members@[i as int].1));
                        self.lemma_walk_adds(doc, members@[i as int].1, base, at, url, rs);
                        lemma_adds_weaken(self, doc, at, ptr, rs, step.resources);
                    }
                    if step.error is None {
                        self.lemma_members_adds(doc, v, base, ptr, url, step.resources, i + 1);
                        lemma_adds_trans(
                            self,
                            doc,
                            ptr,
                            rs,
                            step.resources,
                            self.walk_members(v, base, ptr, url, step.resources, i + 1).resources,
                        );
                    }
                }
            },
            _ => {},
        }
    }
}

/// Every resource that registering a subschema adds begins at the
/// subschema or below it, and addresses an object of the document that
/// declares its identifier.
pub proof fn lemma_subschema_adds_below(
    draft: Draft,
    url: Seq<char>,
    rs: Seq<ResourceView>,
    doc: Json,
    ptr: Seq<char>,
)
    requires
        has_root(rs),
        is_pointer(ptr),
    ensures
        adds_below(draft, doc, ptr, rs, subschema_outcome(draft, url, rs, doc, ptr).resources),
{
    lemma_extends_refl(rs);
    lemma_nearest_in_range(rs, ptr);
    match lookup_spec(doc, ptr) {
        Lookup::Found(v) => {
            let base = rs[nearest(rs, ptr)].id;
            let walked = draft.walk(v, base, ptr, url, rs);
            if ptr.len() > 0 {
                draft.lemma_walk_adds(doc, v, base, ptr, url, rs);
            } else {
                assert(ptr =~= Seq::<char>::empty());
            }
            if !(walked.error is Some || ptr_index(walked.resources, ptr) < walked.resources.len()) {
                let k = nearest(walked.resources, ptr);
                let after = subschema_outcome(draft, url, rs, doc, ptr).resources;
                lemma_extends_keeps_index(rs, walked.resources, Seq::empty());
                lemma_nearest_in_range(walked.resources, ptr);
                draft.lemma_anchors_of_extends(v, ptr, walked.resources[k], url);
                assert(adds_below(draft, doc, ptr, walked.resources, after)) by {
                    assert forall|i: int| 0 <= i < walked.resources.len() implies {
                        &&& (#[trigger] after[i]).ptr == walked.resources[i].ptr
                        &&& after[i].id == walked.resources[i].id
                        &&& walked.resources[i].anchors.submap_of(after[i].anchors)
                        &&& walked.resources[i].dynamic_anchors.subset_of(after[i].dynamic_anchors)
                    } by {}
                }
                lemma_adds_trans(draft, doc, ptr, rs, walked.resources, after);
            }
        },
        _ => {},
    }
}

} // verus!
