//! Registration settles: what a walk has registered, a second walk over
//! the same schema finds registered and leaves alone.

use vstd::prelude::*;
use crate::draft::{done, keyword_text, with_anchor, DeclaredView, Draft, Position};
use crate::json::{member_index, Json};
use crate::pointer::{child_ptr, index_digits, lookup_spec, Lookup};
use crate::root::{
    extends, fresh_resource, has_root, id_index, lemma_extends_keeps_index, lemma_extends_refl,
    lemma_extends_trans, lemma_first_match, lemma_first_match_at, nearest, ptr_index,
    subschema_outcome, ResourceView,
};
use crate::text::{last_index, lemma_last_index};

verus! {

/// `after` extends `before`, and every resource that it adds begins at a
/// pointer of at least `n` characters.
pub open spec fn grows(before: Seq<ResourceView>, after: Seq<ResourceView>, n: nat) -> bool {
    &&& extends(before, after)
    &&& forall|i: int| before.len() <= i < after.len() ==> (#[trigger] after[i]).ptr.len() >= n
}

/// What grew twice grew.
pub proof fn lemma_grows_trans(
    a: Seq<ResourceView>,
    b: Seq<ResourceView>,
    c: Seq<ResourceView>,
    n: nat,
)
    requires
        grows(a, b, n),
        grows(b, c, n),
    ensures
        grows(a, c, n),
{
    lemma_extends_trans(a, b, c);
    assert forall|i: int| a.len() <= i < c.len() implies (#[trigger] c[i]).ptr.len() >= n by {
        if i < b.len() {
            assert(c[i].ptr == b[i].ptr);
        }
    }
}

/// What added only pointers of `n` characters added only pointers of fewer.
pub proof fn lemma_grows_weaken(a: Seq<ResourceView>, b: Seq<ResourceView>, n: nat, m: nat)
    requires
        grows(a, b, n),
        m <= n,
    ensures
        grows(a, b, m),
{
}

/// A registry that is extended keeps the place of every identifier that
/// was registered.
pub proof fn lemma_extends_keeps_id(
    before: Seq<ResourceView>,
    after: Seq<ResourceView>,
    id: Seq<char>,
)
    requires
        extends(before, after),
        id_index(before, id) < before.len(),
    ensures
        id_index(after, id) == id_index(before, id),
{
    let at = |r: ResourceView| r.id == id;
    lemma_first_match(before, at);
    let k = id_index(before, id);
    assert(at(after[k])) by {
        assert(after[k].id == before[k].id);
    }
    assert forall|i: int| 0 <= i < k implies !at(#[trigger] after[i]) by {
        assert(after[i].id == before[i].id);
        assert(!at(before[i]));
    }
    lemma_first_match_at(after, at, k);
}

/// A resource that was just added is found by its pointer and by its
/// identifier.
pub proof fn lemma_pushed_is_found(rs: Seq<ResourceView>, ptr: Seq<char>, id: Seq<char>)
    ensures
        ptr_index(rs.push(fresh_resource(ptr, id)), ptr) < rs.len() + 1,
        id_index(rs.push(fresh_resource(ptr, id)), id) < rs.len() + 1,
        grows(rs, rs.push(fresh_resource(ptr, id)), ptr.len()),
{
    let after = rs.push(fresh_resource(ptr, id));
    lemma_first_match(after, |r: ResourceView| r.ptr == ptr);
    lemma_first_match(after, |r: ResourceView| r.id == id);
    assert(after[rs.len() as int].ptr == ptr && after[rs.len() as int].id == id);
    assert forall|i: int| 0 <= i < rs.len() implies {
        &&& (#[trigger] after[i]).ptr == rs[i].ptr
        &&& after[i].id == rs[i].id
        &&& rs[i].anchors.submap_of(after[i].anchors)
        &&& rs[i].dynamic_anchors.subset_of(after[i].dynamic_anchors)
    } by {
        assert(after[i] == rs[i]);
    }
}

/// An anchor that is recorded stays recorded: recording it again in a
/// resource that holds it changes nothing.
pub proof fn lemma_with_anchor_settled(
    res: ResourceView,
    name: Seq<char>,
    ptr: Seq<char>,
    url: Seq<char>,
    later: ResourceView,
)
    requires
        with_anchor(res, name, ptr, url).1 is None,
        with_anchor(res, name, ptr, url).0.anchors.submap_of(later.anchors),
    ensures
        with_anchor(later, name, ptr, url) == (later, None::<crate::compiler::ErrorView>),
{
    let recorded = with_anchor(res, name, ptr, url).0;
    assert(recorded.anchors.dom().contains(name));
    assert(later.anchors.dom().contains(name));
    assert(recorded.anchors[name] == ptr);
}

impl Draft {
    /// The anchors of a schema that are recorded stay recorded.
    pub proof fn lemma_anchors_settled(
        self,
        sch: Json,
        ptr: Seq<char>,
        res: ResourceView,
        url: Seq<char>,
        later: ResourceView,
    )
        requires
            self.anchors_of(sch, ptr, res, url).1 is None,
            self.anchors_of(sch, ptr, res, url).0.anchors.submap_of(later.anchors),
            self.anchors_of(sch, ptr, res, url).0.dynamic_anchors.subset_of(later.dynamic_anchors),
        ensures
            self.anchors_of(sch, ptr, later, url) == (later, None::<crate::compiler::ErrorView>),
    {
        let recorded = self.anchors_of(sch, ptr, res, url).0;
        let malformed = Some(
            crate::compiler::ErrorView::ParseAnchorError { loc: crate::util::format_loc(url, ptr) },
        );
        if !(sch is Object) || self.is_bare_ref(sch) {
        } else if self.version_spec() < 2020 && sch.member("$dynamicAnchor"@) is Some {
        } else if self.version_spec() < 2019 {
            match keyword_text(sch, self.id_keyword_spec()) {
                DeclaredView::Text(id) => match crate::util::percent_decoded(
                    crate::util::split_ref(id).1,
                ) {
                    None => {},
                    Some(text) => match crate::util::fragment_of(text) {
                        crate::util::FragmentView::Anchor(name) => {
                            lemma_with_anchor_settled(res, name, ptr, url, later);
                        },
                        crate::util::FragmentView::JsonPointer(_) => {},
                    },
                },
                _ => {},
            }
        } else {
            let first = match keyword_text(sch, "$anchor"@) {
                DeclaredView::Text(name) => with_anchor(res, name, ptr, url),
                DeclaredView::Malformed => (res, malformed),
                DeclaredView::Nothing => (res, None),
            };
            let first_later = match keyword_text(sch, "$anchor"@) {
                DeclaredView::Text(name) => with_anchor(later, name, ptr, url),
                DeclaredView::Malformed => (later, malformed),
                DeclaredView::Nothing => (later, None),
            };
            assert(first.0.anchors.submap_of(recorded.anchors)) by {
                if self.version_spec() >= 2020 {
                    match keyword_text(sch, "$dynamicAnchor"@) {
                        DeclaredView::Text(name) => {
                            crate::draft::lemma_with_anchor_extends(first.0, name, ptr, url);
                        },
                        _ => {},
                    }
                }
            }
            vstd::map_lib::lemma_submap_of_trans(first.0.anchors, recorded.anchors, later.anchors);
            match keyword_text(sch, "$anchor"@) {
                DeclaredView::Text(name) => {
                    lemma_with_anchor_settled(res, name, ptr, url, later);
                },
                _ => {},
            }
            assert(first_later == (later, None::<crate::compiler::ErrorView>));
            if self.version_spec() >= 2020 {
                match keyword_text(sch, "$dynamicAnchor"@) {
                    DeclaredView::Text(name) => {
                        lemma_with_anchor_settled(first.0, name, ptr, url, later);
                        assert(recorded.dynamic_anchors.contains(name));
                        assert(later.dynamic_anchors.contains(name));
                        assert(later.dynamic_anchors.insert(name) =~= later.dynamic_anchors);
                    },
                    _ => {},
                }
            }
        }
    }

    /// Recording the anchors of a schema extends the registry and adds no
    /// resource.
    pub proof fn lemma_note_grows(
        self,
        sch: Json,
        base: Seq<char>,
        ptr: Seq<char>,
        url: Seq<char>,
        rs: Seq<ResourceView>,
        n: nat,
    )
        ensures
            grows(rs, self.note_anchors(sch, base, ptr, url, rs).resources, n),
            self.note_anchors(sch, base, ptr, url, rs).resources.len() == rs.len(),
    {
        let k = id_index(rs, base);
        let after = self.note_anchors(sch, base, ptr, url, rs).resources;
        if 0 <= k < rs.len() {
            self.lemma_anchors_of_extends(sch, ptr, rs[k], url);
            assert forall|i: int| 0 <= i < rs.len() implies {
                &&& (#[trigger] after[i]).ptr == rs[i].ptr
                &&& after[i].id == rs[i].id
                &&& rs[i].anchors.submap_of(after[i].anchors)
                &&& rs[i].dynamic_anchors.subset_of(after[i].dynamic_anchors)
            } by {}
        } else {
            lemma_extends_refl(rs);
        }
    }

    /// Entering a schema extends the registry by at most the schema
    /// itself.
    pub proof fn lemma_enter_grows(
        self,
        sch: Json,
        base: Seq<char>,
        ptr: Seq<char>,
        url: Seq<char>,
        rs: Seq<ResourceView>,
    )
        ensures
            grows(rs, self.enter(sch, base, ptr, url, rs).0.resources, ptr.len()),
    {
        lemma_extends_refl(rs);
        match self.declared_id(sch) {
            DeclaredView::Text(id) => match crate::util::url_joined(base, id) {
                None => {},
                Some(u) => {
                    lemma_pushed_is_found(rs, ptr, u);
                },
            },
            DeclaredView::Malformed => {},
            DeclaredView::Nothing => {
                lemma_pushed_is_found(rs, ptr, base);
            },
        }
    }

    /// A walk extends the registry, and what it adds begins at the
    /// schema's pointer or below it.
    pub proof fn lemma_walk_grows(
        self,
        sch: Json,
        base: Seq<char>,
        ptr: Seq<char>,
        url: Seq<char>,
        rs: Seq<ResourceView>,
    )
        ensures
            grows(rs, self.walk(sch, base, ptr, url, rs).resources, ptr.len()),
        decreases sch, 1nat, 0nat,
    {
        lemma_extends_refl(rs);
        if ptr_index(rs, ptr) < rs.len() {
        } else {
            match sch {
                Json::Bool(_) => {
                    lemma_pushed_is_found(rs, ptr, base);
                },
                Json::Object(_) => {
                    let entered = self.enter(sch, base, ptr, url, rs);
                    self.lemma_enter_grows(sch, base, ptr, url, rs);
                    if entered.0.error is None {
                        let noted = self.note_anchors(sch, entered.1, ptr, url, entered.0.resources);
                        self.lemma_note_grows(sch, entered.1, ptr, url, entered.0.resources, ptr.len());
                        lemma_grows_trans(rs, entered.0.resources, noted.resources, ptr.len());
                        if noted.error is None {
                            self.lemma_keywords_grows(sch, entered.1, ptr, url, noted.resources, 0);
                            lemma_grows_trans(
                                rs,
                                noted.resources,
                                self.walk_keywords(sch, entered.1, ptr, url, noted.resources, 0).resources,
                                ptr.len(),
                            );
                        }
                    }
                },
                _ => {},
            }
        }
    }

    /// A walk through the keywords extends the registry, and what it adds
    /// begins below the schema's pointer.
    pub proof fn lemma_keywords_grows(
        self,
        sch: Json,
        base: Seq<char>,
        ptr: Seq<char>,
        url: Seq<char>,
        rs: Seq<ResourceView>,
        k: nat,
    )
        ensures
            grows(rs, self.walk_keywords(sch, base, ptr, url, rs, k).resources, ptr.len()),
        decreases sch, 0nat, self.subschema_table().len() - k,
    {
        let table = self.subschema_table();
        lemma_extends_refl(rs);
        if k < table.len() {
            let step = match sch {
                Json::Object(members) => {
                    let i = member_index(members@, table[k as int].0);
                    if 0 <= i < members@.len() {
                        self.lemma_value_grows(
                            members@[i].1,
                            table[k as int].1,
                            base,
                            child_ptr(ptr, table[k as int].0),
                            url,
                            rs,
                        );
                        self.walk_value(
                            members@[i].1,
                            table[k as int].1,
                            base,
                            child_ptr(ptr, table[k as int].0),
                            url,
                            rs,
                        )
                    } else {
                        done(rs)
                    }
                },
                _ => done(rs),
            };
            lemma_grows_weaken(rs, step.resources, child_ptr(ptr, table[k as int].0).len(), ptr.len());
            if step.error is None {
                self.lemma_keywords_grows(sch, base, ptr, url, step.resources, k + 1);
                lemma_grows_trans(
                    rs,
                    step.resources,
                    self.walk_keywords(sch, base, ptr, url, step.resources, k + 1).resources,
                    ptr.len(),
                );
            }
        }
    }

    /// A walk through a keyword's value extends the registry, and what it adds
    /// begins at the keyword's pointer or below it.
    pub proof fn lemma_value_grows(
        self,
        v: Json,
        position: Position,
        base: Seq<char>,
        ptr: Seq<char>,
        url: Seq<char>,
        rs: Seq<ResourceView>,
    )
        ensures
            grows(rs, self.walk_value(v, position, base, ptr, url, rs).resources, ptr.len()),
        decreases v, 2nat, 0nat,
    {
        lemma_extends_refl(rs);
        let first = if position.whole() {
            self.walk(v, base, ptr, url, rs)
        } else {
            done(rs)
        };
        if position.whole() {
            self.lemma_walk_grows(v, base, ptr, url, rs);
        }
        if first.error is None {
            let second = if position.items() {
                self.walk_items(v, base, ptr, url, first.resources, 0)
            } else {
                first
            };
            if position.items() {
                self.lemma_items_grows(v, base, ptr, url, first.resources, 0);
                lemma_grows_trans(rs, first.resources, second.resources, ptr.len());
            }
            if second.error is None && position.members() {
                self.lemma_members_grows(v, base, ptr, url, second.resources, 0);
                lemma_grows_trans(
                    rs,
                    second.resources,
                    self.walk_members(v, base, ptr, url, second.resources, 0).resources,
                    ptr.len(),
                );
            }
        }
    }

    /// A walk through the items of an array extends the registry, and what it
    /// adds begins below the array's pointer.
    pub proof fn lemma_items_grows(
        self,
        v: Json,
        base: Seq<char>,
        ptr: Seq<char>,
        url: Seq<char>,
        rs: Seq<ResourceView>,
        i: nat,
    )
        ensures
            grows(rs, self.walk_items(v, base, ptr, url, rs, i).resources, ptr.len()),
        decreases v, 1nat, (if v is Array {
            v->Array_0@.len() - i
        } else {
            0
        }),
    {
        lemma_extends_refl(rs);
        match v {
            Json::Array(items) => {
                if i < items@.len() {
                    let at = child_ptr(ptr, index_digits(i));
                    let step = self.walk(items@[i as int], base, at, url, rs);
                    self.lemma_walk_grows(items@[i as int], base, at, url, rs);
                    lemma_grows_weaken(rs, step.resources, at.len(), ptr.len());
                    if step.error is None {
                        self.lemma_items_grows(v, base, ptr, url, step.resources, i + 1);
                        lemma_grows_trans(
                            rs,
                            step.resources,
                            self.walk_items(v, base, ptr, url, step.resources, i + 1).resources,
                            ptr.len(),
                        );
                    }
                }
            },
            _ => {},
        }
    }

    /// A walk through the members of an object extends the registry, and what
    /// it adds begins below the object's pointer.
    pub proof fn lemma_members_grows(
        self,
        v: Json,
        base: Seq<char>,
        ptr: Seq<char>,
        url: Seq<char>,
        rs: Seq<ResourceView>,
        i: nat,
    )
        ensures
            grows(rs, self.walk_members(v, base, ptr, url, rs, i).resources, ptr.len()),
        decreases v, 1nat, (if v is Object {
            v->Object_0@.len() - i
        } else {
            0
        }),
    {
        lemma_extends_refl(rs);
        match v {
            Json::Object(members) => {
                if i < members@.len() {
                    let at = child_ptr(ptr, members@[i as int].0@);
                    let first = member_index(members@, members@[i as int].0@) == i;
                    let step = if first {
                        self.walk(members@[i as int].1, base, at, url, rs)
                    } else {
                        done(rs)
                    };
                    if first {
                        self.lemma_walk_grows(members@[i as int].1, base, at, url, rs);
                        lemma_grows_weaken(rs, step.resources, at.len(), ptr.len());
                    }
                    if step.error is None {
                        self.lemma_members_grows(v, base, ptr, url, step.resources, i + 1);
                        lemma_grows_trans(
                            rs,
                            step.resources,
                            self.walk_members(v, base, ptr, url, step.resources, i + 1).resources,
                            ptr.len(),
                        );
                    }
                }
            },
            _ => {},
        }
    }
}

impl Draft {
    /// A location that a walk has gone through is settled: a walk over
    /// the same schema, from whatever the registry has been extended to,
    /// registers nothing and fails nowhere.
    pub proof fn lemma_walk_settled(
        self,
        sch: Json,
        base: Seq<char>,
        ptr: Seq<char>,
        url: Seq<char>,
        rs: Seq<ResourceView>,
        later: Seq<ResourceView>,
    )
        requires
            self.walk(sch, base, ptr, url, rs).error is None,
            extends(self.walk(sch, base, ptr, url, rs).resources, later),
            id_index(rs, base) < rs.len() || ptr.len() == 0,
        ensures
            self.walk(sch, base, ptr, url, later) == done(later),
        decreases sch, 1nat, 0nat,
    {
        let out = self.walk(sch, base, ptr, url, rs);
        self.lemma_walk_grows(sch, base, ptr, url, rs);
        lemma_extends_trans(rs, out.resources, later);
        if ptr_index(rs, ptr) < rs.len() {
            lemma_extends_keeps_index(rs, later, ptr);
        } else if ptr_index(later, ptr) < later.len() {
        } else {
            match sch {
                Json::Bool(_) => {
                    if ptr.len() == 0 {
                        lemma_pushed_is_found(rs, ptr, base);
                        lemma_extends_keeps_index(out.resources, later, ptr);
                    }
                },
                Json::Object(_) => {
                    let entered = self.enter(sch, base, ptr, url, rs);
                    let noted = self.note_anchors(sch, entered.1, ptr, url, entered.0.resources);
                    self.lemma_enter_grows(sch, base, ptr, url, rs);
                    self.lemma_note_grows(sch, entered.1, ptr, url, entered.0.resources, ptr.len());
                    self.lemma_keywords_grows(sch, entered.1, ptr, url, noted.resources, 0);
                    lemma_extends_trans(noted.resources, out.resources, later);
                    lemma_extends_trans(entered.0.resources, noted.resources, later);
                    if self.declared_id(sch) is Text || ptr.len() == 0 {
                        let id = if self.declared_id(sch) is Text {
                            crate::util::url_joined(base, self.declared_id(sch)->Text_0)->0
                        } else {
                            base
                        };
                        lemma_pushed_is_found(rs, ptr, id);
                        lemma_extends_keeps_index(entered.0.resources, later, ptr);
                    } else {
                        let k = id_index(rs, base);
                        lemma_first_match(rs, |r: ResourceView| r.id == base);
                        lemma_extends_keeps_id(rs, later, base);
                        lemma_extends_keeps_id(rs, noted.resources, base);
                        assert(noted.resources[k] == self.anchors_of(sch, ptr, rs[k], url).0);
                        self.lemma_anchors_settled(sch, ptr, rs[k], url, later[k]);
                        assert(later.update(k, later[k]) =~= later);
                        assert(self.note_anchors(sch, base, ptr, url, later) == done(later));
                        self.lemma_keywords_settled(sch, base, ptr, url, noted.resources, 0, later);
                    }
                },
                _ => {},
            }
        }
    }

    /// The keywords that a walk has gone through are settled.
    pub proof fn lemma_keywords_settled(
        self,
        sch: Json,
        base: Seq<char>,
        ptr: Seq<char>,
        url: Seq<char>,
        rs: Seq<ResourceView>,
        k: nat,
        later: Seq<ResourceView>,
    )
        requires
            self.walk_keywords(sch, base, ptr, url, rs, k).error is None,
            extends(self.walk_keywords(sch, base, ptr, url, rs, k).resources, later),
            id_index(rs, base) < rs.len(),
        ensures
            self.walk_keywords(sch, base, ptr, url, later, k) == done(later),
        decreases sch, 0nat, self.subschema_table().len() - k,
    {
        let table = self.subschema_table();
        if k < table.len() {
            let at = child_ptr(ptr, table[k as int].0);
            match sch {
                Json::Object(members) => {
                    let i = member_index(members@, table[k as int].0);
                    if 0 <= i < members@.len() {
                        let step = self.walk_value(members@[i].1, table[k as int].1, base, at, url, rs);
                        self.lemma_value_grows(members@[i].1, table[k as int].1, base, at, url, rs);
                        self.lemma_keywords_grows(sch, base, ptr, url, step.resources, k + 1);
                        lemma_extends_trans(
                            step.resources,
                            self.walk_keywords(sch, base, ptr, url, step.resources, k + 1).resources,
                            later,
                        );
                        self.lemma_value_settled(
                            members@[i].1,
                            table[k as int].1,
                            base,
                            at,
                            url,
                            rs,
                            later,
                        );
                        lemma_extends_keeps_id(rs, step.resources, base);
                        self.lemma_keywords_settled(sch, base, ptr, url, step.resources, k + 1, later);
                    } else {
                        self.lemma_keywords_settled(sch, base, ptr, url, rs, k + 1, later);
                    }
                },
                _ => {
                    self.lemma_keywords_settled(sch, base, ptr, url, rs, k + 1, later);
                },
            }
        }
    }

    /// A keyword's value that a walk has gone through is settled.
    pub proof fn lemma_value_settled(
        self,
        v: Json,
        position: Position,
        base: Seq<char>,
        ptr: Seq<char>,
        url: Seq<char>,
        rs: Seq<ResourceView>,
        later: Seq<ResourceView>,
    )
        requires
            self.walk_value(v, position, base, ptr, url, rs).error is None,
            extends(self.walk_value(v, position, base, ptr, url, rs).resources, later),
            id_index(rs, base) < rs.len(),
        ensures
            self.walk_value(v, position, base, ptr, url, later) == done(later),
        decreases v, 2nat, 0nat,
    {
        let first = if position.whole() {
            self.walk(v, base, ptr, url, rs)
        } else {
            done(rs)
        };
        let second = if position.items() {
            self.walk_items(v, base, ptr, url, first.resources, 0)
        } else {
            first
        };
        let third = if position.members() {
            self.walk_members(v, base, ptr, url, second.resources, 0)
        } else {
            second
        };
        lemma_extends_refl(rs);
        lemma_extends_refl(first.resources);
        lemma_extends_refl(second.resources);
        if position.whole() {
            self.lemma_walk_grows(v, base, ptr, url, rs);
        }
        if position.items() {
            self.lemma_items_grows(v, base, ptr, url, first.resources, 0);
        }
        if position.members() {
            self.lemma_members_grows(v, base, ptr, url, second.resources, 0);
        }
        lemma_extends_trans(second.resources, third.resources, later);
        lemma_extends_trans(first.resources, second.resources, later);
        lemma_extends_keeps_id(rs, first.resources, base);
        lemma_extends_keeps_id(first.resources, second.resources, base);
        if position.whole() {
            self.lemma_walk_settled(v, base, ptr, url, rs, later);
        }
        if position.items() {
            self.lemma_items_settled(v, base, ptr, url, first.resources, 0, later);
        }
        if position.members() {
            self.lemma_members_settled(v, base, ptr, url, second.resources, 0, later);
        }
    }

    /// The items that a walk has gone through are settled.
    pub proof fn lemma_items_settled(
        self,
        v: Json,
        base: Seq<char>,
        ptr: Seq<char>,
        url: Seq<char>,
        rs: Seq<ResourceView>,
        i: nat,
        later: Seq<ResourceView>,
    )
        requires
            self.walk_items(v, base, ptr, url, rs, i).error is None,
            extends(self.walk_items(v, base, ptr, url, rs, i).resources, later),
            id_index(rs, base) < rs.len(),
        ensures
            self.walk_items(v, base, ptr, url, later, i) == done(later),
        decreases v, 1nat, (if v is Array {
            v->Array_0@.len() - i
        } else {
            0
        }),
    {
        match v {
            Json::Array(items) => {
                if i < items@.len() {
                    let at = child_ptr(ptr, index_digits(i));
                    let step = self.walk(items@[i as int], base, at, url, rs);
                    self.lemma_walk_grows(items@[i as int], base, at, url, rs);
                    self.lemma_items_grows(v, base, ptr, url, step.resources, i + 1);
                    lemma_extends_trans(
                        step.resources,
                        self.walk_items(v, base, ptr, url, step.resources, i + 1).resources,
                        later,
                    );
                    self.lemma_walk_settled(items@[i as int], base, at, url, rs, later);
                    lemma_extends_keeps_id(rs, step.resources, base);
                    self.lemma_items_settled(v, base, ptr, url, step.resources, i + 1, later);
                }
            },
            _ => {},
        }
    }

    /// The members that a walk has gone through are settled.
    pub proof fn lemma_members_settled(
        self,
        v: Json,
        base: Seq<char>,
        ptr: Seq<char>,
        url: Seq<char>,
        rs: Seq<ResourceView>,
        i: nat,
        later: Seq<ResourceView>,
    )
        requires
            self.walk_members(v, base, ptr, url, rs, i).error is None,
            extends(self.walk_members(v, base, ptr, url, rs, i).resources, later),
            id_index(rs, base) < rs.len(),
        ensures
            self.walk_members(v, base, ptr, url, later, i) == done(later),
        decreases v, 1nat, (if v is Object {
            v->Object_0@.len() - i
        } else {
            0
        }),
    {
        match v {
            Json::Object(members) => {
                if i < members@.len() {
                    let at = child_ptr(ptr, members@[i as int].0@);
                    let first = member_index(members@, members@[i as int].0@) == i;
                    let step = if first {
                        self.walk(members@[i as int].1, base, at, url, rs)
                    } else {
                        done(rs)
                    };
                    lemma_extends_refl(rs);
                    if first {
                        self.lemma_walk_grows(members@[i as int].1, base, at, url, rs);
                    }
                    self.lemma_members_grows(v, base, ptr, url, step.resources, i + 1);
                    lemma_extends_trans(
                        step.resources,
                        self.walk_members(v, base, ptr, url, step.resources, i + 1).resources,
                        later,
                    );
                    if first {
                        self.lemma_walk_settled(members@[i as int].1, base, at, url, rs, later);
                    }
                    lemma_extends_keeps_id(rs, step.resources, base);
                    self.lemma_members_settled(v, base, ptr, url, step.resources, i + 1, later);
                }
            },
            _ => {},
        }
    }
}

/// The owner of a location is registered.
pub proof fn lemma_nearest_in_range(rs: Seq<ResourceView>, p: Seq<char>)
    requires
        has_root(rs),
    ensures
        0 <= nearest(rs, p) < rs.len(),
    decreases p.len(),
{
    lemma_first_match(rs, |r: ResourceView| r.ptr == p);
    lemma_first_match(rs, |r: ResourceView| r.ptr == Seq::<char>::empty());
    if ptr_index(rs, p) >= rs.len() {
        let k = last_index(p, '/');
        if 0 <= k < p.len() {
            lemma_nearest_in_range(rs, p.take(k));
        }
    }
}

/// The owner of a location stays its owner while the registry is only
/// extended by resources that begin at longer pointers, or at pointers
/// as long where the location itself is not among them.
pub proof fn lemma_nearest_stable(
    rs: Seq<ResourceView>,
    later: Seq<ResourceView>,
    q: Seq<char>,
    bound: nat,
)
    requires
        has_root(rs),
        grows(rs, later, bound),
        q.len() <= bound,
        q.len() == bound ==> ptr_index(later, q) >= later.len(),
    ensures
        nearest(later, q) == nearest(rs, q),
    decreases q.len(),
{
    let at = |r: ResourceView| r.ptr == q;
    lemma_first_match(rs, at);
    lemma_first_match(later, at);
    if ptr_index(rs, q) < rs.len() {
        lemma_extends_keeps_index(rs, later, q);
    } else {
        if ptr_index(later, q) < later.len() {
            let j = ptr_index(later, q);
            assert(at(later[j]));
            if j < rs.len() {
                assert(later[j].ptr == rs[j].ptr);
                assert(!at(rs[j]));
            }
            assert(later[j].ptr.len() >= bound);
            assert(false);
        }
        let k = last_index(q, '/');
        lemma_last_index(q, '/');
        if 0 <= k < q.len() {
            lemma_nearest_stable(rs, later, q.take(k), bound);
        } else {
            lemma_extends_keeps_index(rs, later, Seq::empty());
        }
    }
}

/// Where a resource begins, all is registered: registering the subschema
/// there changes nothing and does not fail. So it is at the root of every
/// document that holds its root resource.
pub proof fn lemma_resource_is_settled(
    draft: Draft,
    url: Seq<char>,
    rs: Seq<ResourceView>,
    doc: Json,
    ptr: Seq<char>,
)
    requires
        has_root(rs),
        ptr_index(rs, ptr) < rs.len(),
        lookup_spec(doc, ptr) is Found,
    ensures
        subschema_outcome(draft, url, rs, doc, ptr) == done(rs),
        lookup_spec(doc, Seq::empty()) == Lookup::Found(doc),
{
}

/// A subschema that is registered is settled: registering it again
/// changes nothing and does not fail.
pub proof fn lemma_subschema_settles(
    draft: Draft,
    url: Seq<char>,
    rs: Seq<ResourceView>,
    doc: Json,
    ptr: Seq<char>,
)
    requires
        has_root(rs),
        subschema_outcome(draft, url, rs, doc, ptr).error is None,
    ensures
        subschema_outcome(draft, url, subschema_outcome(draft, url, rs, doc, ptr).resources, doc, ptr)
            == done(subschema_outcome(draft, url, rs, doc, ptr).resources),
{
    let out = subschema_outcome(draft, url, rs, doc, ptr);
    let after = out.resources;
    match lookup_spec(doc, ptr) {
        Lookup::Found(v) => {
            let n = nearest(rs, ptr);
            lemma_nearest_in_range(rs, ptr);
            let base = rs[n].id;
            let walked = draft.walk(v, base, ptr, url, rs);
            draft.lemma_walk_grows(v, base, ptr, url, rs);
            lemma_extends_keeps_index(rs, walked.resources, Seq::empty());
            lemma_first_match(rs, |r: ResourceView| r.id == base);
            assert(id_index(rs, base) <= n);
            if ptr_index(walked.resources, ptr) < walked.resources.len() {
                lemma_extends_refl(after);
                lemma_nearest_in_range(after, ptr);
                let again = draft.walk(v, after[nearest(after, ptr)].id, ptr, url, after);
                assert(again == done(after));
            } else {
                let m = nearest(walked.resources, ptr);
                lemma_nearest_stable(rs, walked.resources, ptr, ptr.len());
                assert(m == n);
                let noted = draft.anchors_of(v, ptr, walked.resources[n], url);
                draft.lemma_anchors_of_extends(v, ptr, walked.resources[n], url);
                assert(extends(walked.resources, after)) by {
                    assert forall|i: int| 0 <= i < walked.resources.len() implies {
                        &&& (#[trigger] after[i]).ptr == walked.resources[i].ptr
                        &&& after[i].id == walked.resources[i].id
                        &&& walked.resources[i].anchors.submap_of(after[i].anchors)
                        &&& walked.resources[i].dynamic_anchors.subset_of(after[i].dynamic_anchors)
                    } by {}
                }
                assert(grows(walked.resources, after, ptr.len()));
                lemma_extends_keeps_index(walked.resources, after, Seq::empty());
                lemma_first_match(walked.resources, |r: ResourceView| r.ptr == ptr);
                lemma_first_match(after, |r: ResourceView| r.ptr == ptr);
                assert(ptr_index(after, ptr) >= after.len()) by {
                    if ptr_index(after, ptr) < after.len() {
                        let j = ptr_index(after, ptr);
                        assert(after[j].ptr == walked.resources[j].ptr);
                    }
                }
                lemma_nearest_stable(walked.resources, after, ptr, ptr.len());
                assert(nearest(after, ptr) == n);
                assert(after[n].id == base);
                draft.lemma_walk_settled(v, base, ptr, url, rs, after);
                draft.lemma_anchors_settled(v, ptr, walked.resources[n], url, after[n]);
                assert(after.update(n, after[n]) =~= after);
            }
        },
        _ => {},
    }
}

} // verus!
