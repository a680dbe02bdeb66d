//! The errors of registration: whatever ends a walk through a document
//! is an error of that document, never one of loading, of a URL that is
//! taken, or of the library itself.

use vstd::prelude::*;
use crate::compiler::ErrorView;
use crate::draft::{done, Draft, Position};
use crate::json::{member_index, Json};
use crate::pointer::{child_ptr, index_digits};
use crate::root::{has_root, subschema_outcome, ResourceView, Root};

verus! {

/// The error is one that a document's content gives: it is not about
/// loading, not about a URL that is taken, and no `Bug`.
pub open spec fn is_document_error(e: ErrorView) -> bool {
    !(e is UnsupportedUrlScheme) && !(e is LoadUrlError) && !(e is ResourceExists) && !(e is Bug)
}

/// There is no error, or it is one that a document's content gives.
pub open spec fn only_document_error(e: Option<ErrorView>) -> bool {
    e matches Some(x) ==> is_document_error(x)
}

impl Draft {
    /// A walk ends only in an error of the document.
    pub proof fn lemma_walk_kind(
        self,
        sch: Json,
        base: Seq<char>,
        ptr: Seq<char>,
        url: Seq<char>,
        rs: Seq<ResourceView>,
    )
        ensures
            only_document_error(self.walk(sch, base, ptr, url, rs).error),
        decreases sch, 1nat, 0nat,
    {
        if crate::root::ptr_index(rs, ptr) < rs.len() {
        } else {
            match sch {
                Json::Object(_) => {
                    let entered = self.enter(sch, base, ptr, url, rs);
                    if entered.0.error is None {
                        let noted = self.note_anchors(sch, entered.1, ptr, url, entered.0.resources);
                        if noted.error is None {
                            self.lemma_keywords_kind(sch, entered.1, ptr, url, noted.resources, 0);
                        }
                    }
                },
                _ => {},
            }
        }
    }

    /// A walk through the keywords ends only in an error of the document.
    pub proof fn lemma_keywords_kind(
        self,
        sch: Json,
        base: Seq<char>,
        ptr: Seq<char>,
        url: Seq<char>,
        rs: Seq<ResourceView>,
        k: nat,
    )
        ensures
            only_document_error(self.walk_keywords(sch, base, ptr, url, rs, k).error),
        decreases sch, 0nat, self.subschema_table().len() - k,
    {
        let table = self.subschema_table();
        if k < table.len() {
            let step = match sch {
                Json::Object(members) => {
                    let i = member_index(members@, table[k as int].0);
                    if 0 <= i < members@.len() {
                        self.lemma_value_kind(
                            members@[i].1,
                            table[k as int].1,
                            base,
                            child_ptr(ptr, table[k as int].0),
                            url,
                            rs,
                        );
                        self.walk_value(
                            members@[i].1,
                            table[k as int].1,
                            base,
                            child_ptr(ptr, table[k as int].0),
                            url,
                            rs,
                        )
                    } else {
                        done(rs)
                    }
                },
                _ => done(rs),
            };
            if step.error is None {
                self.lemma_keywords_kind(sch, base, ptr, url, step.resources, k + 1);
            }
        }
    }

    /// A walk through a keyword's value ends only in an error of the
    /// document.
    pub proof fn lemma_value_kind(
        self,
        v: Json,
        position: Position,
        base: Seq<char>,
        ptr: Seq<char>,
        url: Seq<char>,
        rs: Seq<ResourceView>,
    )
        ensures
            only_document_error(self.walk_value(v, position, base, ptr, url, rs).error),
        decreases v, 2nat, 0nat,
    {
        let first = if position.whole() {
            self.walk(v, base, ptr, url, rs)
        } else {
            done(rs)
        };
        if position.whole() {
            self.lemma_walk_kind(v, base, ptr, url, rs);
        }
        if first.error is None {
            let second = if position.items() {
                self.walk_items(v, base, ptr, url, first.resources, 0)
            } else {
                first
            };
            if position.items() {
                self.lemma_items_kind(v, base, ptr, url, first.resources, 0);
            }
            if second.error is None && position.members() {
                self.lemma_members_kind(v, base, ptr, url, second.resources, 0);
            }
        }
    }

    /// A walk through the items of an array ends only in an error of the
    /// document.
    pub proof fn lemma_items_kind(
        self,
        v: Json,
        base: Seq<char>,
        ptr: Seq<char>,
        url: Seq<char>,
        rs: Seq<ResourceView>,
        i: nat,
    )
        ensures
            only_document_error(self.walk_items(v, base, ptr, url, rs, i).error),
        decreases v, 1nat, (if v is Array {
            v->Array_0@.len() - i
        } else {
            0
        }),
    {
        match v {
            Json::Array(items) => {
                if i < items@.len() {
                    let at = child_ptr(ptr, index_digits(i));
                    let step = self.walk(items@[i as int], base, at, url, rs);
                    self.lemma_walk_kind(items@[i as int], base, at, url, rs);
                    if step.error is None {
                        self.lemma_items_kind(v, base, ptr, url, step.resources, i + 1);
                    }
                }
            },
            _ => {},
        }
    }

    /// A walk through the members of an object ends only in an error of
    /// the document.
    pub proof fn lemma_members_kind(
        self,
        v: Json,
        base: Seq<char>,
        ptr: Seq<char>,
        url: Seq<char>,
        rs: Seq<ResourceView>,
        i: nat,
    )
        ensures
            only_document_error(self.walk_members(v, base, ptr, url, rs, i).error),
        decreases v, 1nat, (if v is Object {
            v->Object_0@.len() - i
        } else {
            0
        }),
    {
        match v {
            Json::Object(members) => {
                if i < members@.len() {
                    let at = child_ptr(ptr, members@[i as int].0@);
                    let first = member_index(members@, members@[i as int].0@) == i;
                    let step = if first {
                        self.walk(members@[i as int].1, base, at, url, rs)
                    } else {
                        done(rs)
                    };
                    if first {
                        self.lemma_walk_kind(members@[i as int].1, base, at, url, rs);
                    }
                    if step.error is None {
                        self.lemma_members_kind(v, base, ptr, url, step.resources, i + 1);
                    }
                }
            },
            _ => {},
        }
    }
}

/// Registering a subschema of a document that holds its root resource
/// ends only in an error of the document.
pub proof fn lemma_subschema_kind(
    draft: Draft,
    url: Seq<char>,
    rs: Seq<ResourceView>,
    doc: Json,
    ptr: Seq<char>,
)
    requires
        has_root(rs),
    ensures
        only_document_error(subschema_outcome(draft, url, rs, doc, ptr).error),
{
    match crate::pointer::lookup_spec(doc, ptr) {
        crate::pointer::Lookup::Found(v) => {
            draft.lemma_walk_kind(v, rs[crate::root::nearest(rs, ptr)].id, ptr, url, rs);
        },
        _ => {},
    }
}

/// Registering a document ends only in an error of the document.
pub proof fn lemma_initial_kind(draft: Draft, doc: Json, url: Seq<char>)
    ensures
        only_document_error(Root::initial(draft, doc, url).error),
{
    draft.lemma_walk_kind(doc, url, Seq::empty(), url, Seq::empty());
}

} // verus!
