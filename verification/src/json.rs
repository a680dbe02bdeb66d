//! The document model: a tree of null, booleans, numbers, strings, arrays
//! and objects.

use vstd::prelude::*;
use crate::text::str_eq;

verus! {

/// A document value. A number is kept as its decimal text; an object keeps
/// its members in the order in which they were written, and a name that
/// occurs twice stands for its first member.
#[derive(Debug, PartialEq, Eq)]
pub enum Json {
    Null,
    Bool(bool),
    Number(String),
    String(String),
    Array(Vec<Json>),
    Object(Vec<(String, Json)>),
}

/// Position of the first member named `key`, or `members.len()` when no
/// member has that name.
pub open spec fn member_index(members: Seq<(String, Json)>, key: Seq<char>) -> int
    decreases members.len(),
{
    if members.len() == 0 {
        0
    } else if members[0].0@ == key {
        0
    } else {
        1 + member_index(members.drop_first(), key)
    }
}

/// What `member_index` finds is the first member named `key`, if there is one.
pub proof fn lemma_member_index(members: Seq<(String, Json)>, key: Seq<char>)
    ensures
        0 <= member_index(members, key) <= members.len(),
        member_index(members, key) < members.len() ==> members[member_index(members, key)].0@
            == key,
        forall|i: int| 0 <= i < member_index(members, key) ==> members[i].0@ != key,
    decreases members.len(),
{
    if members.len() > 0 && members[0].0@ != key {
        let rest = members.drop_first();
        lemma_member_index(rest, key);
        assert forall|i: int| 0 <= i < member_index(members, key) implies members[i].0@
            != key by {
            if i > 0 {
                assert(rest[i - 1] == members[i]);
            }
        }
    }
}

/// Whether `a` and `b` are the same value: the same kind, the same text,
/// the same items in the same order, and for objects the same names with
/// the same values, in whatever order the members were written. A name
/// stands for its first member.
pub open spec fn same_json(a: Json, b: Json) -> bool
    decreases a,
{
    match (a, b) {
        (Json::Null, Json::Null) => true,
        (Json::Bool(x), Json::Bool(y)) => x == y,
        (Json::Number(x), Json::Number(y)) => x@ == y@,
        (Json::String(x), Json::String(y)) => x@ == y@,
        (Json::Array(xs), Json::Array(ys)) => xs@.len() == ys@.len() && forall|i: int|
            0 <= i < xs@.len() ==> same_json(#[trigger] xs@[i], ys@[i]),
        (Json::Object(ms), Json::Object(ns)) => {
            &&& forall|i: int|
                0 <= i < ms@.len() ==> {
                    let j = member_index(ns@, (#[trigger] ms@[i]).0@);
                    j < ns@.len() && (member_index(ms@, ms@[i].0@) == i ==> same_json(
                        ms@[i].1,
                        ns@[j].1,
                    ))
                }
            &&& forall|j: int|
                0 <= j < ns@.len() ==> member_index(ms@, (#[trigger] ns@[j]).0@) < ms@.len()
        },
        _ => false,
    }
}

/// Position of the first member named `key`, or the number of members
/// when none has that name.
pub fn position(members: &Vec<(String, Json)>, key: &str) -> (r: usize)
    ensures
        r == member_index(members@, key@),
{
    let mut i: usize = 0;
    proof {
        lemma_member_index(members@, key@);
    }
    while i < members.len()
        invariant
            i <= members.len(),
            i <= member_index(members@, key@) <= members@.len(),
        decreases members.len() - i,
    {
        proof {
            lemma_member_index(members@, key@);
        }
        if str_eq(members[i].0.as_str(), key) {
            return i;
        }
        i = i + 1;
    }
    i
}

impl Json {
    /// Whether `other` is the same value.
    #[verifier::loop_isolation(false)]
    pub fn same(&self, other: &Json) -> (r: bool)
        ensures
            r == same_json(*self, *other),
        decreases self,
    {
        match self {
            Json::Null => match other {
                Json::Null => true,
                _ => false,
            },
            Json::Bool(x) => match other {
                Json::Bool(y) => *x == *y,
                _ => false,
            },
            Json::Number(x) => match other {
                Json::Number(y) => *x == *y,
                _ => false,
            },
            Json::String(x) => match other {
                Json::String(y) => *x == *y,
                _ => false,
            },
            Json::Array(xs) => match other {
                Json::Array(ys) => {
                    if xs.len() != ys.len() {
                        return false;
                    }
                    let mut i: usize = 0;
                    while i < xs.len()
                        invariant
                            i <= xs.len(),
                            xs.len() == ys.len(),
                            *self == Json::Array(*xs),
                            *other == Json::Array(*ys),
                            forall|j: int| 0 <= j < i ==> same_json(#[trigger] xs@[j], ys@[j]),
                        decreases xs.len() - i,
                    {
                        let x = &xs[i];
                        let y = &ys[i];
                        if !x.same(y) {
                            return false;
                        }
                        i = i + 1;
                    }
                    true
                },
                _ => false,
            },
            Json::Object(ms) => match other {
                Json::Object(ns) => {
                    let mut i: usize = 0;
                    while i < ms.len()
                        invariant
                            i <= ms.len(),
                            *self == Json::Object(*ms),
                            *other == Json::Object(*ns),
                            forall|k: int|
                                0 <= k < i ==> {
                                    let j = member_index(ns@, (#[trigger] ms@[k]).0@);
                                    j < ns@.len() && (member_index(ms@, ms@[k].0@) == k
                                        ==> same_json(ms@[k].1, ns@[j].1))
                                },
                        decreases ms.len() - i,
                    {
                        let j = position(ns, ms[i].0.as_str());
                        if j >= ns.len() {
                            return false;
                        }
                        if position(ms, ms[i].0.as_str()) == i {
                            let x = &ms[i].1;
                            let y = &ns[j].1;
                            if !x.same(y) {
                                return false;
                            }
                        }
                        i = i + 1;
                    }
                    let mut j: usize = 0;
                    while j < ns.len()
                        invariant
                            j <= ns.len(),
                            forall|k: int|
                                0 <= k < j ==> member_index(ms@, (#[trigger] ns@[k]).0@)
                                    < ms@.len(),
                        decreases ns.len() - j,
                    {
                        if position(ms, ns[j].0.as_str()) >= ms.len() {
                            return false;
                        }
                        j = j + 1;
                    }
                    true
                },
                _ => false,
            },
        }
    }

    /// The member named `key` of an object; `None` for any other value and
    /// for an object without that member.
    pub open spec fn member(self, key: Seq<char>) -> Option<Json> {
        match self {
            Json::Object(members) => {
                let i = member_index(members@, key);
                if i < members@.len() {
                    Some(members@[i].1)
                } else {
                    None
                }
            },
            _ => None,
        }
    }

    /// The item at `index` of an array; `None` for any other value and for
    /// an index past the end.
    pub open spec fn element(self, index: int) -> Option<Json> {
        match self {
            Json::Array(items) => if 0 <= index < items@.len() {
                Some(items@[index])
            } else {
                None
            },
            _ => None,
        }
    }

    /// The text of a string value.
    pub open spec fn text(self) -> Option<Seq<char>> {
        match self {
            Json::String(s) => Some(s@),
            _ => None,
        }
    }

    /// The member named `key` of an object.
    pub fn get(&self, key: &str) -> (r: Option<&Json>)
        ensures
            match r {
                Some(v) => self.member(key@) == Some(*v),
                None => self.member(key@) is None,
            },
    {
        match self {
            Json::Object(members) => {
                let i = position(members, key);
                if i < members.len() {
                    Some(&members[i].1)
                } else {
                    None
                }
            },
            _ => None,
        }
    }

    /// The item at `index` of an array.
    pub fn item(&self, index: usize) -> (r: Option<&Json>)
        ensures
            match r {
                Some(v) => self.element(index as int) == Some(*v),
                None => self.element(index as int) is None,
            },
    {
        match self {
            Json::Array(items) => if index < items.len() {
                Some(&items[index])
            } else {
                None
            },
            _ => None,
        }
    }

    /// The text of a string value.
    pub fn as_str(&self) -> (r: Option<&str>)
        ensures
            match r {
                Some(s) => self.text() == Some(s@),
                None => self.text() is None,
            },
    {
        match self {
            Json::String(s) => Some(s.as_str()),
            _ => None,
        }
    }
}

} // verus!
