//! Pointers into a document: `/`-separated paths from the document's root,
//! with `~0` written for `~` and `~1` for `/` inside a segment.

use vstd::prelude::*;
use vstd::string::*;
use crate::compiler::{CompileError, ErrorView};
use crate::json::Json;
use crate::text::{
    find_char, first_index_from, last_index, lemma_first_index_from, lemma_last_index, rfind_char,
};
use crate::util::{format_loc, Url, UrlFrag};

verus! {

/// What one character of a segment is written as.
pub open spec fn escape_char(c: char) -> Seq<char> {
    if c == '~' {
        seq!['~', '0']
    } else if c == '/' {
        seq!['~', '1']
    } else {
        seq![c]
    }
}

/// A segment as it is written inside a pointer.
pub open spec fn escape_spec(tok: Seq<char>) -> Seq<char>
    decreases tok.len(),
{
    if tok.len() == 0 {
        Seq::empty()
    } else {
        escape_spec(tok.drop_last()) + escape_char(tok.last())
    }
}

/// `Some(head + rest)` where `tail` is `Some(rest)`.
pub open spec fn prepend(head: Seq<char>, tail: Option<Seq<char>>) -> Option<Seq<char>> {
    match tail {
        Some(rest) => Some(head + rest),
        None => None,
    }
}

/// The segment that `tok` is the written form of; `None` where a `~` is
/// followed by neither `0` nor `1`.
pub open spec fn unescape_spec(tok: Seq<char>) -> Option<Seq<char>>
    decreases tok.len(),
{
    if tok.len() == 0 {
        Some(Seq::empty())
    } else if tok[0] == '~' {
        if tok.len() >= 2 && tok[1] == '0' {
            prepend(seq!['~'], unescape_spec(tok.skip(2)))
        } else if tok.len() >= 2 && tok[1] == '1' {
            prepend(seq!['/'], unescape_spec(tok.skip(2)))
        } else {
            None
        }
    } else {
        prepend(seq![tok[0]], unescape_spec(tok.skip(1)))
    }
}

/// A pointer is empty or begins with `/`.
pub open spec fn is_pointer(p: Seq<char>) -> bool {
    p.len() == 0 || p[0] == '/'
}

/// `q` addresses `p` itself or a location that encloses it: `q` is `p`, or
/// `p` goes on after `q` with a `/`.
pub open spec fn is_path_prefix(q: Seq<char>, p: Seq<char>) -> bool {
    q == p || (q.len() < p.len() && p.take(q.len() as int) == q && p[q.len() as int] == '/')
}

/// `p` without its last segment; `None` where `p` has no `/`.
pub open spec fn trim_last(p: Seq<char>) -> Option<Seq<char>> {
    if last_index(p, '/') >= 0 {
        Some(p.take(last_index(p, '/')))
    } else {
        None
    }
}

/// Writing two segments in a row is writing the two of them as one.
pub proof fn lemma_escape_concat(a: Seq<char>, b: Seq<char>)
    ensures
        escape_spec(a + b) == escape_spec(a) + escape_spec(b),
    decreases b.len(),
{
    if b.len() == 0 {
        assert(a + b =~= a);
        assert(escape_spec(a) + escape_spec(b) =~= escape_spec(a));
    } else {
        lemma_escape_concat(a, b.drop_last());
        assert((a + b).drop_last() =~= a + b.drop_last());
        assert((a + b).last() == b.last());
        assert(escape_spec(a + b) =~= escape_spec(a) + escape_spec(b));
    }
}

/// A written segment holds no `/`.
pub proof fn lemma_escape_has_no_slash(tok: Seq<char>)
    ensures
        forall|i: int| 0 <= i < escape_spec(tok).len() ==> escape_spec(tok)[i] != '/',
    decreases tok.len(),
{
    if tok.len() > 0 {
        lemma_escape_has_no_slash(tok.drop_last());
        let head = escape_spec(tok.drop_last());
        let tail = escape_char(tok.last());
        assert forall|i: int| 0 <= i < escape_spec(tok).len() implies escape_spec(tok)[i]
            != '/' by {
            if i < head.len() {
                assert(escape_spec(tok)[i] == head[i]);
            } else {
                assert(escape_spec(tok)[i] == tail[i - head.len()]);
            }
        }
    }
}

/// Reading back a written segment gives the segment.
pub proof fn lemma_unescape_escape(tok: Seq<char>)
    ensures
        unescape_spec(escape_spec(tok)) == Some(tok),
    decreases tok.len(),
{
    if tok.len() == 0 {
    } else {
        let c = tok[0];
        let rest = tok.skip(1);
        assert(tok =~= seq![c] + rest);
        lemma_escape_concat(seq![c], rest);
        assert(seq![c].drop_last() =~= Seq::<char>::empty());
        assert(escape_spec(seq![c].drop_last()) =~= Seq::<char>::empty());
        assert(seq![c].last() == c);
        assert(escape_spec(seq![c]) =~= escape_char(c));
        lemma_unescape_escape(rest);
        let w = escape_spec(tok);
        assert(w == escape_char(c) + escape_spec(rest));
        if c == '~' || c == '/' {
            assert(w.skip(2) =~= escape_spec(rest));
            assert(unescape_spec(w) == Some(seq![c] + rest));
        } else {
            assert(w.skip(1) =~= escape_spec(rest));
            assert(unescape_spec(w) == Some(seq![c] + rest));
        }
    }
}

/// The pointer `p` with the segment `tok` behind it.
pub open spec fn child_ptr(p: Seq<char>, tok: Seq<char>) -> Seq<char> {
    p + seq!['/'] + escape_spec(tok)
}

/// A pointer with one more segment is trimmed back to the pointer: the
/// written segment holds no `/`, so the last `/` is the one before it.
pub proof fn lemma_parent_of_child(p: Seq<char>, tok: Seq<char>)
    ensures
        trim_last(child_ptr(p, tok)) == Some(p),
        is_path_prefix(p, child_ptr(p, tok)),
        is_pointer(p) ==> is_pointer(child_ptr(p, tok)),
{
    let c = child_ptr(p, tok);
    let k = p.len() as int;
    lemma_escape_has_no_slash(tok);
    lemma_last_index(c, '/');
    assert(c[k] == '/');
    assert forall|i: int| k < i < c.len() implies c[i] != '/' by {
        assert(c[i] == escape_spec(tok)[i - k - 1]);
    }
    assert(last_index(c, '/') == k);
    assert(c.take(k) =~= p);
}

/// The digit `d` as a character.
pub open spec fn digit_char(d: nat) -> char {
    if d == 0 {
        '0'
    } else if d == 1 {
        '1'
    } else if d == 2 {
        '2'
    } else if d == 3 {
        '3'
    } else if d == 4 {
        '4'
    } else if d == 5 {
        '5'
    } else if d == 6 {
        '6'
    } else if d == 7 {
        '7'
    } else if d == 8 {
        '8'
    } else {
        '9'
    }
}

/// `n` written in base ten, without leading zeros.
pub open spec fn index_digits(n: nat) -> Seq<char>
    decreases n,
{
    if n < 10 {
        seq![digit_char(n)]
    } else {
        index_digits(n / 10).push(digit_char(n % 10))
    }
}

/// `c` is one of `0` to `9`.
pub open spec fn is_digit(c: char) -> bool {
    48 <= c as int <= 57
}

/// The number that the digits `t` write in base ten.
pub open spec fn decimal(t: Seq<char>) -> nat
    decreases t.len(),
{
    if t.len() == 0 {
        0
    } else {
        (decimal(t.drop_last()) * 10 + (t.last() as int - 48)) as nat
    }
}

/// The position in an array that the segment `t` names: `0`, or digits
/// that do not begin with `0`.
pub open spec fn index_value(t: Seq<char>) -> Option<nat> {
    if t.len() > 0 && (forall|i: int| 0 <= i < t.len() ==> is_digit(#[trigger] t[i])) && (t.len()
        == 1 || t[0] != '0') {
        Some(decimal(t))
    } else {
        None
    }
}

/// The value one segment further down: the member of that name in an
/// object, the item at that position in an array.
pub open spec fn child(v: Json, tok: Seq<char>) -> Option<Json> {
    match v {
        Json::Object(_) => v.member(tok),
        Json::Array(_) => match index_value(tok) {
            Some(i) => v.element(i as int),
            None => None,
        },
        _ => None,
    }
}

/// How following a pointer through a document ends.
pub enum Lookup {
    /// At this value.
    Found(Json),
    /// At a segment with a `~` that is followed by neither `0` nor `1`.
    BadEscape,
    /// At a segment that names nothing in the value reached so far.
    Missing,
}

/// Follows the pointer `p` from `doc`, one segment at a time.
pub open spec fn lookup_spec(doc: Json, p: Seq<char>) -> Lookup
    decreases p.len(),
{
    if p.len() == 0 {
        Lookup::Found(doc)
    } else {
        let end = first_index_from(p, '/', 1);
        match unescape_spec(p.subrange(1, end)) {
            None => Lookup::BadEscape,
            Some(tok) => match child(doc, tok) {
                None => Lookup::Missing,
                Some(v) => if 1 <= end <= p.len() {
                    lookup_spec(v, p.skip(end))
                } else {
                    Lookup::Missing
                },
            },
        }
    }
}

/// The first `c` at or after `from` is at `k` when one stands there and
/// none between.
pub proof fn lemma_first_index_at(s: Seq<char>, c: char, from: int, k: int)
    requires
        0 <= from <= k <= s.len(),
        k < s.len() ==> s[k] == c,
        forall|i: int| from <= i < k ==> s[i] != c,
    ensures
        first_index_from(s, c, from) == k,
    decreases k - from,
{
    if from < k {
        lemma_first_index_at(s, c, from + 1, k);
    }
}

/// Following a pointer with one more segment is following the pointer
/// and then going one segment further down.
pub proof fn lemma_lookup_child(doc: Json, p: Seq<char>, tok: Seq<char>)
    requires
        is_pointer(p),
        lookup_spec(doc, p) is Found,
    ensures
        lookup_spec(doc, child_ptr(p, tok)) == (match child(lookup_spec(doc, p)->Found_0, tok) {
            Some(v) => Lookup::Found(v),
            None => Lookup::Missing,
        }),
    decreases p.len(),
{
    let c = child_ptr(p, tok);
    let esc = escape_spec(tok);
    lemma_escape_has_no_slash(tok);
    lemma_unescape_escape(tok);
    assert(c.len() == p.len() + 1 + esc.len());
    assert(c[p.len() as int] == '/');
    assert forall|i: int| p.len() < i < c.len() implies c[i] != '/' by {
        assert(c[i] == esc[i - p.len() - 1]);
    }
    if p.len() == 0 {
        lemma_first_index_at(c, '/', 1, c.len() as int);
        assert(c.subrange(1, c.len() as int) =~= esc);
        assert(c.skip(c.len() as int) =~= Seq::<char>::empty());
        assert(lookup_spec(doc, p) == Lookup::Found(doc));
        if child(doc, tok) is Some {
            let v = child(doc, tok)->0;
            assert(lookup_spec(v, Seq::<char>::empty()) == Lookup::Found(v));
        }
        assert(lookup_spec(doc, c) == (match child(doc, tok) {
            Some(v) => Lookup::Found(v),
            None => Lookup::Missing,
        }));
    } else {
        let end = first_index_from(p, '/', 1);
        lemma_first_index_from(p, '/', 1);
        assert forall|i: int| 1 <= i < end implies c[i] != '/' by {
            assert(c[i] == p[i]);
        }
        if end < p.len() {
            assert(c[end] == p[end]);
        }
        lemma_first_index_at(c, '/', 1, end);
        assert(c.subrange(1, end) =~= p.subrange(1, end));
        let tail = p.skip(end);
        assert(c.skip(end) =~= child_ptr(tail, tok));
        let inner = child(doc, unescape_spec(p.subrange(1, end))->0)->0;
        assert(is_pointer(tail)) by {
            if tail.len() > 0 {
                assert(tail[0] == p[end]);
            }
        }
        lemma_lookup_child(inner, tail, tok);
        assert(lookup_spec(doc, p) == lookup_spec(inner, tail));
        assert(lookup_spec(doc, c) == lookup_spec(inner, child_ptr(tail, tok)));
    }
}

/// A number written in base ten is written in digits, without a leading
/// zero but for `0` itself, and the digits write the number.
pub proof fn lemma_index_digits(n: nat)
    ensures
        index_digits(n).len() > 0,
        forall|i: int| 0 <= i < index_digits(n).len() ==> is_digit(#[trigger] index_digits(n)[i]),
        index_digits(n).len() == 1 || index_digits(n)[0] != '0',
        n > 0 ==> index_digits(n)[0] != '0',
        decimal(index_digits(n)) == n,
        index_value(index_digits(n)) == Some(n),
    decreases n,
{
    let t = index_digits(n);
    if n < 10 {
        assert(t =~= seq![digit_char(n)]);
        assert(t.drop_last() =~= Seq::<char>::empty());
        assert(decimal(t.drop_last()) == 0);
        assert(t.last() == digit_char(n));
    } else {
        let head = index_digits(n / 10);
        lemma_index_digits(n / 10);
        assert(t == head.push(digit_char(n % 10)));
        assert(t.drop_last() =~= head);
        assert(t.last() == digit_char(n % 10));
        assert(t[0] == head[0]);
        assert forall|i: int| 0 <= i < t.len() implies is_digit(#[trigger] t[i]) by {
            if i < head.len() {
                assert(t[i] == head[i]);
            }
        }
    }
}

/// More digits write a number that is not smaller.
pub proof fn lemma_decimal_grows(t: Seq<char>, n: int)
    requires
        0 <= n <= t.len(),
        forall|i: int| 0 <= i < t.len() ==> is_digit(#[trigger] t[i]),
    ensures
        decimal(t.take(n)) <= decimal(t),
    decreases t.len() - n,
{
    if n < t.len() {
        lemma_decimal_grows(t, n + 1);
        assert(t.take(n + 1).drop_last() =~= t.take(n));
        assert(t.take(n + 1).last() == t[n]);
    } else {
        assert(t.take(n) =~= t);
    }
}

/// The first `c` of what stands behind the first `k` characters is the first
/// `c` at or after `k`.
pub proof fn lemma_first_index_skip(s: Seq<char>, c: char, k: int, j: int)
    requires
        0 <= k,
        0 <= j,
        k + j <= s.len(),
    ensures
        first_index_from(s.skip(k), c, j) == first_index_from(s, c, k + j) - k,
    decreases s.len() - k - j,
{
    if k + j < s.len() {
        assert(s.skip(k)[j] == s[k + j]);
        if s[k + j] != c {
            lemma_first_index_skip(s, c, k, j + 1);
        }
    }
}

/// `n` written in base ten.
pub fn decimal_text(n: u64) -> (r: String)
    ensures
        r@ == index_digits(n as nat),
    decreases n,
{
    proof {
        reveal_strlit("0");
        reveal_strlit("1");
        reveal_strlit("2");
        reveal_strlit("3");
        reveal_strlit("4");
        reveal_strlit("5");
        reveal_strlit("6");
        reveal_strlit("7");
        reveal_strlit("8");
        reveal_strlit("9");
    }
    let d = n % 10;
    let digit: &'static str = if d == 0 {
        "0"
    } else if d == 1 {
        "1"
    } else if d == 2 {
        "2"
    } else if d == 3 {
        "3"
    } else if d == 4 {
        "4"
    } else if d == 5 {
        "5"
    } else if d == 6 {
        "6"
    } else if d == 7 {
        "7"
    } else if d == 8 {
        "8"
    } else {
        "9"
    };
    proof {
        assert(digit@ =~= seq![digit_char(d as nat)]);
    }
    if n < 10 {
        digit.to_owned()
    } else {
        let mut out = decimal_text(n / 10);
        out.append(digit);
        proof {
            assert(out@ =~= index_digits((n / 10) as nat).push(digit_char(d as nat)));
        }
        out
    }
}

/// The position `i` as a segment.
pub fn index_text(i: usize) -> (r: String)
    ensures
        r@ == index_digits(i as nat),
{
    decimal_text(i as u64)
}

/// Reads a segment as a position in an array.
pub fn parse_index(token: &str) -> (r: Option<usize>)
    ensures
        r == match index_value(token@) {
            Some(v) => if v <= usize::MAX {
                Some(v as usize)
            } else {
                None
            },
            None => None,
        },
{
    let n = token.unicode_len();
    if n == 0 {
        return None;
    }
    if n > 1 && token.get_char(0) == '0' {
        return None;
    }
    let mut value: usize = 0;
    let mut i: usize = 0;
    proof {
        assert(token@.take(0) =~= Seq::<char>::empty());
    }
    while i < n
        invariant
            i <= n,
            n == token@.len(),
            n > 0,
            n == 1 || token@[0] != '0',
            forall|j: int| 0 <= j < i ==> is_digit(#[trigger] token@[j]),
            value == decimal(token@.take(i as int)),
        decreases n - i,
    {
        let c = token.get_char(i);
        if !(c >= '0' && c <= '9') {
            proof {
                assert(!is_digit(token@[i as int]));
            }
            return None;
        }
        let d: usize = (c as u32 - '0' as u32) as usize;
        proof {
            assert(token@.take(i + 1).drop_last() =~= token@.take(i as int));
            assert(token@.take(i + 1).last() == c);
            assert(decimal(token@.take(i + 1)) == value * 10 + d);
            if forall|j: int| 0 <= j < n ==> is_digit(#[trigger] token@[j]) {
                lemma_decimal_grows(token@, i + 1);
            }
        }
        let next = match value.checked_mul(10) {
            Some(v) => v.checked_add(d),
            None => None,
        };
        match next {
            Some(v) => {
                value = v;
            },
            None => {
                return None;
            },
        }
        i = i + 1;
    }
    proof {
        assert(token@.take(n as int) =~= token@);
    }
    Some(value)
}

/// Goes one segment down from `v`.
pub fn step<'a>(v: &'a Json, name: &str) -> (r: Option<&'a Json>)
    ensures
        match r {
            Some(inner) => child(*v, name@) == Some(*inner),
            None => child(*v, name@) is None,
        },
{
    match v {
        Json::Object(_) => v.get(name),
        Json::Array(items) => match parse_index(name) {
            Some(i) => v.item(i),
            None => {
                let count = items.len();
                proof {
                    assert(items@.len() == count);
                }
                None
            },
        },
        _ => None,
    }
}

/// A pointer into a document, in its written form.
#[derive(Debug, PartialEq, Eq)]
pub struct JsonPointer(pub String);

impl View for JsonPointer {
    type V = Seq<char>;

    open spec fn view(&self) -> Seq<char> {
        self.0@
    }
}

impl Clone for JsonPointer {
    fn clone(&self) -> (r: Self)
        ensures
            r@ == self@,
    {
        JsonPointer(self.0.clone())
    }
}

impl JsonPointer {
    /// The pointer is empty or begins with `/`.
    pub open spec fn wf(&self) -> bool {
        is_pointer(self@)
    }

    /// The pointer to the document's root.
    pub fn root() -> (r: JsonPointer)
        ensures
            r@ == Seq::<char>::empty(),
            r.wf(),
    {
        JsonPointer(String::new())
    }

    /// The pointer written as `text`, if `text` is empty or begins with `/`.
    pub fn parse(text: &str) -> (r: Option<JsonPointer>)
        ensures
            match r {
                Some(p) => p@ == text@ && p.wf(),
                None => !is_pointer(text@),
            },
    {
        let n = text.unicode_len();
        if n == 0 || text.get_char(0) == '/' {
            Some(JsonPointer(text.to_owned()))
        } else {
            None
        }
    }

    /// The pointer as it is written.
    pub fn as_str(&self) -> (r: &str)
        ensures
            r@ == self@,
    {
        self.0.as_str()
    }

    /// The pointer as it is written, as an owned string.
    pub fn to_string(&self) -> (r: String)
        ensures
            r@ == self@,
    {
        self.0.clone()
    }

    /// Whether this is the pointer to the document's root.
    pub fn is_empty(&self) -> (r: bool)
        ensures
            r == (self@.len() == 0),
    {
        self.0.as_str().unicode_len() == 0
    }

    /// Whether `other` is the same pointer.
    pub fn same(&self, other: &JsonPointer) -> (r: bool)
        ensures
            r == (self@ == other@),
    {
        self.0 == other.0
    }

    /// Writes a segment: `~` becomes `~0` and `/` becomes `~1`.
    pub fn escape(token: &str) -> (r: String)
        ensures
            r@ == escape_spec(token@),
    {
        let n = token.unicode_len();
        let mut out = String::new();
        let mut i: usize = 0;
        proof {
            reveal_strlit("~0");
            reveal_strlit("~1");
            assert(token@.take(0) =~= Seq::<char>::empty());
        }
        while i < n
            invariant
                i <= n,
                n == token@.len(),
                out@ == escape_spec(token@.take(i as int)),
                "~0"@ == seq!['~', '0'],
                "~1"@ == seq!['~', '1'],
            decreases n - i,
        {
            let c = token.get_char(i);
            proof {
                assert(token@.take(i + 1).drop_last() =~= token@.take(i as int));
                assert(token@.take(i + 1).last() == c);
            }
            if c == '~' {
                out.append("~0");
            } else if c == '/' {
                out.append("~1");
            } else {
                let piece = token.substring_char(i, i + 1);
                proof {
                    assert(piece@ =~= seq![c]);
                }
                out.append(piece);
            }
            i = i + 1;
        }
        proof {
            assert(token@.take(n as int) =~= token@);
        }
        out
    }

    /// Reads a written segment back; `None` where a `~` is followed by
    /// neither `0` nor `1`.
    pub fn unescape(token: &str) -> (r: Option<String>)
        ensures
            match r {
                Some(s) => unescape_spec(token@) == Some(s@),
                None => unescape_spec(token@) is None,
            },
    {
        let n = token.unicode_len();
        let mut out = String::new();
        let mut i: usize = 0;
        proof {
            reveal_strlit("~");
            reveal_strlit("/");
            assert(token@.skip(0) =~= token@);
            assert(out@ + unescape_spec(token@)->0 =~= unescape_spec(token@)->0);
        }
        while i < n
            invariant
                i <= n,
                n == token@.len(),
                unescape_spec(token@) == prepend(out@, unescape_spec(token@.skip(i as int))),
                "~"@ == seq!['~'],
                "/"@ == seq!['/'],
            decreases n - i,
        {
            let c = token.get_char(i);
            let ghost rest = token@.skip(i as int);
            let ghost before = out@;
            proof {
                assert(rest.len() == n - i);
                assert(rest[0] == c);
            }
            if c == '~' {
                if i + 1 >= n {
                    return None;
                }
                let d = token.get_char(i + 1);
                proof {
                    assert(rest[1] == d);
                    assert(rest.skip(2) =~= token@.skip(i + 2));
                }
                if d == '0' {
                    out.append("~");
                } else if d == '1' {
                    out.append("/");
                } else {
                    return None;
                }
                proof {
                    let tail = unescape_spec(token@.skip(i + 2));
                    if tail is Some {
                        assert(before + (seq![if d == '0' { '~' } else { '/' }] + tail->0) =~= out@
                            + tail->0);
                    }
                }
                i = i + 2;
            } else {
                let piece = token.substring_char(i, i + 1);
                proof {
                    assert(piece@ =~= seq![c]);
                    assert(rest.skip(1) =~= token@.skip(i + 1));
                }
                out.append(piece);
                proof {
                    let tail = unescape_spec(token@.skip(i + 1));
                    if tail is Some {
                        assert(before + (seq![c] + tail->0) =~= out@ + tail->0);
                    }
                }
                i = i + 1;
            }
        }
        proof {
            assert(token@.skip(n as int) =~= Seq::<char>::empty());
            assert(out@ + Seq::<char>::empty() =~= out@);
        }
        Some(out)
    }

    /// This pointer followed by `next`.
    pub fn concat(&self, next: &JsonPointer) -> (r: JsonPointer)
        ensures
            r@ == self@ + next@,
            self.wf() && next.wf() ==> r.wf(),
    {
        let mut out = self.0.clone();
        out.append(next.0.as_str());
        JsonPointer(out)
    }

    /// This pointer with one more segment.
    pub fn append(&self, token: &str) -> (r: JsonPointer)
        ensures
            r@ == child_ptr(self@, token@),
            self.wf() ==> r.wf(),
    {
        proof {
            reveal_strlit("/");
        }
        let mut out = self.0.clone();
        out.append("/");
        out.append(Self::escape(token).as_str());
        JsonPointer(out)
    }

    /// This pointer with two more segments.
    pub fn append2(&self, token1: &str, token2: &str) -> (r: JsonPointer)
        ensures
            r@ == child_ptr(child_ptr(self@, token1@), token2@),
            self.wf() ==> r.wf(),
    {
        self.append(token1).append(token2)
    }

    /// The pointer without its last segment; `None` for the root.
    pub fn parent(&self) -> (r: Option<JsonPointer>)
        ensures
            match r {
                Some(p) => trim_last(self@) == Some(p@),
                None => trim_last(self@) is None,
            },
            self.wf() ==> (r matches Some(p) ==> p.wf()),
    {
        match rfind_char(self.0.as_str(), '/') {
            Some(i) => {
                proof {
                    lemma_last_index(self@, '/');
                }
                let s = self.0.as_str().substring_char(0, i);
                proof {
                    assert(s@ =~= self@.take(i as int));
                }
                Some(JsonPointer(s.to_owned()))
            },
            None => None,
        }
    }

    /// What `CompileError` a failed lookup of the pointer `p` in the
    /// document at `url` is reported as.
    pub open spec fn lookup_error(outcome: Lookup, url: Seq<char>, p: Seq<char>) -> ErrorView {
        match outcome {
            Lookup::BadEscape => ErrorView::InvalidJsonPointer(format_loc(url, p)),
            _ => ErrorView::JsonPointerNotFound(format_loc(url, p)),
        }
    }

    /// The value that this pointer addresses in `doc`, the document at
    /// `url`. Fails with `InvalidJsonPointer` at a malformed segment and
    /// with `JsonPointerNotFound` where a segment names nothing.
    pub fn lookup<'a>(&self, doc: &'a Json, url: &Url) -> (r: Result<&'a Json, CompileError>)
        requires
            self.wf(),
        ensures
            match r {
                Ok(v) => lookup_spec(*doc, self@) == Lookup::Found(*v),
                Err(e) => !(lookup_spec(*doc, self@) is Found) && e@ == Self::lookup_error(
                    lookup_spec(*doc, self@),
                    url@,
                    self@,
                ),
            },
    {
        let s = self.0.as_str();
        let n = s.unicode_len();
        let mut pos: usize = 0;
        let mut v: &'a Json = doc;
        proof {
            assert(s@.skip(0) =~= s@);
        }
        while pos < n
            invariant
                pos <= n,
                n == s@.len(),
                s@ == self@,
                pos < n ==> s@[pos as int] == '/',
                lookup_spec(*doc, s@) == lookup_spec(*v, s@.skip(pos as int)),
            decreases n - pos,
        {
            let end = find_char(s, '/', pos + 1);
            let tok = s.substring_char(pos + 1, end);
            proof {
                let rest = s@.skip(pos as int);
                lemma_first_index_skip(s@, '/', pos as int, 1);
                lemma_first_index_from(s@, '/', pos + 1);
                assert(rest.subrange(1, end - pos) =~= tok@);
                assert(rest.skip(end - pos) =~= s@.skip(end as int));
            }
            let next = match Self::unescape(tok) {
                None => {
                    return Err(CompileError::InvalidJsonPointer(UrlFrag::format(url, s)));
                },
                Some(name) => step(v, name.as_str()),
            };
            match next {
                Some(inner) => {
                    v = inner;
                    pos = end;
                },
                None => {
                    return Err(CompileError::JsonPointerNotFound(UrlFrag::format(url, s)));
                },
            }
        }
        proof {
            assert(s@.skip(n as int) =~= Seq::<char>::empty());
        }
        Ok(v)
    }
}

} // verus!
