//! Identifiers: URLs, pointers into a document, anchors, and the two forms
//! of a reference (before and after its fragment is resolved).

use vstd::prelude::*;
use vstd::string::*;
use crate::compiler::{CompileError, ErrorView};
use crate::pointer::{is_pointer, JsonPointer};
use crate::text::{find_char, first_index_from};

verus! {

/// The serialization of the URL that `url::Url::parse` makes of `input`;
/// `None` where it rejects `input`.
pub uninterp spec fn url_parsed(input: Seq<char>) -> Option<Seq<char>>;

/// The serialization of the URL that `url::Url::join` makes of the
/// reference `input` against the URL written as `base`; `None` where `base`
/// is no URL or the reference cannot be resolved.
pub uninterp spec fn url_joined(base: Seq<char>, input: Seq<char>) -> Option<Seq<char>>;

/// Calls `url::Url::parse` and hands back the serialization of the URL it
/// made. The contract only names that result.
#[verifier::external_body]
fn parse_url_text(input: &str) -> (r: Option<String>)
    ensures
        match r {
            Some(s) => url_parsed(input@) == Some(s@),
            None => url_parsed(input@) is None,
        },
{
    match url::Url::parse(input) {
        Ok(u) => Some(String::from(u)),
        Err(_) => None,
    }
}

/// Parses `base` with `url::Url::parse`, resolves `input` against it with
/// `url::Url::join`, and hands back the serialization of the URL that came
/// out. The contract only names that result.
#[verifier::external_body]
fn join_url_text(base: &str, input: &str) -> (r: Option<String>)
    ensures
        match r {
            Some(s) => url_joined(base@, input@) == Some(s@),
            None => url_joined(base@, input@) is None,
        },
{
    match url::Url::parse(base) {
        Ok(b) => match b.join(input) {
            Ok(u) => Some(String::from(u)),
            Err(_) => None,
        },
        Err(_) => None,
    }
}

/// The text that `percent_encoding::percent_decode_str` and then
/// `decode_utf8` make of `text`; `None` where the decoded bytes are no UTF-8.
pub uninterp spec fn percent_decoded(text: Seq<char>) -> Option<Seq<char>>;

/// Calls `percent_encoding::percent_decode_str` on `text` and `decode_utf8`
/// on what it returns. The contract names that result, and says that a
/// text without `%` comes back as it is: the crate then decodes nothing
/// and hands the bytes of `text` on, which are UTF-8.
#[verifier::external_body]
fn percent_decode_text(text: &str) -> (r: Option<String>)
    ensures
        match r {
            Some(s) => percent_decoded(text@) == Some(s@),
            None => percent_decoded(text@) is None,
        },
        r is None ==> text@.contains('%'),
        r matches Some(s) ==> text@.contains('%') || s@ == text@,
{
    match percent_encoding::percent_decode_str(text).decode_utf8() {
        Ok(s) => Some(s.into_owned()),
        Err(_) => None,
    }
}

/// An absolute URL, held as its serialization. Two URLs are the same when
/// their serializations are.
#[derive(Debug, PartialEq, Eq)]
pub struct Url {
    pub text: String,
}

impl View for Url {
    type V = Seq<char>;

    open spec fn view(&self) -> Seq<char> {
        self.text@
    }
}

impl Clone for Url {
    fn clone(&self) -> (r: Self)
        ensures
            r@ == self@,
    {
        Url { text: self.text.clone() }
    }
}

impl Url {
    /// Parses an absolute URL.
    pub fn parse(input: &str) -> (r: Result<Url, CompileError>)
        ensures
            match r {
                Ok(u) => url_parsed(input@) == Some(u@),
                Err(e) => url_parsed(input@) is None && e@ == (ErrorView::ParseUrlError {
                    url: input@,
                }),
            },
    {
        match parse_url_text(input) {
            Some(text) => Ok(Url { text }),
            None => Err(CompileError::ParseUrlError { url: input.to_owned() }),
        }
    }

    /// Resolves the reference `input` against this URL.
    pub fn join(&self, input: &str) -> (r: Result<Url, CompileError>)
        ensures
            match r {
                Ok(u) => url_joined(self@, input@) == Some(u@),
                Err(e) => url_joined(self@, input@) is None && e@ == (ErrorView::ParseUrlError {
                    url: input@,
                }),
            },
    {
        match join_url_text(self.text.as_str(), input) {
            Some(text) => Ok(Url { text }),
            None => Err(CompileError::ParseUrlError { url: input.to_owned() }),
        }
    }

    /// The text, as it is written.
    pub fn as_str(&self) -> (r: &str)
        ensures
            r@ == self@,
    {
        self.text.as_str()
    }

    /// The URL's serialization, as an owned string.
    pub fn to_string(&self) -> (r: String)
        ensures
            r@ == self@,
    {
        self.text.clone()
    }

    /// Whether `other` is the same URL.
    pub fn same(&self, other: &Url) -> (r: bool)
        ensures
            r == (self@ == other@),
    {
        self.text == other.text
    }
}

/// The name of a location, as an anchor declares it.
#[derive(Debug, PartialEq, Eq)]
pub struct Anchor(pub String);

impl View for Anchor {
    type V = Seq<char>;

    open spec fn view(&self) -> Seq<char> {
        self.0@
    }
}

impl Clone for Anchor {
    fn clone(&self) -> (r: Self)
        ensures
            r@ == self@,
    {
        Anchor(self.0.clone())
    }
}

impl Anchor {
    /// The text, as it is written.
    pub fn as_str(&self) -> (r: &str)
        ensures
            r@ == self@,
    {
        self.0.as_str()
    }
}

/// The part of a reference behind `#`: a pointer where it is empty or
/// begins with `/`, else the name of an anchor.
#[derive(Debug, PartialEq, Eq)]
pub enum Fragment {
    Anchor(Anchor),
    JsonPointer(JsonPointer),
}

/// A `Fragment` with its text as a sequence of characters.
pub enum FragmentView {
    Anchor(Seq<char>),
    JsonPointer(Seq<char>),
}

impl FragmentView {
    /// The fragment's text, whichever form it has.
    pub open spec fn text(self) -> Seq<char> {
        match self {
            FragmentView::Anchor(name) => name,
            FragmentView::JsonPointer(ptr) => ptr,
        }
    }
}

/// The fragment that the decoded text `text` stands for.
pub open spec fn fragment_of(text: Seq<char>) -> FragmentView {
    if is_pointer(text) {
        FragmentView::JsonPointer(text)
    } else {
        FragmentView::Anchor(text)
    }
}

/// A reference cut at its first `#`: what stands before it, and what
/// stands behind it (empty where there is no `#`).
pub open spec fn split_ref(s: Seq<char>) -> (Seq<char>, Seq<char>) {
    let i = first_index_from(s, '#', 0);
    if i < s.len() {
        (s.take(i), s.skip(i + 1))
    } else {
        (s, Seq::empty())
    }
}

/// Cuts a reference at its first `#`.
pub fn split(s: &str) -> (r: (&str, &str))
    ensures
        r.0@ == split_ref(s@).0,
        r.1@ == split_ref(s@).1,
{
    let n = s.unicode_len();
    let i = find_char(s, '#', 0);
    proof {
        assert(s@.take(i as int) =~= s@.subrange(0, i as int));
        if i < n {
            assert(s@.skip(i + 1) =~= s@.subrange(i + 1, n as int));
        } else {
            assert(s@.subrange(n as int, n as int) =~= Seq::<char>::empty());
        }
    }
    if i < n {
        (s.substring_char(0, i), s.substring_char(i + 1, n))
    } else {
        (s, s.substring_char(n, n))
    }
}

impl View for Fragment {
    type V = FragmentView;

    open spec fn view(&self) -> FragmentView {
        match self {
            Fragment::Anchor(a) => FragmentView::Anchor(a@),
            Fragment::JsonPointer(p) => FragmentView::JsonPointer(p@),
        }
    }
}

impl Clone for Fragment {
    fn clone(&self) -> (r: Self)
        ensures
            r@ == self@,
    {
        match self {
            Fragment::Anchor(a) => Fragment::Anchor(a.clone()),
            Fragment::JsonPointer(p) => Fragment::JsonPointer(p.clone()),
        }
    }
}

impl Fragment {
    /// A pointer fragment holds a pointer.
    pub open spec fn wf(&self) -> bool {
        self@ == fragment_of(self@.text())
    }

    /// The fragment whose decoded text is `text`.
    pub fn from_decoded(text: String) -> (r: Fragment)
        ensures
            r@ == fragment_of(text@),
            r.wf(),
    {
        let n = text.as_str().unicode_len();
        if n == 0 || text.as_str().get_char(0) == '/' {
            Fragment::JsonPointer(JsonPointer(text))
        } else {
            Fragment::Anchor(Anchor(text))
        }
    }

    /// Cuts a reference at its first `#` and decodes what stands behind it.
    /// Fails exactly where the percent-decoded fragment is no UTF-8; a
    /// fragment without `%` is taken as it is written.
    pub fn split(s: &str) -> (r: Result<(&str, Fragment), CompileError>)
        ensures
            match r {
                Ok((u, frag)) => {
                    &&& u@ == split_ref(s@).0
                    &&& percent_decoded(split_ref(s@).1) == Some(frag@.text())
                    &&& frag@ == fragment_of(frag@.text())
                },
                Err(e) => {
                    &&& percent_decoded(split_ref(s@).1) is None
                    &&& e@ == (ErrorView::ParseUrlError { url: s@ })
                },
            },
            !split_ref(s@).1.contains('%') ==> (r matches Ok(parts) && parts.1@ == fragment_of(
                split_ref(s@).1,
            )),
    {
        let (u, raw) = split(s);
        match percent_decode_text(raw) {
            Some(text) => Ok((u, Fragment::from_decoded(text))),
            None => Err(CompileError::ParseUrlError { url: s.to_owned() }),
        }
    }

    /// The text, as it is written.
    pub fn as_str(&self) -> (r: &str)
        ensures
            r@ == self@.text(),
    {
        match self {
            Fragment::Anchor(a) => a.as_str(),
            Fragment::JsonPointer(p) => p.as_str(),
        }
    }
}

/// A location as a reader would write it: the URL alone where `frag` is
/// empty, else the URL, `#` and `frag`.
pub open spec fn format_loc(url: Seq<char>, frag: Seq<char>) -> Seq<char> {
    if frag.len() == 0 {
        url
    } else {
        url + seq!['#'] + frag
    }
}

/// A reference before its fragment is resolved: an absolute URL and a
/// fragment.
#[derive(Debug, PartialEq, Eq)]
pub struct UrlFrag {
    pub url: Url,
    pub frag: Fragment,
}

impl UrlFrag {
    /// The parts of an absolute reference. Fails where the fragment cannot
    /// be decoded or what stands before it is no absolute URL.
    pub fn absolute(input: &str) -> (r: Result<UrlFrag, CompileError>)
        ensures
            match r {
                Ok(uf) => {
                    &&& url_parsed(split_ref(input@).0) == Some(uf.url@)
                    &&& percent_decoded(split_ref(input@).1) == Some(uf.frag@.text())
                    &&& uf.frag.wf()
                },
                Err(e) => {
                    &&& percent_decoded(split_ref(input@).1) is None || url_parsed(
                        split_ref(input@).0,
                    ) is None
                    &&& e@ == (ErrorView::ParseUrlError {
                        url: if percent_decoded(split_ref(input@).1) is None {
                            input@
                        } else {
                            split_ref(input@).0
                        },
                    })
                },
            },
    {
        match Fragment::split(input) {
            Ok((u, frag)) => match Url::parse(u) {
                Ok(url) => Ok(UrlFrag { url, frag }),
                Err(e) => Err(e),
            },
            Err(e) => Err(e),
        }
    }

    /// The parts of the reference `input`, resolved against `url`. A
    /// reference that is only a fragment keeps `url` as it is.
    pub fn join(url: &Url, input: &str) -> (r: Result<UrlFrag, CompileError>)
        ensures
            match r {
                Ok(uf) => {
                    &&& percent_decoded(split_ref(input@).1) == Some(uf.frag@.text())
                    &&& uf.frag.wf()
                    &&& if split_ref(input@).0.len() == 0 {
                        uf.url@ == url@
                    } else {
                        url_joined(url@, split_ref(input@).0) == Some(uf.url@)
                    }
                },
                Err(e) => {
                    &&& percent_decoded(split_ref(input@).1) is None || (split_ref(input@).0.len()
                        > 0 && url_joined(url@, split_ref(input@).0) is None)
                    &&& e@ == (ErrorView::ParseUrlError {
                        url: if percent_decoded(split_ref(input@).1) is None {
                            input@
                        } else {
                            split_ref(input@).0
                        },
                    })
                },
            },
    {
        match Fragment::split(input) {
            Ok((u, frag)) => {
                if u.unicode_len() == 0 {
                    Ok(UrlFrag { url: url.clone(), frag })
                } else {
                    match url.join(u) {
                        Ok(joined) => Ok(UrlFrag { url: joined, frag }),
                        Err(e) => Err(e),
                    }
                }
            },
            Err(e) => Err(e),
        }
    }

    /// Writes a location: the URL, and behind `#` the fragment where it is
    /// not empty.
    pub fn format(url: &Url, frag: &str) -> (r: String)
        ensures
            r@ == format_loc(url@, frag@),
    {
        if frag.unicode_len() == 0 {
            url.to_string()
        } else {
            proof {
                reveal_strlit("#");
            }
            let mut out = url.to_string();
            out.append("#");
            out.append(frag);
            out
        }
    }

    /// This reference, written out.
    pub fn to_string(&self) -> (r: String)
        ensures
            r@ == format_loc(self.url@, self.frag@.text()),
    {
        Self::format(&self.url, self.frag.as_str())
    }
}

/// A resolved reference: the URL of a document and a pointer into it.
#[derive(Debug, PartialEq, Eq)]
pub struct UrlPtr {
    pub url: Url,
    pub ptr: JsonPointer,
}

impl Clone for UrlPtr {
    fn clone(&self) -> (r: Self)
        ensures
            r.url@ == self.url@,
            r.ptr@ == self.ptr@,
    {
        UrlPtr { url: self.url.clone(), ptr: self.ptr.clone() }
    }
}

impl UrlPtr {
    /// This location, written out.
    pub fn to_string(&self) -> (r: String)
        ensures
            r@ == format_loc(self.url@, self.ptr@),
    {
        UrlFrag::format(&self.url, self.ptr.as_str())
    }

    /// Whether `other` is the same location.
    pub fn same(&self, other: &UrlPtr) -> (r: bool)
        ensures
            r == (self.url@ == other.url@ && self.ptr@ == other.ptr@),
    {
        self.url.same(&other.url) && self.ptr.same(&other.ptr)
    }
}

} // verus!
