//! The errors that registering and resolving schema documents can end in.

use vstd::prelude::*;
use vstd::string::*;
use crate::draft::Draft;
use crate::json::{same_json, Json};
use crate::outline::{entry_views, option_view, ptr_views, text_views, Outline, OutlineView};
use crate::draft::done;
use crate::kinds::{
    lemma_initial_kind, lemma_subschema_kind, only_document_error,
};
use crate::pointer::{is_pointer, lookup_spec, JsonPointer};
use crate::root::{
    anchors_lead_to_pointers, find_name, names_set, nearest, option_names, ptr_index, resolve_in,
    Root,
};
use crate::schemas::{
    compiled_from, distinct_locs, find_loc, lemma_loc_index, lemma_loc_index_same, loc_index,
    DynamicRef, Schema, SchemaIndex, Schemas,
};
use crate::text::{find_char, first_index_from, str_eq};
use crate::util::{
    fragment_of, percent_decoded, split_ref, url_joined, url_parsed, Fragment, FragmentView, Url,
    UrlFrag, UrlPtr,
};

verus! {

/// Why a document could not be registered or a reference not be resolved.
#[derive(Debug, PartialEq, Eq)]
pub enum CompileError {
    /// The text is no URL, or cannot be resolved against its base.
    ParseUrlError { url: String },
    /// The identifier declared at `loc` is no valid URL reference.
    ParseIdError { loc: String },
    /// The anchor declared at `loc` is malformed.
    ParseAnchorError { loc: String },
    /// Two resources of the document at `url` declare the same identifier.
    DuplicateId { url: String, id: String, ptr1: String, ptr2: String },
    /// Two locations of one resource declare the same anchor name.
    DuplicateAnchor { url: String, anchor: String, ptr1: String, ptr2: String },
    /// A dynamic anchor is declared at `loc` under a draft that has none.
    DynamicAnchorNotSupported { loc: String },
    /// The pointer holds `~` followed by neither `0` nor `1`.
    InvalidJsonPointer(String),
    /// The pointer addresses no value in its document.
    JsonPointerNotFound(String),
    /// The resource addressed by `reference` declares no such anchor.
    AnchorNotFound { url: String, reference: String },
    /// The value at `loc` is neither an object nor a boolean, so it is
    /// no schema.
    NotASchema { loc: String },
    /// The document names, with `$schema`, a draft that is not known.
    UnsupportedDraft { url: String },
    /// No loader is registered for the scheme of `url`.
    UnsupportedUrlScheme { url: String },
    /// The loader could not hand out the document at `url`; `src` is what
    /// it said.
    LoadUrlError { url: String, src: String },
    /// Another document is registered under `url` already.
    ResourceExists { url: String },
    /// The document at `url` asks for a vocabulary that its draft does
    /// not have.
    UnsupportedVocabulary { url: String, vocabulary: String },
    /// The library was handed a state that it never makes itself, such
    /// as a document without the resource at its root; the text says
    /// which.
    Bug(String),
}

/// A `CompileError` with each text as a sequence of characters.
pub enum ErrorView {
    ParseUrlError { url: Seq<char> },
    ParseIdError { loc: Seq<char> },
    ParseAnchorError { loc: Seq<char> },
    DuplicateId { url: Seq<char>, id: Seq<char>, ptr1: Seq<char>, ptr2: Seq<char> },
    DuplicateAnchor { url: Seq<char>, anchor: Seq<char>, ptr1: Seq<char>, ptr2: Seq<char> },
    DynamicAnchorNotSupported { loc: Seq<char> },
    InvalidJsonPointer(Seq<char>),
    JsonPointerNotFound(Seq<char>),
    AnchorNotFound { url: Seq<char>, reference: Seq<char> },
    NotASchema { loc: Seq<char> },
    UnsupportedDraft { url: Seq<char> },
    UnsupportedUrlScheme { url: Seq<char> },
    LoadUrlError { url: Seq<char>, src: Seq<char> },
    ResourceExists { url: Seq<char> },
    UnsupportedVocabulary { url: Seq<char>, vocabulary: Seq<char> },
    Bug(Seq<char>),
}

impl View for CompileError {
    type V = ErrorView;

    open spec fn view(&self) -> ErrorView {
        match self {
            CompileError::ParseUrlError { url } => ErrorView::ParseUrlError { url: url@ },
            CompileError::ParseIdError { loc } => ErrorView::ParseIdError { loc: loc@ },
            CompileError::ParseAnchorError { loc } => ErrorView::ParseAnchorError { loc: loc@ },
            CompileError::DuplicateId { url, id, ptr1, ptr2 } => ErrorView::DuplicateId {
                url: url@,
                id: id@,
                ptr1: ptr1@,
                ptr2: ptr2@,
            },
            CompileError::DuplicateAnchor { url, anchor, ptr1, ptr2 } => ErrorView::DuplicateAnchor {
                url: url@,
                anchor: anchor@,
                ptr1: ptr1@,
                ptr2: ptr2@,
            },
            CompileError::DynamicAnchorNotSupported { loc } => ErrorView::DynamicAnchorNotSupported {
                loc: loc@,
            },
            CompileError::InvalidJsonPointer(loc) => ErrorView::InvalidJsonPointer(loc@),
            CompileError::JsonPointerNotFound(loc) => ErrorView::JsonPointerNotFound(loc@),
            CompileError::AnchorNotFound { url, reference } => ErrorView::AnchorNotFound {
                url: url@,
                reference: reference@,
            },
            CompileError::NotASchema { loc } => ErrorView::NotASchema { loc: loc@ },
            CompileError::UnsupportedDraft { url } => ErrorView::UnsupportedDraft { url: url@ },
            CompileError::UnsupportedUrlScheme { url } => ErrorView::UnsupportedUrlScheme {
                url: url@,
            },
            CompileError::LoadUrlError { url, src } => ErrorView::LoadUrlError {
                url: url@,
                src: src@,
            },
            CompileError::ResourceExists { url } => ErrorView::ResourceExists { url: url@ },
            CompileError::UnsupportedVocabulary { url, vocabulary } => ErrorView::UnsupportedVocabulary {
                url: url@,
                vocabulary: vocabulary@,
            },
            CompileError::Bug(words) => ErrorView::Bug(words@),
        }
    }
}

impl ErrorView {
    /// The error in words.
    pub open spec fn message(self) -> Seq<char> {
        match self {
            ErrorView::ParseUrlError { url } => "invalid url "@ + url,
            ErrorView::ParseIdError { loc } => "invalid identifier at "@ + loc,
            ErrorView::ParseAnchorError { loc } => "invalid anchor at "@ + loc,
            ErrorView::DuplicateId { url, id, ptr1, ptr2 } => "duplicate identifier "@ + id
                + " in "@ + url + " at "@ + ptr1 + " and "@ + ptr2,
            ErrorView::DuplicateAnchor { url, anchor, ptr1, ptr2 } => "duplicate anchor "@ + anchor
                + " in "@ + url + " at "@ + ptr1 + " and "@ + ptr2,
            ErrorView::DynamicAnchorNotSupported { loc } => "dynamic anchor not supported at "@ + loc,
            ErrorView::InvalidJsonPointer(loc) => "invalid json pointer "@ + loc,
            ErrorView::JsonPointerNotFound(loc) => "json pointer not found "@ + loc,
            ErrorView::AnchorNotFound { url, reference } => "anchor not found in "@ + url
                + " for "@ + reference,
            ErrorView::NotASchema { loc } => "not a schema at "@ + loc,
            ErrorView::UnsupportedDraft { url } => "unsupported draft "@ + url,
            ErrorView::UnsupportedUrlScheme { url } => "no loader for the scheme of "@ + url,
            ErrorView::LoadUrlError { url, src } => "error loading "@ + url + ": "@ + src,
            ErrorView::ResourceExists { url } => "another document is registered under "@ + url,
            ErrorView::UnsupportedVocabulary { url, vocabulary } => "unsupported vocabulary "@
                + vocabulary + " in "@ + url,
            ErrorView::Bug(words) => "bug: "@ + words,
        }
    }
}

impl CompileError {
    /// The error in words, with the locations and names it holds.
    pub fn to_string(&self) -> (r: String)
        ensures
            r@ == self@.message(),
    {
        match self {
            CompileError::ParseUrlError { url } => {
                let mut out = String::new();
                out.append("invalid url ");
                out.append(url.as_str());
                out
            },
            CompileError::ParseIdError { loc } => {
                let mut out = String::new();
                out.append("invalid identifier at ");
                out.append(loc.as_str());
                out
            },
            CompileError::ParseAnchorError { loc } => {
                let mut out = String::new();
                out.append("invalid anchor at ");
                out.append(loc.as_str());
                out
            },
            CompileError::DuplicateId { url, id, ptr1, ptr2 } => {
                let mut out = String::new();
                out.append("duplicate identifier ");
                out.append(id.as_str());
                out.append(" in ");
                out.append(url.as_str());
                out.append(" at ");
                out.append(ptr1.as_str());
                out.append(" and ");
                out.append(ptr2.as_str());
                out
            },
            CompileError::DuplicateAnchor { url, anchor, ptr1, ptr2 } => {
                let mut out = String::new();
                out.append("duplicate anchor ");
                out.append(anchor.as_str());
                out.append(" in ");
                out.append(url.as_str());
                out.append(" at ");
                out.append(ptr1.as_str());
                out.append(" and ");
                out.append(ptr2.as_str());
                out
            },
            CompileError::DynamicAnchorNotSupported { loc } => {
                let mut out = String::new();
                out.append("dynamic anchor not supported at ");
                out.append(loc.as_str());
                out
            },
            CompileError::InvalidJsonPointer(loc) => {
                let mut out = String::new();
                out.append("invalid json pointer ");
                out.append(loc.as_str());
                out
            },
            CompileError::JsonPointerNotFound(loc) => {
                let mut out = String::new();
                out.append("json pointer not found ");
                out.append(loc.as_str());
                out
            },
            CompileError::AnchorNotFound { url, reference } => {
                let mut out = String::new();
                out.append("anchor not found in ");
                out.append(url.as_str());
                out.append(" for ");
                out.append(reference.as_str());
                out
            },
            CompileError::NotASchema { loc } => {
                let mut out = String::new();
                out.append("not a schema at ");
                out.append(loc.as_str());
                out
            },
            CompileError::UnsupportedDraft { url } => {
                let mut out = String::new();
                out.append("unsupported draft ");
                out.append(url.as_str());
                out
            },
            CompileError::UnsupportedUrlScheme { url } => {
                let mut out = String::new();
                out.append("no loader for the scheme of ");
                out.append(url.as_str());
                out
            },
            CompileError::LoadUrlError { url, src } => {
                let mut out = String::new();
                out.append("error loading ");
                out.append(url.as_str());
                out.append(": ");
                out.append(src.as_str());
                out
            },
            CompileError::ResourceExists { url } => {
                let mut out = String::new();
                out.append("another document is registered under ");
                out.append(url.as_str());
                out
            },
            CompileError::UnsupportedVocabulary { url, vocabulary } => {
                let mut out = String::new();
                out.append("unsupported vocabulary ");
                out.append(vocabulary.as_str());
                out.append(" in ");
                out.append(url.as_str());
                out
            },
            CompileError::Bug(words) => {
                let mut out = String::new();
                out.append("bug: ");
                out.append(words.as_str());
                out
            },
        }
    }
}

/// Hands out the document that stands at a URL.
pub trait UrlLoader {
    fn load(&self, url: &Url) -> Result<Json, String>;
}

/// The documents that schemas are compiled from, and how they are read.
pub struct Compiler<L: UrlLoader> {
    /// The registered documents' resources, one entry for each document.
    pub roots: Vec<Root>,
    /// The registered documents, in the order of `roots`.
    pub docs: Vec<Json>,
    /// The draft of a document that names none.
    pub default_draft: Draft,
    /// Whether formats are asserted.
    pub assert_format: bool,
    /// Whether content encodings and media types are asserted.
    pub assert_content: bool,
    /// The loader for each URL scheme.
    pub loaders: Vec<(String, L)>,
}

/// The scheme of a URL: what stands before its first `:`.
pub open spec fn scheme_of(url: Seq<char>) -> Seq<char> {
    url.take(first_index_from(url, ':', 0))
}

/// Position of the first root registered under `url`, or `roots.len()`.
pub open spec fn root_index(roots: Seq<Root>, url: Seq<char>) -> int
    decreases roots.len(),
{
    if roots.len() == 0 {
        0
    } else if roots[0].url@ == url {
        0
    } else {
        1 + root_index(roots.drop_first(), url)
    }
}

/// What `root_index` finds is the first root under `url`, if there is one.
pub proof fn lemma_root_index(roots: Seq<Root>, url: Seq<char>)
    ensures
        0 <= root_index(roots, url) <= roots.len(),
        root_index(roots, url) < roots.len() ==> roots[root_index(roots, url)].url@ == url,
        forall|i: int| 0 <= i < root_index(roots, url) ==> (#[trigger] roots[i]).url@ != url,
    decreases roots.len(),
{
    if roots.len() > 0 && roots[0].url@ != url {
        let rest = roots.drop_first();
        lemma_root_index(rest, url);
        assert forall|i: int| 0 <= i < root_index(roots, url) implies (#[trigger] roots[i]).url@
            != url by {
            if i > 0 {
                assert(rest[i - 1] == roots[i]);
            }
        }
    }
}

/// The first root is at `k` when it is registered under `url` and none
/// before it is.
pub proof fn lemma_root_index_at(roots: Seq<Root>, url: Seq<char>, k: int)
    requires
        0 <= k <= roots.len(),
        k < roots.len() ==> roots[k].url@ == url,
        forall|i: int| 0 <= i < k ==> (#[trigger] roots[i]).url@ != url,
    ensures
        root_index(roots, url) == k,
{
    lemma_root_index(roots, url);
    let m = root_index(roots, url);
    if m < k {
        assert(roots[m].url@ != url);
    }
}

/// `b` is for the document that `a` is for: it has the URL, the draft and
/// the vocabularies of `a`.
pub open spec fn same_document(a: Root, b: Root) -> bool {
    a.url@ == b.url@ && a.draft == b.draft && a.meta_vocabs == b.meta_vocabs
}

/// The URL that a document is registered under when it is registered as
/// `text`: the part of `text` before `#`, parsed.
pub open spec fn registration_url(text: Seq<char>) -> Result<Seq<char>, ErrorView> {
    if percent_decoded(split_ref(text).1) is None {
        Err(ErrorView::ParseUrlError { url: text })
    } else {
        match url_parsed(split_ref(text).0) {
            Some(u) => Ok(u),
            None => Err(ErrorView::ParseUrlError { url: split_ref(text).0 }),
        }
    }
}

impl<L: UrlLoader> Compiler<L> {
    /// Every document has its resources, these are well formed, and no
    /// two documents are registered under one URL.
    pub open spec fn wf(&self) -> bool {
        &&& self.roots@.len() == self.docs@.len()
        &&& forall|k: int| 0 <= k < self.roots@.len() ==> (#[trigger] self.roots@[k]).wf()
        &&& forall|i: int, j: int|
            0 <= i < j < self.roots@.len() ==> (#[trigger] self.roots@[i]).url@
                != (#[trigger] self.roots@[j]).url@
    }

    /// `after` holds every document of `self` at its place, under its URL
    /// and with its draft and vocabularies.
    pub open spec fn keeps_documents(&self, after: &Self) -> bool {
        &&& self.roots@.len() <= after.roots@.len()
        &&& forall|k: int|
            0 <= k < self.roots@.len() ==> same_document(self.roots@[k], #[trigger] after.roots@[k])
                && after.docs@[k] == self.docs@[k]
        &&& after.default_draft == self.default_draft
        &&& after.assert_format == self.assert_format
        &&& after.assert_content == self.assert_content
        &&& after.loaders == self.loaders
    }

    /// A compiler without documents and loaders, which takes a document
    /// that names no draft for one of the latest.
    pub fn new() -> (r: Self)
        ensures
            r.wf(),
            r.roots@.len() == 0,
            r.loaders@.len() == 0,
            r.default_draft == Draft::V2020_12,
            !r.assert_format,
            !r.assert_content,
    {
        Compiler {
            roots: Vec::new(),
            docs: Vec::new(),
            default_draft: Draft::V2020_12,
            assert_format: false,
            assert_content: false,
            loaders: Vec::new(),
        }
    }

    /// Sets the draft of documents that name none.
    pub fn set_default_draft(&mut self, draft: Draft)
        ensures
            final(self).default_draft == draft,
            final(self).roots == old(self).roots,
            final(self).docs == old(self).docs,
            final(self).assert_format == old(self).assert_format,
            final(self).assert_content == old(self).assert_content,
            final(self).loaders == old(self).loaders,
    {
        self.default_draft = draft;
    }

    /// Has formats asserted.
    pub fn enable_format_assertions(&mut self)
        ensures
            final(self).assert_format,
            final(self).roots == old(self).roots,
            final(self).docs == old(self).docs,
            final(self).default_draft == old(self).default_draft,
            final(self).assert_content == old(self).assert_content,
            final(self).loaders == old(self).loaders,
    {
        self.assert_format = true;
    }

    /// Has content encodings and media types asserted.
    pub fn enable_content_assertions(&mut self)
        ensures
            final(self).assert_content,
            final(self).roots == old(self).roots,
            final(self).docs == old(self).docs,
            final(self).default_draft == old(self).default_draft,
            final(self).assert_format == old(self).assert_format,
            final(self).loaders == old(self).loaders,
    {
        self.assert_content = true;
    }

    /// Registers the loader for the URLs of the scheme `scheme`. Of two
    /// loaders for one scheme the first is asked.
    pub fn register_url_loader(&mut self, scheme: &str, loader: L)
        ensures
            final(self).loaders@.len() == old(self).loaders@.len() + 1,
            final(self).loaders@[old(self).loaders@.len() as int].0@ == scheme@,
            final(self).loaders@[old(self).loaders@.len() as int].1 == loader,
            forall|i: int|
                0 <= i < old(self).loaders@.len() ==> final(self).loaders@[i] == old(
                    self,
                ).loaders@[i],
            final(self).roots == old(self).roots,
            final(self).docs == old(self).docs,
            final(self).default_draft == old(self).default_draft,
            final(self).assert_format == old(self).assert_format,
            final(self).assert_content == old(self).assert_content,
    {
        self.loaders.push((scheme.to_owned(), loader));
    }

    /// Finds the document registered under `url`.
    pub fn find_root(&self, url: &Url) -> (r: Option<usize>)
        ensures
            match r {
                Some(k) => k < self.roots@.len() && k == root_index(self.roots@, url@)
                    && self.roots@[k as int].url@ == url@,
                None => root_index(self.roots@, url@) == self.roots@.len(),
            },
    {
        let mut k: usize = 0;
        while k < self.roots.len()
            invariant
                k <= self.roots.len(),
                forall|i: int| 0 <= i < k ==> (#[trigger] self.roots@[i]).url@ != url@,
            decreases self.roots.len() - k,
        {
            if self.roots[k].url.same(url) {
                proof {
                    lemma_root_index_at(self.roots@, url@, k as int);
                }
                return Some(k);
            }
            k = k + 1;
        }
        proof {
            lemma_root_index_at(self.roots@, url@, k as int);
        }
        None
    }

    /// The draft of the document `doc` at `url`, and the vocabularies
    /// that it chooses. A `$schema` that names a draft decides, and the
    /// default where there is no `$schema`; any other `$schema` must be
    /// the URL of a registered document, whose draft and `$vocabulary` are
    /// then taken, and is an `UnsupportedDraft` where it is not.
    pub open spec fn meta_outcome(&self, url: Seq<char>, doc: Json) -> Result<
        (Draft, Option<Seq<Seq<char>>>),
        ErrorView,
    > {
        match Draft::of_document(doc, self.default_draft) {
            Some(draft) => Ok((draft, None)),
            None => {
                let named = doc.member("$schema"@)->0->String_0@;
                let k = root_index(self.roots@, registration_url(named)->Ok_0);
                if registration_url(named) is Ok && 0 <= k < self.roots@.len() {
                    match self.roots@[k].draft.vocabs_of(self.docs@[k]) {
                        Ok(names) => Ok((self.roots@[k].draft, names)),
                        Err(u) => Err(ErrorView::UnsupportedVocabulary { url, vocabulary: u }),
                    }
                } else {
                    Err(ErrorView::UnsupportedDraft { url: named })
                }
            },
        }
    }

    /// What registering the document `doc` under `url` ends in: the error
    /// of its draft or vocabularies, or the error that ends the walk
    /// through it; `None` where it is registered.
    pub open spec fn root_outcome(&self, url: Seq<char>, doc: Json) -> Option<ErrorView> {
        match self.meta_outcome(url, doc) {
            Err(e) => Some(e),
            Ok((draft, names)) => if Root::vocabulary_error(draft, url, names) is Some {
                Root::vocabulary_error(draft, url, names)
            } else {
                Root::initial(draft, doc, url).error
            },
        }
    }

    /// Finds the resources of the document `doc`, which stands at `url`.
    pub fn make_root(&self, url: Url, doc: &Json) -> (r: Result<Root, CompileError>)
        requires
            self.wf(),
        ensures
            match r {
                Ok(root) => {
                    &&& self.root_outcome(url@, *doc) is None
                    &&& root.wf()
                    &&& root.url@ == url@
                    &&& self.meta_outcome(url@, *doc) == Ok::<_, ErrorView>(
                        (root.draft, option_names(root.meta_vocabs)),
                    )
                    &&& root.rs() == Root::initial(root.draft, *doc, url@).resources
                },
                Err(e) => self.root_outcome(url@, *doc) == Some(e@),
            },
    {
        let named = match Draft::detect(doc, self.default_draft) {
            Ok(draft) => {
                return Root::new(draft, url, None, doc);
            },
            Err(named) => named,
        };
        let meta = match UrlFrag::absolute(named) {
            Ok(uf) => self.find_root(&uf.url),
            Err(_) => None,
        };
        match meta {
            Some(k) => {
                let draft = self.roots[k].draft;
                match draft.get_vocabs(&self.docs[k], &url) {
                    Ok(names) => Root::new(draft, url, names, doc),
                    Err(e) => Err(e),
                }
            },
            None => Err(CompileError::UnsupportedDraft { url: named.to_owned() }),
        }
    }

    /// Registers the document `doc` under the URL written as `url`, with
    /// the draft and the vocabularies that `meta_outcome` gives it and
    /// the resources that the walk from its root finds. A document that
    /// is registered under that URL already is left as it is: registering
    /// the same document again changes nothing, and registering another
    /// one is a `ResourceExists`.
    pub fn add_resource(&mut self, url: &str, doc: Json) -> (r: Result<(), CompileError>)
        requires
            old(self).wf(),
        ensures
            final(self).wf(),
            old(self).keeps_documents(final(self)),
            match registration_url(url@) {
                Err(e) => r matches Err(got) && got@ == e && final(self).roots@ == old(
                    self,
                ).roots@,
                Ok(u) => {
                    let k = root_index(old(self).roots@, u);
                    if k < old(self).roots@.len() {
                        &&& final(self).roots@ == old(self).roots@
                        &&& final(self).docs@ == old(self).docs@
                        &&& if same_json(old(self).docs@[k], doc) {
                            r is Ok
                        } else {
                            r matches Err(got) && got@ == (ErrorView::ResourceExists { url: u })
                        }
                    } else {
                        match r {
                            Ok(()) => {
                                &&& old(self).root_outcome(u, doc) is None
                                &&& final(self).roots@.len() == old(self).roots@.len() + 1
                                &&& final(self).roots@[k].url@ == u
                                &&& old(self).meta_outcome(u, doc) == Ok::<_, ErrorView>(
                                    (
                                        final(self).roots@[k].draft,
                                        option_names(final(self).roots@[k].meta_vocabs),
                                    ),
                                )
                                &&& final(self).roots@[k].rs() == Root::initial(
                                    final(self).roots@[k].draft,
                                    doc,
                                    u,
                                ).resources
                                &&& final(self).docs@ == old(self).docs@.push(doc)
                                &&& forall|i: int|
                                    0 <= i < k ==> final(self).roots@[i] == old(self).roots@[i]
                            },
                            Err(got) => {
                                &&& old(self).root_outcome(u, doc) == Some(
                                    got@,
                                )
                                &&& final(self).roots@ == old(self).roots@
                                &&& final(self).docs@ == old(self).docs@
                            },
                        }
                    }
                },
            },
    {
        let uf = match UrlFrag::absolute(url) {
            Ok(uf) => uf,
            Err(e) => {
                return Err(e);
            },
        };
        match self.find_root(&uf.url) {
            Some(k) => {
                if self.docs[k].same(&doc) {
                    Ok(())
                } else {
                    Err(CompileError::ResourceExists { url: uf.url.to_string() })
                }
            },
            None => {
                proof {
                    lemma_root_index(self.roots@, uf.url@);
                }
                let root = match self.make_root(uf.url, &doc) {
                    Ok(root) => root,
                    Err(e) => {
                        return Err(e);
                    },
                };
                self.roots.push(root);
                self.docs.push(doc);
                Ok(())
            },
        }
    }

    /// No loader is registered for the scheme of `url`.
    pub open spec fn no_loader(&self, url: Seq<char>) -> bool {
        forall|j: int|
            0 <= j < self.loaders@.len() ==> (#[trigger] self.loaders@[j]).0@ != scheme_of(url)
    }

    /// What holds of every error that a compilation ends in: it is no
    /// `Bug` and no `ResourceExists`; and an error of loading names a URL
    /// under which no document is registered, for whose scheme no loader
    /// is registered where it is `UnsupportedUrlScheme`, and one is where
    /// it is `LoadUrlError`.
    pub open spec fn plausible(&self, e: ErrorView) -> bool {
        match e {
            ErrorView::Bug(_) => false,
            ErrorView::ResourceExists { .. } => false,
            ErrorView::UnsupportedUrlScheme { url } => self.no_loader(url) && root_index(
                self.roots@,
                url,
            ) == self.roots@.len(),
            ErrorView::LoadUrlError { url, .. } => !self.no_loader(url) && root_index(
                self.roots@,
                url,
            ) == self.roots@.len(),
            _ => true,
        }
    }

    /// Registering a document ends only in an error of the document.
    pub proof fn lemma_root_outcome_kind(&self, url: Seq<char>, doc: Json)
        ensures
            only_document_error(self.root_outcome(url, doc)),
    {
        match self.meta_outcome(url, doc) {
            Err(_) => {},
            Ok((draft, names)) => {
                lemma_initial_kind(draft, doc, url);
            },
        }
    }

    /// Position of the first loader for `scheme`.
    pub fn find_loader(&self, scheme: &str) -> (r: Option<usize>)
        ensures
            match r {
                Some(i) => {
                    &&& i < self.loaders@.len()
                    &&& self.loaders@[i as int].0@ == scheme@
                    &&& forall|j: int| 0 <= j < i ==> (#[trigger] self.loaders@[j]).0@ != scheme@
                },
                None => forall|j: int|
                    0 <= j < self.loaders@.len() ==> (#[trigger] self.loaders@[j]).0@ != scheme@,
            },
    {
        let mut i: usize = 0;
        while i < self.loaders.len()
            invariant
                i <= self.loaders.len(),
                forall|j: int| 0 <= j < i ==> (#[trigger] self.loaders@[j]).0@ != scheme@,
            decreases self.loaders.len() - i,
        {
            if str_eq(self.loaders[i].0.as_str(), scheme) {
                return Some(i);
            }
            i = i + 1;
        }
        None
    }

    /// Takes in what a loader handed out for `url`: a document is
    /// registered under `url`, unless one is registered there already,
    /// which then stays; and a refusal is a `LoadUrlError` with the
    /// loader's words.
    pub fn accept_loaded(&mut self, url: &Url, loaded: Result<Json, String>) -> (r: Result<
        usize,
        CompileError,
    >)
        requires
            old(self).wf(),
        ensures
            final(self).wf(),
            old(self).keeps_documents(final(self)),
            match loaded {
                Err(words) => {
                    &&& r matches Err(e) && e@ == (ErrorView::LoadUrlError {
                        url: url@,
                        src: words@,
                    })
                    &&& final(self).roots@ == old(self).roots@
                    &&& final(self).docs@ == old(self).docs@
                },
                Ok(doc) => if root_index(old(self).roots@, url@) < old(self).roots@.len() {
                    &&& r == Ok::<usize, CompileError>(root_index(old(self).roots@, url@) as usize)
                    &&& final(self).roots@ == old(self).roots@
                    &&& final(self).docs@ == old(self).docs@
                } else {
                    match r {
                        Ok(k) => {
                            &&& old(self).root_outcome(url@, doc) is None
                            &&& k == old(self).roots@.len()
                            &&& final(self).roots@.len() == k + 1
                            &&& final(self).roots@[k as int].url@ == url@
                            &&& old(self).meta_outcome(url@, doc) == Ok::<_, ErrorView>(
                                (
                                    final(self).roots@[k as int].draft,
                                    option_names(final(self).roots@[k as int].meta_vocabs),
                                ),
                            )
                            &&& final(self).roots@[k as int].rs() == Root::initial(
                                final(self).roots@[k as int].draft,
                                doc,
                                url@,
                            ).resources
                            &&& final(self).docs@ == old(self).docs@.push(doc)
                            &&& forall|i: int|
                                0 <= i < k ==> final(self).roots@[i] == old(self).roots@[i]
                        },
                        Err(e) => {
                            &&& old(self).root_outcome(url@, doc) == Some(e@)
                            &&& final(self).roots@ == old(self).roots@
                            &&& final(self).docs@ == old(self).docs@
                        },
                    }
                },
            },
    {
        match loaded {
            Err(words) => Err(CompileError::LoadUrlError { url: url.to_string(), src: words }),
            Ok(doc) => {
                proof {
                    lemma_root_index(self.roots@, url@);
                }
                if let Some(k) = self.find_root(url) {
                    return Ok(k);
                }
                let root = match self.make_root(url.clone(), &doc) {
                    Ok(root) => root,
                    Err(e) => {
                        return Err(e);
                    },
                };
                let k = self.roots.len();
                self.roots.push(root);
                self.docs.push(doc);
                Ok(k)
            },
        }
    }

    /// Finds the document at `url`, and has it loaded where it is not
    /// registered. A registered document is found without any loader
    /// being asked; for another one the first loader for the URL's scheme
    /// is asked. `UnsupportedUrlScheme` says that there is none, and
    /// nothing else ends in that error. Whatever the error, no document
    /// is registered.
    pub fn load_root(&mut self, url: &Url) -> (r: Result<usize, CompileError>)
        requires
            old(self).wf(),
        ensures
            final(self).wf(),
            old(self).keeps_documents(final(self)),
            final(self).roots@.len() <= old(self).roots@.len() + 1,
            forall|i: int|
                0 <= i < old(self).roots@.len() ==> final(self).roots@[i] == old(self).roots@[i],
            r matches Ok(k) ==> k < final(self).roots@.len() && final(self).roots@[k as int].url@
                == url@,
            root_index(old(self).roots@, url@) < old(self).roots@.len() ==> r == Ok::<
                usize,
                CompileError,
            >(root_index(old(self).roots@, url@) as usize) && final(self).roots@ == old(
                self,
            ).roots@ && final(self).docs@ == old(self).docs@,
            root_index(old(self).roots@, url@) == old(self).roots@.len() && old(self).no_loader(url@)
                <==> (r matches Err(e) && e@ is UnsupportedUrlScheme),
            r matches Err(e) ==> {
                &&& final(self).roots@ == old(self).roots@
                &&& final(self).docs@ == old(self).docs@
                &&& final(self).plausible(e@)
                &&& e@ is UnsupportedUrlScheme ==> e@ == (ErrorView::UnsupportedUrlScheme {
                    url: url@,
                })
                &&& e@ is LoadUrlError ==> e@->LoadUrlError_url == url@
            },
    {
        if let Some(k) = self.find_root(url) {
            return Ok(k);
        }
        proof {
            lemma_root_index(self.roots@, url@);
        }
        let text = url.as_str();
        let colon = find_char(text, ':', 0);
        let scheme = text.substring_char(0, colon);
        proof {
            assert(scheme@ =~= scheme_of(url@));
        }
        let loaded = match self.find_loader(scheme) {
            Some(i) => self.loaders[i].1.load(url),
            None => {
                return Err(CompileError::UnsupportedUrlScheme { url: url.to_string() });
            },
        };
        proof {
            if loaded is Ok {
                self.lemma_root_outcome_kind(url@, loaded->Ok_0);
            }
        }
        self.accept_loaded(url, loaded)
    }
}

/// The schema at `place` of `list` stands at `ptr` of the document at
/// `url`.
pub open spec fn leads_to(list: Seq<Schema>, place: usize, url: Seq<char>, ptr: Seq<char>) -> bool {
    place < list.len() && list[place as int].loc.url@ == url && list[place as int].loc.ptr@ == ptr
}

/// The schemas at `places` stand at `ptrs`, one for one.
pub open spec fn list_leads_to(
    list: Seq<Schema>,
    places: Seq<usize>,
    url: Seq<char>,
    ptrs: Seq<Seq<char>>,
) -> bool {
    places.len() == ptrs.len() && forall|j: int|
        0 <= j < places.len() ==> leads_to(list, #[trigger] places[j], url, ptrs[j])
}

/// The schemas that `places` names stand where `entries` says, under the
/// same names, one for one.
pub open spec fn entries_lead_to(
    list: Seq<Schema>,
    places: Seq<(String, usize)>,
    url: Seq<char>,
    entries: Seq<(Seq<char>, Seq<char>)>,
) -> bool {
    places.len() == entries.len() && forall|j: int|
        0 <= j < places.len() ==> (#[trigger] places[j]).0@ == entries[j].0 && leads_to(
            list,
            places[j].1,
            url,
            entries[j].1,
        )
}

/// The schema at `place` stands at `ptr`, where there is a `ptr`, and
/// there is no `place` where there is none.
pub open spec fn option_leads_to(
    list: Seq<Schema>,
    place: Option<usize>,
    url: Seq<char>,
    ptr: Option<Seq<char>>,
) -> bool {
    match (place, ptr) {
        (Some(i), Some(p)) => leads_to(list, i, url, p),
        (None, None) => true,
        _ => false,
    }
}

/// A schema of `list` stands at `ptr` of the document at `url`.
pub open spec fn is_compiled(list: Seq<Schema>, url: Seq<char>, ptr: Seq<char>) -> bool {
    loc_index(list, url, ptr) < list.len()
}

/// A schema of `list` stands at each of `ptrs`.
pub open spec fn all_compiled(list: Seq<Schema>, url: Seq<char>, ptrs: Seq<Seq<char>>) -> bool {
    forall|j: int| 0 <= j < ptrs.len() ==> is_compiled(list, url, #[trigger] ptrs[j])
}

/// A schema of `list` stands at each place that `entries` names.
pub open spec fn entries_compiled(
    list: Seq<Schema>,
    url: Seq<char>,
    entries: Seq<(Seq<char>, Seq<char>)>,
) -> bool {
    forall|j: int| 0 <= j < entries.len() ==> is_compiled(list, url, (#[trigger] entries[j]).1)
}

/// A schema of `list` stands at `ptr`, where there is a `ptr`.
pub open spec fn option_compiled(list: Seq<Schema>, url: Seq<char>, ptr: Option<Seq<char>>) -> bool {
    ptr matches Some(p) ==> is_compiled(list, url, p)
}

/// `places` are the places of the first schemas of `list` that stand at
/// `ptrs`, one for one.
pub open spec fn found_list(
    list: Seq<Schema>,
    url: Seq<char>,
    places: Seq<usize>,
    ptrs: Seq<Seq<char>>,
) -> bool {
    places.len() == ptrs.len() && forall|j: int|
        0 <= j < places.len() ==> (#[trigger] places[j]) == loc_index(list, url, ptrs[j])
}

/// `places` names the places of the first schemas of `list` that stand
/// where `entries` says, under the same names, one for one.
pub open spec fn found_entries(
    list: Seq<Schema>,
    url: Seq<char>,
    places: Seq<(String, usize)>,
    entries: Seq<(Seq<char>, Seq<char>)>,
) -> bool {
    places.len() == entries.len() && forall|j: int|
        0 <= j < places.len() ==> (#[trigger] places[j]).0@ == entries[j].0 && places[j].1
            == loc_index(list, url, entries[j].1)
}

/// `place` is the place of the first schema of `list` that stands at
/// `ptr`, where there is a `ptr`, and there is no `place` where there is
/// none.
pub open spec fn found_option(
    list: Seq<Schema>,
    url: Seq<char>,
    place: Option<usize>,
    ptr: Option<Seq<char>>,
) -> bool {
    match (place, ptr) {
        (Some(i), Some(p)) => i == loc_index(list, url, p),
        (None, None) => true,
        _ => false,
    }
}

/// The location is one of `good`, or a schema of `list` stands there.
pub open spec fn within(
    list: Seq<Schema>,
    good: Set<(Seq<char>, Seq<char>)>,
    url: Seq<char>,
    ptr: Seq<char>,
) -> bool {
    good.contains((url, ptr)) || is_compiled(list, url, ptr)
}

/// Each of `ptrs` is within `good` or `list`.
pub open spec fn all_within(
    list: Seq<Schema>,
    good: Set<(Seq<char>, Seq<char>)>,
    url: Seq<char>,
    ptrs: Seq<Seq<char>>,
) -> bool {
    forall|j: int| 0 <= j < ptrs.len() ==> within(list, good, url, #[trigger] ptrs[j])
}

/// Each place that `entries` names is within `good` or `list`.
pub open spec fn entries_within(
    list: Seq<Schema>,
    good: Set<(Seq<char>, Seq<char>)>,
    url: Seq<char>,
    entries: Seq<(Seq<char>, Seq<char>)>,
) -> bool {
    forall|j: int| 0 <= j < entries.len() ==> within(list, good, url, (#[trigger] entries[j]).1)
}

/// `ptr` is within `good` or `list`, where there is a `ptr`.
pub open spec fn option_within(
    list: Seq<Schema>,
    good: Set<(Seq<char>, Seq<char>)>,
    url: Seq<char>,
    ptr: Option<Seq<char>>,
) -> bool {
    ptr matches Some(p) ==> within(list, good, url, p)
}

/// Every place that the outline `o` names for a subschema is within
/// `good` or `list`.
pub open spec fn outline_within(
    list: Seq<Schema>,
    good: Set<(Seq<char>, Seq<char>)>,
    url: Seq<char>,
    o: OutlineView,
) -> bool {
    &&& entries_within(list, good, url, o.properties)
    &&& all_within(list, good, url, o.prefix_items)
    &&& option_within(list, good, url, o.items)
    &&& all_within(list, good, url, o.all_of)
    &&& all_within(list, good, url, o.any_of)
    &&& all_within(list, good, url, o.one_of)
    &&& option_within(list, good, url, o.not)
}

/// Roots under the same URLs, one for one, are found at the same place.
pub proof fn lemma_root_index_same(a: Seq<Root>, b: Seq<Root>, url: Seq<char>)
    requires
        a.len() == b.len(),
        forall|j: int| 0 <= j < a.len() ==> (#[trigger] b[j]).url@ == a[j].url@,
    ensures
        root_index(b, url) == root_index(a, url),
{
    lemma_root_index(a, url);
    let k = root_index(a, url);
    assert forall|i: int| 0 <= i < k implies (#[trigger] b[i]).url@ != url by {
        assert(a[i].url@ != url);
    }
    if k < a.len() {
        assert(b[k].url@ == a[k].url@);
    }
    lemma_root_index_at(b, url, k);
}

/// A schema of `list` stands at every place that the outline `o` names
/// for a subschema.
pub open spec fn outline_compiled(list: Seq<Schema>, url: Seq<char>, o: OutlineView) -> bool {
    &&& entries_compiled(list, url, o.properties)
    &&& all_compiled(list, url, o.prefix_items)
    &&& option_compiled(list, url, o.items)
    &&& all_compiled(list, url, o.all_of)
    &&& all_compiled(list, url, o.any_of)
    &&& all_compiled(list, url, o.one_of)
    &&& option_compiled(list, url, o.not)
}

/// `links` holds, for every subschema that the outline `o` names, the
/// place of the first schema of `list` that stands there.
pub open spec fn found_links(list: Seq<Schema>, url: Seq<char>, links: Links, o: OutlineView) -> bool {
    &&& found_entries(list, url, links.properties@, o.properties)
    &&& found_list(list, url, links.prefix_items@, o.prefix_items)
    &&& found_option(list, url, links.items, o.items)
    &&& found_list(list, url, links.all_of@, o.all_of)
    &&& found_list(list, url, links.any_of@, o.any_of)
    &&& found_list(list, url, links.one_of@, o.one_of)
    &&& found_option(list, url, links.not, o.not)
}

/// `link` is the link to the place and with the dynamic anchor that
/// `want` holds, or there is neither.
pub open spec fn link_is(link: Option<Link>, want: Option<(int, Option<Seq<char>>)>) -> bool {
    match (link, want) {
        (Some(l), Some(w)) => l.place == w.0 && crate::outline::option_text(l.dynamic) == w.1,
        (None, None) => true,
        _ => false,
    }
}

/// The schema `node` is what the outline `o` asks for: it states the
/// same assertions, it has a reference where `o` has one, and each of its
/// subschemas is the schema of `list` that stands where `o` says.
pub open spec fn follows(node: Schema, o: OutlineView, list: Seq<Schema>) -> bool {
    &&& node.boolean == o.boolean
    &&& node.ref_ is Some <==> o.ref_ is Some
    &&& node.dynamic_ref is Some <==> o.dynamic_ref is Some
    &&& node.types@ == o.types
    &&& text_views(node.required@) == o.required
    &&& entries_lead_to(list, node.properties@, node.loc.url@, o.properties)
    &&& list_leads_to(list, node.prefix_items@, node.loc.url@, o.prefix_items)
    &&& option_leads_to(list, node.items, node.loc.url@, o.items)
    &&& list_leads_to(list, node.all_of@, node.loc.url@, o.all_of)
    &&& list_leads_to(list, node.any_of@, node.loc.url@, o.any_of)
    &&& list_leads_to(list, node.one_of@, node.loc.url@, o.one_of)
    &&& option_leads_to(list, node.not, node.loc.url@, o.not)
}

/// A schema that follows an outline follows it among schemas that stand
/// at the same locations, with more behind them.
pub proof fn lemma_follows_kept(node: Schema, o: OutlineView, a: Seq<Schema>, b: Seq<Schema>)
    requires
        follows(node, o, a),
        a.len() <= b.len(),
        forall|i: int|
            0 <= i < a.len() ==> (#[trigger] b[i]).loc.url@ == a[i].loc.url@ && b[i].loc.ptr@
                == a[i].loc.ptr@,
    ensures
        follows(node, o, b),
{
    let url = node.loc.url@;
    assert forall|place: usize, ptr: Seq<char>| leads_to(a, place, url, ptr) implies leads_to(
        b,
        place,
        url,
        ptr,
    ) by {
        assert(b[place as int].loc.url@ == a[place as int].loc.url@);
    }
}

impl Root {
    /// What the schema at `ptr` of this document `doc` asks for.
    pub open spec fn outline_at(&self, doc: Json, ptr: Seq<char>) -> OutlineView {
        self.draft.outline_of(
            self.has_vocab_spec("applicator"@),
            self.has_vocab_spec("validation"@),
            lookup_spec(doc, ptr)->Found_0,
            ptr,
        )
    }
}

/// The URL and the fragment that the reference `reference` stands for
/// where `base` is in force: a reference that is only a fragment keeps
/// `base`, any other is resolved against it.
pub open spec fn reference_parts(base: Seq<char>, reference: Seq<char>) -> Result<
    (Seq<char>, FragmentView),
    ErrorView,
> {
    match percent_decoded(split_ref(reference).1) {
        None => Err(ErrorView::ParseUrlError { url: reference }),
        Some(text) => if split_ref(reference).0.len() == 0 {
            Ok((base, fragment_of(text)))
        } else {
            match url_joined(base, split_ref(reference).0) {
                Some(u) => Ok((u, fragment_of(text))),
                None => Err(ErrorView::ParseUrlError { url: split_ref(reference).0 }),
            }
        },
    }
}

/// The dynamic anchor that a reference with the fragment `frag` names
/// where it leads into the resource `res`: the fragment's name, if `res`
/// declares it as a dynamic anchor.
pub open spec fn dynamic_name(
    frag: FragmentView,
    res: crate::root::ResourceView,
) -> Option<Seq<char>> {
    match frag {
        FragmentView::Anchor(name) => if res.dynamic_anchors.contains(name) {
            Some(name)
        } else {
            None
        },
        FragmentView::JsonPointer(_) => None,
    }
}

/// What a reference leads to: a location, and the dynamic anchor that
/// it names there.
pub struct Target {
    pub loc: UrlPtr,
    pub dynamic: Option<String>,
}

/// Where a reference leads, seen from the document it is made in.
pub enum Resolved {
    /// To a location of the document.
    Inside(Target),
    /// Out of the document, to the URL and the fragment given.
    Outside(UrlFrag),
}

impl Root {
    /// Where the reference `reference`, made at `ptr`, leads inside this
    /// document: `Ok(None)` where it leads out of it.
    pub open spec fn reference_target(&self, ptr: Seq<char>, reference: Seq<char>) -> Result<
        Option<(Seq<char>, Seq<char>, Option<Seq<char>>)>,
        ErrorView,
    > {
        let rs = self.rs();
        match reference_parts(rs[nearest(rs, ptr)].id, reference) {
            Err(e) => Err(e),
            Ok((u, frag)) => match self.target_index(u) {
                None => Ok(None),
                Some(t) => match resolve_in(self.url@, frag, rs[t]) {
                    Err(e) => Err(e),
                    Ok((url, p)) => Ok(
                        Some((url, p, dynamic_name(frag, rs[nearest(rs, p)]))),
                    ),
                },
            },
        }
    }

    /// The dynamic anchor that a reference with the fragment `frag`
    /// names where it leads to `ptr` of this document.
    pub fn dynamic_at(&self, frag: &Fragment, ptr: &JsonPointer) -> (r: Option<String>)
        requires
            self.wf(),
        ensures
            crate::outline::option_text(r) == dynamic_name(
                frag@,
                self.rs()[nearest(self.rs(), ptr@)],
            ),
    {
        match frag {
            Fragment::Anchor(name) => {
                let res = self.resource(ptr);
                match find_name(&res.dynamic_anchors, name.as_str()) {
                    Some(i) => {
                        proof {
                            assert(res.dynamic_anchors@[i as int]@ == name@);
                        }
                        Some(name.as_str().to_owned())
                    },
                    None => None,
                }
            },
            Fragment::JsonPointer(_) => None,
        }
    }

    /// Where the reference `reference`, made at `ptr`, leads inside this
    /// document.
    pub fn resolve_reference(&self, ptr: &JsonPointer, reference: &str) -> (r: Result<
        Resolved,
        CompileError,
    >)
        requires
            self.wf(),
        ensures
            match r {
                Err(e) => self.reference_target(ptr@, reference@) == Err::<
                    Option<(Seq<char>, Seq<char>, Option<Seq<char>>)>,
                    ErrorView,
                >(e@),
                Ok(Resolved::Outside(uf)) => {
                    &&& self.reference_target(ptr@, reference@) == Ok::<
                        Option<(Seq<char>, Seq<char>, Option<Seq<char>>)>,
                        ErrorView,
                    >(None)
                    &&& reference_parts(
                        self.rs()[nearest(self.rs(), ptr@)].id,
                        reference@,
                    ) == Ok::<_, ErrorView>((uf.url@, uf.frag@))
                    &&& uf.frag.wf()
                },
                Ok(Resolved::Inside(target)) => {
                    &&& self.reference_target(ptr@, reference@) == Ok::<
                        Option<(Seq<char>, Seq<char>, Option<Seq<char>>)>,
                        ErrorView,
                    >(
                        Some(
                            (
                                target.loc.url@,
                                target.loc.ptr@,
                                crate::outline::option_text(target.dynamic),
                            ),
                        ),
                    )
                    &&& target.loc.url@ == self.url@
                    &&& target.loc.ptr.wf()
                },
            },
    {
        let uf = match UrlFrag::join(self.base_url(ptr), reference) {
            Ok(uf) => uf,
            Err(e) => {
                return Err(e);
            },
        };
        match self.resolve(&uf) {
            Err(e) => Err(e),
            Ok(None) => Ok(Resolved::Outside(uf)),
            Ok(Some(loc)) => {
                let dynamic = self.dynamic_at(&uf.frag, &loc.ptr);
                Ok(Resolved::Inside(Target { loc, dynamic }))
            },
        }
    }
}

impl<L: UrlLoader> Compiler<L> {
    /// What every step of compilation keeps: the compiler and the schemas
    /// stay well formed, and every document and every schema stays at its
    /// place.
    pub open spec fn advanced(
        before: &Self,
        after: &Self,
        schemas: Schemas,
        grown: Schemas,
    ) -> bool {
        &&& after.wf()
        &&& before.keeps_documents(after)
        &&& grown.wf()
        &&& schemas.grows_to(grown)
        &&& before.faithful(schemas) ==> after.faithful(grown)
    }

    /// Documents that are kept twice are kept.
    pub proof fn lemma_keeps_documents_trans(a: &Self, b: &Self, c: &Self)
        requires
            a.keeps_documents(b),
            b.keeps_documents(c),
        ensures
            a.keeps_documents(c),
    {
        assert forall|k: int| 0 <= k < a.roots@.len() implies same_document(
            a.roots@[k],
            #[trigger] c.roots@[k],
        ) && c.docs@[k] == a.docs@[k] by {
            assert(same_document(a.roots@[k], b.roots@[k]));
            assert(same_document(b.roots@[k], c.roots@[k]));
        }
    }

    /// Two steps of compilation are one.
    pub proof fn lemma_advanced_trans(
        a: &Self,
        b: &Self,
        c: &Self,
        s: Schemas,
        t: Schemas,
        u: Schemas,
    )
        requires
            Self::advanced(a, b, s, t),
            Self::advanced(b, c, t, u),
        ensures
            Self::advanced(a, c, s, u),
    {
        s.lemma_grows_trans(t, u);
        Self::lemma_keeps_documents_trans(a, b, c);
    }

    /// The schema `node` is what its document asks for at its location:
    /// there is a document at its URL in which its location holds a
    /// value, and `node` follows the outline of that value.
    pub open spec fn compiled_from_document(&self, node: Schema, list: Seq<Schema>) -> bool {
        exists|k: int|
            0 <= k < self.roots@.len() && (#[trigger] self.roots@[k]).url@ == node.loc.url@
                && lookup_spec(self.docs@[k], node.loc.ptr@) is Found && follows(
                node,
                self.roots@[k].outline_at(self.docs@[k], node.loc.ptr@),
                list,
            )
    }

    /// Every compiled schema is what its document asks for at its
    /// location.
    pub open spec fn faithful(&self, schemas: Schemas) -> bool {
        forall|i: int|
            0 <= i < schemas.list@.len() && (#[trigger] schemas.list@[i]).compiled
                ==> self.compiled_from_document(schemas.list@[i], schemas.list@)
    }

    /// Schemas stay faithful when more documents are registered and more
    /// schemas are added behind them.
    pub proof fn lemma_faithful_kept(a: &Self, b: &Self, s: Schemas, t: Schemas)
        requires
            a.faithful(s),
            a.keeps_documents(b),
            s.list@.len() <= t.list@.len(),
            forall|i: int| 0 <= i < s.list@.len() ==> #[trigger] t.list@[i] == s.list@[i],
        ensures
            forall|i: int|
                0 <= i < s.list@.len() && (#[trigger] t.list@[i]).compiled
                    ==> b.compiled_from_document(t.list@[i], t.list@),
    {
        assert forall|i: int|
            0 <= i < s.list@.len() && (#[trigger] t.list@[i]).compiled implies b.compiled_from_document(
            t.list@[i],
            t.list@,
        ) by {
            let node = s.list@[i];
            assert(t.list@[i] == node);
            assert(a.compiled_from_document(node, s.list@));
            let k = choose|k: int|
                0 <= k < a.roots@.len() && (#[trigger] a.roots@[k]).url@ == node.loc.url@
                    && lookup_spec(a.docs@[k], node.loc.ptr@) is Found && follows(
                    node,
                    a.roots@[k].outline_at(a.docs@[k], node.loc.ptr@),
                    s.list@,
                );
            assert(same_document(a.roots@[k], b.roots@[k]));
            lemma_follows_kept(
                node,
                a.roots@[k].outline_at(a.docs@[k], node.loc.ptr@),
                s.list@,
                t.list@,
            );
            assert(b.roots@[k].url@ == node.loc.url@);
        }
    }

    /// Where the reference `reference`, made at `ptr` of the `k`-th
    /// document, leads, as far as no loader is asked: a location with the
    /// dynamic anchor named there, or the error of the resolution. A
    /// reference that leads out of the document leads to the root of the
    /// document registered under its URL, resolved there; `None` says that
    /// no document is registered under that URL, so that a loader is
    /// asked.
    pub open spec fn reference_outcome(&self, k: int, ptr: Seq<char>, reference: Seq<char>) -> Option<
        Result<(Seq<char>, Seq<char>, Option<Seq<char>>), ErrorView>,
    > {
        let from = self.roots@[k];
        match from.reference_target(ptr, reference) {
            Err(e) => Some(Err(e)),
            Ok(Some(t)) => Some(Ok(t)),
            Ok(None) => {
                let parts = reference_parts(
                    from.rs()[nearest(from.rs(), ptr)].id,
                    reference,
                )->Ok_0;
                let j = root_index(self.roots@, parts.0);
                if 0 <= j < self.roots@.len() {
                    let rs = self.roots@[j].rs();
                    match resolve_in(self.roots@[j].url@, parts.1, rs[ptr_index(rs, Seq::empty())]) {
                        Err(e) => Some(Err(e)),
                        Ok((url, p)) => Some(Ok((url, p, dynamic_name(parts.1, rs[nearest(rs, p)])))),
                    }
                } else {
                    None
                }
            },
        }
    }

    /// Where the reference `reference`, made at `ptr` of the `k`-th
    /// document, leads. A reference that leads out of the document leads
    /// into the document at its URL, which is loaded where it is not
    /// registered. Where no loader is asked, the result is what
    /// `reference_outcome` says, and nothing changes. Where one is asked,
    /// `UnsupportedUrlScheme` says that the URL has none, and nothing
    /// else ends in that error for that URL.
    #[verifier::rlimit(50)]
    pub fn resolve_ref(&mut self, k: usize, ptr: &JsonPointer, reference: &str) -> (r: Result<
        Target,
        CompileError,
    >)
        requires
            old(self).wf(),
            k < old(self).roots@.len(),
        ensures
            final(self).wf(),
            old(self).keeps_documents(final(self)),
            r matches Ok(target) ==> target.loc.ptr.wf(),
            match old(self).reference_outcome(k as int, ptr@, reference@) {
                Some(Err(e)) => {
                    &&& r matches Err(got) && got@ == e
                    &&& final(self).roots@ == old(self).roots@
                    &&& final(self).docs@ == old(self).docs@
                },
                Some(Ok(t)) => {
                    &&& r matches Ok(target) && t == (
                        target.loc.url@,
                        target.loc.ptr@,
                        crate::outline::option_text(target.dynamic),
                    )
                    &&& final(self).roots@ == old(self).roots@
                    &&& final(self).docs@ == old(self).docs@
                },
                None => {
                    let u = reference_parts(
                        old(self).roots@[k as int].rs()[nearest(
                            old(self).roots@[k as int].rs(),
                            ptr@,
                        )].id,
                        reference@,
                    )->Ok_0.0;
                    &&& r matches Ok(target) ==> target.loc.url@ == u
                    &&& old(self).no_loader(u) <==> (r matches Err(e) && e@
                        == (ErrorView::UnsupportedUrlScheme { url: u }))
                    &&& old(self).no_loader(u) ==> final(self).roots@ == old(self).roots@
                        && final(self).docs@ == old(self).docs@
                },
            },
            r matches Err(e) ==> final(self).plausible(e@),
    {
        let uf = match self.roots[k].resolve_reference(ptr, reference) {
            Err(e) => {
                return Err(e);
            },
            Ok(Resolved::Inside(target)) => {
                return Ok(target);
            },
            Ok(Resolved::Outside(uf)) => uf,
        };
        proof {
            lemma_root_index(self.roots@, uf.url@);
        }
        let other = match self.load_root(&uf.url) {
            Ok(other) => other,
            Err(e) => {
                return Err(e);
            },
        };
        let loc = match self.roots[other].resolve_fragment(&uf.frag) {
            Ok(loc) => loc,
            Err(e) => {
                return Err(e);
            },
        };
        let dynamic = self.roots[other].dynamic_at(&uf.frag, &loc.ptr);
        Ok(Target { loc, dynamic })
    }

    /// The dynamic anchors of the resource that begins at `ptr` of the
    /// `k`-th document, each with the place it leads to, and none left
    /// out; nothing where no resource begins at `ptr`.
    pub fn dynamic_anchors_at(&self, k: usize, ptr: &JsonPointer) -> (r: Vec<(String, JsonPointer)>)
        requires
            self.wf(),
            k < self.roots@.len(),
        ensures
            forall|j: int| 0 <= j < r@.len() ==> (#[trigger] r@[j]).1.wf(),
            forall|j: int|
                0 <= j < r@.len() ==> {
                    let res = self.roots@[k as int].rs()[nearest(self.roots@[k as int].rs(), ptr@)];
                    &&& res.ptr == ptr@
                    &&& res.dynamic_anchors.contains((#[trigger] r@[j]).0@)
                    &&& res.anchors.contains_key(r@[j].0@)
                    &&& res.anchors[r@[j].0@] == r@[j].1@
                },
            ({
                let res = self.roots@[k as int].rs()[nearest(self.roots@[k as int].rs(), ptr@)];
                if res.ptr == ptr@ {
                    forall|name: Seq<char>|
                        res.dynamic_anchors.contains(name) && res.anchors.contains_key(name)
                            ==> exists|j: int| 0 <= j < r@.len() && (#[trigger] r@[j]).0@ == name
                } else {
                    r@.len() == 0
                }
            }),
    {
        let mut out: Vec<(String, JsonPointer)> = Vec::new();
        let res = self.roots[k].resource(ptr);
        proof {
            let rs = self.roots@[k as int].rs();
            assert(rs[nearest(rs, ptr@)] == res@);
        }
        if !res.ptr.same(ptr) {
            return out;
        }
        proof {
            let rs = self.roots@[k as int].rs();
            assert(rs[nearest(rs, ptr@)] == res@);
            assert(anchors_lead_to_pointers(rs[nearest(rs, ptr@)]));
        }
        let mut i: usize = 0;
        while i < res.dynamic_anchors.len()
            invariant
                i <= res.dynamic_anchors.len(),
                self.wf(),
                k < self.roots@.len(),
                *res == self.roots@[k as int].resources@[nearest(self.roots@[k as int].rs(), ptr@)],
                0 <= nearest(self.roots@[k as int].rs(), ptr@) < self.roots@[k as int].resources@.len(),
                res.ptr@ == ptr@,
                anchors_lead_to_pointers(res@),
                forall|j: int| 0 <= j < out@.len() ==> (#[trigger] out@[j]).1.wf(),
                forall|j: int|
                    0 <= j < out@.len() ==> {
                        &&& res@.dynamic_anchors.contains((#[trigger] out@[j]).0@)
                        &&& res@.anchors.contains_key(out@[j].0@)
                        &&& res@.anchors[out@[j].0@] == out@[j].1@
                    },
                forall|h: int|
                    0 <= h < i && res@.anchors.contains_key((#[trigger] res.dynamic_anchors@[h])@)
                        ==> exists|j: int|
                        0 <= j < out@.len() && (#[trigger] out@[j]).0@ == res.dynamic_anchors@[h]@,
            decreases res.dynamic_anchors.len() - i,
        {
            let name = &res.dynamic_anchors[i];
            let ghost before = out@;
            if let Some(target) = res.anchors.get(name.as_str()) {
                proof {
                    assert(res@.anchors.contains_key(name@));
                    assert(res@.anchors[name@] == target@);
                    assert(names_set(res.dynamic_anchors@).contains(name@));
                }
                out.push((name.clone(), target.clone()));
            }
            proof {
                assert forall|h: int|
                    0 <= h < i + 1 && res@.anchors.contains_key(
                        (#[trigger] res.dynamic_anchors@[h])@,
                    ) implies exists|j: int|
                    0 <= j < out@.len() && (#[trigger] out@[j]).0@ == res.dynamic_anchors@[h]@ by {
                    if h < i {
                        let j = choose|j: int|
                            0 <= j < before.len() && (#[trigger] before[j]).0@
                                == res.dynamic_anchors@[h]@;
                        assert(out@[j] == before[j]);
                    } else {
                        assert(out@[out@.len() - 1].0@ == name@);
                    }
                }
            }
            i = i + 1;
        }
        proof {
            assert forall|name: Seq<char>|
                res@.dynamic_anchors.contains(name) && res@.anchors.contains_key(
                    name,
                ) implies exists|j: int| 0 <= j < out@.len() && (#[trigger] out@[j]).0@ == name by {
                let h = choose|h: int|
                    0 <= h < res.dynamic_anchors@.len() && (#[trigger] res.dynamic_anchors@[h])@
                        == name;
                assert(res@.anchors.contains_key(res.dynamic_anchors@[h]@));
            }
        }
        out
    }

    /// The reference `reference`, made at `ptr` of the `k`-th document,
    /// leads without any loader to a place at which a schema of `list`
    /// stands; so does no reference at all.
    pub open spec fn reference_ready(
        &self,
        list: Seq<Schema>,
        k: int,
        ptr: Seq<char>,
        reference: Option<Seq<char>>,
    ) -> bool {
        reference matches Some(text) ==> (self.reference_outcome(k, ptr, text) matches Some(Ok(t))
            && is_compiled(list, t.0, t.1))
    }

    /// The reference `reference`, made at `ptr` of the `k`-th document,
    /// fails to resolve, without any loader, with the error `e`.
    pub open spec fn reference_fails(
        &self,
        k: int,
        ptr: Seq<char>,
        reference: Option<Seq<char>>,
        e: ErrorView,
    ) -> bool {
        reference matches Some(text) && self.reference_outcome(k, ptr, text) == Some(
            Err::<(Seq<char>, Seq<char>, Option<Seq<char>>), ErrorView>(e),
        )
    }

    /// The place of the first schema of `list` that the reference
    /// `reference` leads to, and the dynamic anchor it names there.
    pub open spec fn reference_link(
        &self,
        list: Seq<Schema>,
        k: int,
        ptr: Seq<char>,
        reference: Option<Seq<char>>,
    ) -> Option<(int, Option<Seq<char>>)> {
        match reference {
            Some(text) => {
                let t = self.reference_outcome(k, ptr, text)->0->Ok_0;
                Some((loc_index(list, t.0, t.1), t.2))
            },
            None => None,
        }
    }

    /// The resource of the schema at `ptr` and its dynamic anchors are
    /// compiled: the resource begins at `ptr` itself or a schema of `list`
    /// stands where it begins, and one stands where each of `dynamic`
    /// leads.
    pub open spec fn resource_ready(
        list: Seq<Schema>,
        url: Seq<char>,
        ptr: Seq<char>,
        first: Seq<char>,
        dynamic: Seq<(Seq<char>, Seq<char>)>,
    ) -> bool {
        (first == ptr || is_compiled(list, url, first)) && entries_compiled(list, url, dynamic)
    }

    /// All that the schema at `ptr` of the `k`-th document refers to is
    /// compiled: its resource, its dynamic anchors, what its references
    /// lead to, and its subschemas.
    pub open spec fn ready(
        &self,
        list: Seq<Schema>,
        k: int,
        url: Seq<char>,
        ptr: Seq<char>,
        o: OutlineView,
        first: Seq<char>,
        dynamic: Seq<(Seq<char>, Seq<char>)>,
    ) -> bool {
        &&& Self::resource_ready(list, url, ptr, first, dynamic)
        &&& self.reference_ready(list, k, ptr, o.ref_)
        &&& self.reference_ready(list, k, ptr, o.dynamic_ref)
        &&& outline_compiled(list, url, o)
    }

    /// `node` is the schema for the place `idx` whose every link is the
    /// place of the first schema of `list` that stands where the link
    /// leads.
    pub open spec fn linked(
        &self,
        node: Schema,
        list: Seq<Schema>,
        k: int,
        idx: usize,
        o: OutlineView,
        first: Seq<char>,
        dynamic: Seq<(Seq<char>, Seq<char>)>,
    ) -> bool {
        let url = node.loc.url@;
        let ptr = node.loc.ptr@;
        &&& node.resource == (if first == ptr {
            idx as int
        } else {
            loc_index(list, url, first)
        })
        &&& found_entries(list, url, node.dynamic_anchors@, dynamic)
        &&& match (node.ref_, self.reference_link(list, k, ptr, o.ref_)) {
            (Some(place), Some(link)) => place == link.0,
            (None, None) => true,
            _ => false,
        }
        &&& match (node.dynamic_ref, self.reference_link(list, k, ptr, o.dynamic_ref)) {
            (Some(dr), Some(link)) => dr.target == link.0 && crate::outline::option_text(dr.anchor)
                == link.1,
            (None, None) => true,
            _ => false,
        }
        &&& found_entries(list, url, node.properties@, o.properties)
        &&& found_list(list, url, node.prefix_items@, o.prefix_items)
        &&& found_option(list, url, node.items, o.items)
        &&& found_list(list, url, node.all_of@, o.all_of)
        &&& found_list(list, url, node.any_of@, o.any_of)
        &&& found_list(list, url, node.one_of@, o.one_of)
        &&& found_option(list, url, node.not, o.not)
    }

    /// `dynamic` lists the dynamic anchors of the resource that begins at
    /// `ptr` of the `k`-th document, each with the place it leads to, and
    /// nothing where no resource begins at `ptr`.
    pub open spec fn anchors_listed(
        &self,
        k: int,
        ptr: Seq<char>,
        dynamic: Seq<(Seq<char>, Seq<char>)>,
    ) -> bool {
        let rs = self.roots@[k].rs();
        let res = rs[nearest(rs, ptr)];
        &&& forall|j: int|
            0 <= j < dynamic.len() ==> {
                &&& res.dynamic_anchors.contains((#[trigger] dynamic[j]).0)
                &&& res.anchors.contains_key(dynamic[j].0)
                &&& res.anchors[dynamic[j].0] == dynamic[j].1
            }
        &&& if res.ptr == ptr {
            forall|name: Seq<char>|
                res.dynamic_anchors.contains(name) && res.anchors.contains_key(name)
                    ==> exists|j: int| 0 <= j < dynamic.len() && (#[trigger] dynamic[j]).0 == name
        } else {
            dynamic.len() == 0
        }
    }

    /// The last schema of `list` is linked as its document asks for at
    /// its location: every link of it is the place of the first schema of
    /// `list` that stands where the link leads.
    pub open spec fn last_is_linked(&self, list: Seq<Schema>) -> bool {
        let node = list.last();
        let k = root_index(self.roots@, node.loc.url@);
        let rs = self.roots@[k].rs();
        exists|dynamic: Seq<(Seq<char>, Seq<char>)>| #[trigger]
            self.anchors_listed(k, node.loc.ptr@, dynamic) && self.linked(
                node,
                list,
                k,
                (list.len() - 1) as usize,
                self.roots@[k].outline_at(self.docs@[k], node.loc.ptr@),
                rs[nearest(rs, node.loc.ptr@)].ptr,
                dynamic,
            )
    }

    /// A schema that is linked among schemas is linked among schemas that
    /// stand at the same locations, while the registries stay the same.
    pub proof fn lemma_linked_kept(
        a: &Self,
        b: &Self,
        s: Seq<Schema>,
        t: Seq<Schema>,
        k: int,
        dynamic: Seq<(Seq<char>, Seq<char>)>,
    )
        requires
            a.same_registries(b),
            0 <= k < a.roots@.len(),
            0 < s.len() == t.len() <= usize::MAX,
            forall|i: int|
                0 <= i < s.len() ==> (#[trigger] t[i]).loc.url@ == s[i].loc.url@ && t[i].loc.ptr@
                    == s[i].loc.ptr@,
            root_index(a.roots@, t.last().loc.url@) == k,
            b.anchors_listed(k, t.last().loc.ptr@, dynamic),
            b.linked(
                t.last(),
                s,
                k,
                (s.len() - 1) as usize,
                b.roots@[k].outline_at(b.docs@[k], t.last().loc.ptr@),
                b.roots@[k].rs()[nearest(b.roots@[k].rs(), t.last().loc.ptr@)].ptr,
                dynamic,
            ),
        ensures
            a.last_is_linked(t),
    {
        let node = t.last();
        let ptr = node.loc.ptr@;
        let o = b.roots@[k].outline_at(b.docs@[k], ptr);
        lemma_loc_index_same(s, t);
        assert(same_document(a.roots@[k], b.roots@[k]) && b.roots@[k].rs() == a.roots@[k].rs()
            && b.docs@ == a.docs@) by {
            reveal(Compiler::same_registries);
        }
        if o.ref_ is Some {
            Self::lemma_reference_outcome_same(a, b, k, ptr, o.ref_->0);
        }
        if o.dynamic_ref is Some {
            Self::lemma_reference_outcome_same(a, b, k, ptr, o.dynamic_ref->0);
        }
        assert(a.roots@[k].outline_at(a.docs@[k], ptr) == o);
        assert(a.anchors_listed(k, ptr, dynamic));
        assert(a.linked(
            node,
            t,
            k,
            (t.len() - 1) as usize,
            o,
            a.roots@[k].rs()[nearest(a.roots@[k].rs(), ptr)].ptr,
            dynamic,
        ));
    }

    /// The error that keeps the value at `ptr` of the document registered
    /// under `url` from being compiled, whatever it refers to: the error
    /// of registering the location, or `NotASchema` where the value is
    /// neither an object nor a boolean. `None` where there is no such
    /// error, and where no document is registered under `url`.
    #[verifier::opaque]
    pub open spec fn refusal(&self, url: Seq<char>, ptr: Seq<char>) -> Option<ErrorView> {
        let k = root_index(self.roots@, url);
        if 0 <= k < self.roots@.len() {
            let registered = self.roots@[k].add_subschema_spec(self.docs@[k], ptr);
            let value = lookup_spec(self.docs@[k], ptr)->Found_0;
            if registered.error is Some {
                registered.error
            } else if !(value is Object) && !(value is Bool) {
                Some(ErrorView::NotASchema { loc: crate::util::format_loc(url, ptr) })
            } else {
                None
            }
        } else {
            None
        }
    }

    /// `after` holds the documents of `self` and no other, each with the
    /// URL, the draft, the vocabularies and the resources it had.
    #[verifier::opaque]
    pub open spec fn same_registries(&self, after: &Self) -> bool {
        &&& after.roots@.len() == self.roots@.len()
        &&& after.docs@ == self.docs@
        &&& forall|j: int|
            0 <= j < self.roots@.len() ==> same_document(self.roots@[j], #[trigger] after.roots@[j])
                && after.roots@[j].rs() == self.roots@[j].rs()
    }

    /// The reference `reference`, made at `ptr` of the `k`-th document,
    /// leads without any loader to a location within `good` or `list`; so
    /// does no reference at all.
    pub open spec fn reference_within(
        &self,
        list: Seq<Schema>,
        good: Set<(Seq<char>, Seq<char>)>,
        k: int,
        ptr: Seq<char>,
        reference: Option<Seq<char>>,
    ) -> bool {
        reference matches Some(text) ==> (self.reference_outcome(k, ptr, text) matches Some(Ok(t))
            && within(list, good, t.0, t.1))
    }

    /// All that the schema at `ptr` of the `k`-th document, which stands
    /// at `url`, refers to is within `good` or `list`: the schema at which
    /// its resource begins, what the dynamic anchors of that resource lead
    /// to where it begins at `ptr`, what its references lead to, and its
    /// subschemas.
    pub open spec fn successors_within(
        &self,
        list: Seq<Schema>,
        good: Set<(Seq<char>, Seq<char>)>,
        k: int,
        url: Seq<char>,
        ptr: Seq<char>,
    ) -> bool {
        let o = self.roots@[k].outline_at(self.docs@[k], ptr);
        &&& self.resource_within(list, good, k, url, ptr)
        &&& self.reference_within(list, good, k, ptr, o.ref_)
        &&& self.reference_within(list, good, k, ptr, o.dynamic_ref)
        &&& outline_within(list, good, url, o)
    }

    /// The schema at which the resource of `ptr` begins is within `good`
    /// or `list`, and so is what the dynamic anchors of that resource
    /// lead to, where it begins at `ptr`.
    pub open spec fn resource_within(
        &self,
        list: Seq<Schema>,
        good: Set<(Seq<char>, Seq<char>)>,
        k: int,
        url: Seq<char>,
        ptr: Seq<char>,
    ) -> bool {
        let rs = self.roots@[k].rs();
        let res = rs[nearest(rs, ptr)];
        &&& within(list, good, url, res.ptr)
        &&& res.ptr == ptr ==> forall|name: Seq<char>|
            res.dynamic_anchors.contains(name) && #[trigger] res.anchors.contains_key(name)
                ==> within(list, good, url, res.anchors[name])
    }

    /// A reference of the schema at `ptr` of the `k`-th document fails
    /// to resolve, without any loader, with the error `e`, and all that
    /// is compiled before it is compiled already or is that schema
    /// itself: the resource and its dynamic anchors, and `$ref` where it
    /// is `$dynamicRef` that fails.
    pub open spec fn breaks_at(
        &self,
        list: Seq<Schema>,
        k: int,
        url: Seq<char>,
        ptr: Seq<char>,
        e: ErrorView,
    ) -> bool {
        let single = Set::empty().insert((url, ptr));
        let o = self.roots@[k].outline_at(self.docs@[k], ptr);
        &&& self.resource_within(list, single, k, url, ptr)
        &&& self.reference_fails(k, ptr, o.ref_, e) || (self.reference_within(
            list,
            single,
            k,
            ptr,
            o.ref_,
        ) && self.reference_fails(k, ptr, o.dynamic_ref, e))
    }

    /// The compilation of the schema at `ptr` of the document at `url`
    /// ends at a reference that fails to resolve with `e`: the document
    /// is registered, the location can be registered and holds an object
    /// or a boolean, and once it is registered, `breaks_at` holds.
    pub open spec fn reference_breaks(
        &self,
        list: Seq<Schema>,
        url: Seq<char>,
        ptr: Seq<char>,
        e: ErrorView,
    ) -> bool {
        let k = root_index(self.roots@, url);
        &&& 0 <= k < self.roots@.len()
        &&& self.refusal(url, ptr) is None
        &&& forall|after: Self| #[trigger]
            self.registered_as(&after, url, ptr) ==> after.breaks_at(list, k, url, ptr, e)
    }

    /// `after` is this compiler once the location `ptr` of the document
    /// at `url` is registered: it holds the same documents, each with the
    /// resources it had, but for the document at `url`, which has those
    /// that the registration leaves.
    pub open spec fn registered_as(&self, after: &Self, url: Seq<char>, ptr: Seq<char>) -> bool {
        let k = root_index(self.roots@, url);
        &&& after.roots@.len() == self.roots@.len()
        &&& after.docs@ == self.docs@
        &&& forall|j: int|
            0 <= j < self.roots@.len() ==> same_document(self.roots@[j], #[trigger] after.roots@[j])
                && after.roots@[j].rs() == (if j == k {
                self.roots@[k].add_subschema_spec(self.docs@[k], ptr).resources
            } else {
                self.roots@[j].rs()
            })
    }

    /// The schema at `ptr` of the document at `url` can be compiled by
    /// itself: its document is registered, the location can be registered
    /// and holds an object or a boolean, and once it is registered, all
    /// that the schema refers to is compiled already or is that schema
    /// itself.
    pub open spec fn stands_alone(&self, list: Seq<Schema>, url: Seq<char>, ptr: Seq<char>) -> bool {
        let k = root_index(self.roots@, url);
        &&& 0 <= k < self.roots@.len()
        &&& self.refusal(url, ptr) is None
        &&& forall|after: Self| #[trigger]
            self.registered_as(&after, url, ptr) ==> after.successors_within(
                list,
                Set::empty().insert((url, ptr)),
                k,
                url,
                ptr,
            )
    }

    /// All that is handed over for the schema at `ptr` of the `k`-th
    /// document is within `good` or `list`: where its resource begins,
    /// where the dynamic anchors lead, where its references lead, and its
    /// subschemas.
    pub open spec fn targets_within(
        &self,
        list: Seq<Schema>,
        good: Set<(Seq<char>, Seq<char>)>,
        k: int,
        url: Seq<char>,
        ptr: Seq<char>,
        o: OutlineView,
        first: Seq<char>,
        dynamic: Seq<(Seq<char>, Seq<char>)>,
    ) -> bool {
        &&& within(list, good, url, first)
        &&& entries_within(list, good, url, dynamic)
        &&& self.reference_within(list, good, k, ptr, o.ref_)
        &&& self.reference_within(list, good, k, ptr, o.dynamic_ref)
        &&& outline_within(list, good, url, o)
    }

    /// The schema at `ptr` of the document at `url` can be compiled
    /// without any loader, as far as it goes by itself: the document is
    /// registered, the location is registered in it already, so that
    /// registering it changes nothing, its value is an object or a
    /// boolean, and all that it refers to is within `good` or `list`.
    pub open spec fn local_ok(
        &self,
        list: Seq<Schema>,
        good: Set<(Seq<char>, Seq<char>)>,
        url: Seq<char>,
        ptr: Seq<char>,
    ) -> bool {
        let k = root_index(self.roots@, url);
        let value = lookup_spec(self.docs@[k], ptr)->Found_0;
        &&& 0 <= k < self.roots@.len()
        &&& is_pointer(ptr)
        &&& self.roots@[k].add_subschema_spec(self.docs@[k], ptr) == done(self.roots@[k].rs())
        &&& value is Object || value is Bool
        &&& self.successors_within(list, good, k, url, ptr)
    }

    /// `good` is a set of locations that can be compiled without any
    /// loader: each of them can be, as far as it goes by itself, and
    /// refers only to locations of `good` and to schemas of `list`.
    #[verifier::opaque]
    pub open spec fn closed(&self, list: Seq<Schema>, good: Set<(Seq<char>, Seq<char>)>) -> bool {
        forall|u: Seq<char>, p: Seq<char>| #[trigger]
            good.contains((u, p)) ==> self.local_ok(list, good, u, p)
    }

    /// Registries that are the same twice are the same.
    pub proof fn lemma_same_registries_trans(a: &Self, b: &Self, c: &Self)
        requires
            a.same_registries(b),
            b.same_registries(c),
        ensures
            a.same_registries(c),
    {
        reveal(Compiler::same_registries);
        assert forall|j: int| 0 <= j < a.roots@.len() implies same_document(
            a.roots@[j],
            #[trigger] c.roots@[j],
        ) && c.roots@[j].rs() == a.roots@[j].rs() by {
            assert(same_document(a.roots@[j], b.roots@[j]));
            assert(same_document(b.roots@[j], c.roots@[j]));
        }
    }

    /// Where a reference leads depends on the registries alone.
    pub proof fn lemma_reference_outcome_same(
        a: &Self,
        b: &Self,
        k: int,
        ptr: Seq<char>,
        reference: Seq<char>,
    )
        requires
            a.same_registries(b),
            0 <= k < a.roots@.len(),
        ensures
            b.reference_outcome(k, ptr, reference) == a.reference_outcome(k, ptr, reference),
    {
        reveal(Compiler::same_registries);
        let from = a.roots@[k];
        assert(same_document(a.roots@[k], b.roots@[k]));
        assert(b.roots@[k].reference_target(ptr, reference) == from.reference_target(
            ptr,
            reference,
        ));
        if from.reference_target(ptr, reference) == Ok::<
            Option<(Seq<char>, Seq<char>, Option<Seq<char>>)>,
            ErrorView,
        >(None) {
            let parts = reference_parts(from.rs()[nearest(from.rs(), ptr)].id, reference)->Ok_0;
            assert forall|j: int| 0 <= j < a.roots@.len() implies (#[trigger] b.roots@[j]).url@
                == a.roots@[j].url@ by {
                assert(same_document(a.roots@[j], b.roots@[j]));
            }
            lemma_root_index_same(a.roots@, b.roots@, parts.0);
            lemma_root_index(a.roots@, parts.0);
            let j = root_index(a.roots@, parts.0);
            if 0 <= j < a.roots@.len() {
                assert(same_document(a.roots@[j], b.roots@[j]));
            }
        }
    }

    /// A location stays within `good` or the schemas when more schemas
    /// are added.
    pub proof fn lemma_within_kept(s: Schemas, t: Schemas, good: Set<(Seq<char>, Seq<char>)>)
        requires
            s.grows_to(t),
        ensures
            forall|url: Seq<char>, ptr: Seq<char>| #[trigger]
                within(s.list@, good, url, ptr) ==> within(t.list@, good, url, ptr),
    {
        assert forall|url: Seq<char>, ptr: Seq<char>| #[trigger]
            within(s.list@, good, url, ptr) implies within(t.list@, good, url, ptr) by {
            if is_compiled(s.list@, url, ptr) {
                lemma_loc_index(s.list@, url, ptr);
                let i = loc_index(s.list@, url, ptr);
                assert(t.list@[i] == s.list@[i]);
                lemma_loc_index(t.list@, url, ptr);
                if loc_index(t.list@, url, ptr) >= t.list@.len() {
                    assert(!(t.list@[i].loc.url@ == url && t.list@[i].loc.ptr@ == ptr));
                }
            }
        }
    }

    /// What a schema refers to stays within `good` or the schemas while
    /// the registries stay the same and more schemas are added.
    pub proof fn lemma_successors_kept(
        a: &Self,
        b: &Self,
        s: Schemas,
        t: Schemas,
        good: Set<(Seq<char>, Seq<char>)>,
        k: int,
        url: Seq<char>,
        ptr: Seq<char>,
    )
        requires
            a.same_registries(b),
            s.grows_to(t),
            0 <= k < a.roots@.len(),
            a.successors_within(s.list@, good, k, url, ptr),
        ensures
            b.successors_within(t.list@, good, k, url, ptr),
    {
        reveal(Compiler::same_registries);
        Self::lemma_within_kept(s, t, good);
        assert(same_document(a.roots@[k], b.roots@[k]));
        let o = a.roots@[k].outline_at(a.docs@[k], ptr);
        assert(b.roots@[k].outline_at(b.docs@[k], ptr) == o);
        if o.ref_ is Some {
            Self::lemma_reference_outcome_same(a, b, k, ptr, o.ref_->0);
        }
        if o.dynamic_ref is Some {
            Self::lemma_reference_outcome_same(a, b, k, ptr, o.dynamic_ref->0);
        }
    }

    /// A reference that leads within `good` or the schemas does so while
    /// the registries stay the same and more schemas are added.
    pub proof fn lemma_reference_within_kept(
        a: &Self,
        b: &Self,
        s: Schemas,
        t: Schemas,
        good: Set<(Seq<char>, Seq<char>)>,
        k: int,
        ptr: Seq<char>,
        reference: Option<Seq<char>>,
    )
        requires
            a.same_registries(b),
            s.grows_to(t),
            0 <= k < a.roots@.len(),
            a.reference_within(s.list@, good, k, ptr, reference),
        ensures
            b.reference_within(t.list@, good, k, ptr, reference),
    {
        reveal(Compiler::same_registries);
        Self::lemma_within_kept(s, t, good);
        if reference is Some {
            Self::lemma_reference_outcome_same(a, b, k, ptr, reference->0);
        }
    }

    /// A set of locations that can be compiled stays one while the
    /// registries stay the same and more schemas are added.
    pub proof fn lemma_closed_kept(
        a: &Self,
        b: &Self,
        s: Schemas,
        t: Schemas,
        good: Set<(Seq<char>, Seq<char>)>,
    )
        requires
            a.same_registries(b),
            s.grows_to(t),
            a.closed(s.list@, good),
        ensures
            b.closed(t.list@, good),
    {
        reveal(Compiler::same_registries);
        reveal(Compiler::closed);
        assert forall|u: Seq<char>, p: Seq<char>| #[trigger] good.contains((u, p)) implies b.local_ok(
            t.list@,
            good,
            u,
            p,
        ) by {
            assert(a.local_ok(s.list@, good, u, p));
            assert forall|j: int| 0 <= j < a.roots@.len() implies (#[trigger] b.roots@[j]).url@
                == a.roots@[j].url@ by {
                assert(same_document(a.roots@[j], b.roots@[j]));
            }
            lemma_root_index_same(a.roots@, b.roots@, u);
            let k = root_index(a.roots@, u);
            assert(same_document(a.roots@[k], b.roots@[k]));
            Self::lemma_successors_kept(a, b, s, t, good, k, u, p);
        }
    }

    /// Nothing was registered and nothing compiled: the documents, their
    /// resources and the schemas are as they were.
    pub open spec fn idle(before: &Self, after: &Self, schemas: Schemas, grown: Schemas) -> bool {
        &&& after.roots@ == before.roots@
        &&& after.docs@ == before.docs@
        &&& grown.list@ == schemas.list@
    }

    /// Registering documents and resources leaves the schemas as good as
    /// they were.
    pub proof fn lemma_documents_step(a: &Self, b: &Self, s: Schemas)
        requires
            a.keeps_documents(b),
            b.wf(),
            s.wf(),
        ensures
            Self::advanced(a, b, s, s),
            a.roots@ == b.roots@ && a.docs@ == b.docs@ ==> a.same_registries(b),
    {
        reveal(Compiler::same_registries);
        s.lemma_grows_refl();
        if a.faithful(s) {
            Self::lemma_faithful_kept(a, b, s, s);
        }
    }

    /// Schemas that were compiled from a place on are compiled from that
    /// place on when more compiled schemas stand behind them.
    pub proof fn lemma_compiled_from_kept(s: Schemas, t: Schemas, from: int)
        requires
            0 <= from,
            s.grows_to(t),
            compiled_from(s.list@, from),
            compiled_from(t.list@, s.list@.len() as int),
        ensures
            compiled_from(t.list@, from),
    {
        assert forall|i: int| from <= i < t.list@.len() implies (#[trigger] t.list@[i]).compiled by {
            if i < s.list@.len() {
                assert(t.list@[i] == s.list@[i]);
            }
        }
    }

    /// A schema that stands at a location stands there when more schemas
    /// are added.
    pub proof fn lemma_leads_kept(s: Schemas, t: Schemas)
        requires
            s.grows_to(t),
        ensures
            forall|place: usize, url: Seq<char>, ptr: Seq<char>| #[trigger]
                leads_to(s.list@, place, url, ptr) ==> leads_to(t.list@, place, url, ptr),
    {
        assert forall|place: usize, url: Seq<char>, ptr: Seq<char>| #[trigger]
            leads_to(s.list@, place, url, ptr) implies leads_to(t.list@, place, url, ptr) by {
            assert(t.list@[place as int] == s.list@[place as int]);
        }
    }

    /// Finds the document of `up`, loaded where it is not registered, and
    /// registers the location `up` in it; the result is the document's
    /// place. In a registered document the result is that of the
    /// registration, and no other document changes. For another document
    /// `UnsupportedUrlScheme` says, and nothing else does, that its URL
    /// has no loader.
    fn register_at(&mut self, up: &UrlPtr) -> (r: Result<usize, CompileError>)
        requires
            old(self).wf(),
            up.ptr.wf(),
        ensures
            final(self).wf(),
            old(self).keeps_documents(final(self)),
            r matches Err(e) ==> final(self).plausible(e@),
            r matches Ok(k) ==> {
                &&& k < final(self).roots@.len()
                &&& final(self).roots@[k as int].url@ == up.url@
                &&& lookup_spec(final(self).docs@[k as int], up.ptr@) is Found
            },
            root_index(old(self).roots@, up.url@) < old(self).roots@.len() ==> {
                let k = root_index(old(self).roots@, up.url@);
                &&& old(self).registered_as(final(self), up.url@, up.ptr@)
                &&& match old(self).roots@[k].add_subschema_spec(old(self).docs@[k], up.ptr@).error {
                    Some(e) => r matches Err(got) && got@ == e,
                    None => r == Ok::<usize, CompileError>(k as usize),
                }
            },
            root_index(old(self).roots@, up.url@) == old(self).roots@.len() ==> {
                &&& old(self).no_loader(up.url@) <==> (r matches Err(e) && e@
                    == (ErrorView::UnsupportedUrlScheme { url: up.url@ }))
                &&& old(self).no_loader(up.url@) ==> final(self).roots@ == old(self).roots@
                    && final(self).docs@ == old(self).docs@
            },
    {
        let ghost c0 = *self;
        proof {
            lemma_root_index(self.roots@, up.url@);
        }
        let k = match self.load_root(&up.url) {
            Ok(k) => k,
            Err(e) => {
                return Err(e);
            },
        };
        let ghost c1 = *self;
        let added = self.roots[k].add_subschema(&self.docs[k], &up.ptr);
        proof {
            assert(c1.keeps_documents(self)) by {
                assert forall|j: int| 0 <= j < c1.roots@.len() implies same_document(
                    c1.roots@[j],
                    #[trigger] self.roots@[j],
                ) && self.docs@[j] == c1.docs@[j] by {}
            }
            Self::lemma_keeps_documents_trans(&c0, &c1, self);
            lemma_subschema_kind(
                c1.roots@[k as int].draft,
                c1.roots@[k as int].url@,
                c1.roots@[k as int].rs(),
                c1.docs@[k as int],
                up.ptr@,
            );
            assert(self.wf());
            if root_index(c0.roots@, up.url@) < c0.roots@.len() {
                assert forall|j: int| 0 <= j < c0.roots@.len() implies same_document(
                    c0.roots@[j],
                    #[trigger] self.roots@[j],
                ) && self.roots@[j].rs() == (if j == k as int {
                    c0.roots@[k as int].add_subschema_spec(c0.docs@[k as int], up.ptr@).resources
                } else {
                    c0.roots@[j].rs()
                }) by {}
            }
            assert forall|url: Seq<char>| root_index(c1.roots@, url) == c1.roots@.len() implies root_index(
                self.roots@,
                url,
            ) == self.roots@.len() by {
                assert forall|j: int| 0 <= j < c1.roots@.len() implies (#[trigger] self.roots@[j]).url@
                    == c1.roots@[j].url@ by {
                    assert(same_document(c1.roots@[j], self.roots@[j]));
                }
                lemma_root_index_same(c1.roots@, self.roots@, url);
            }
        }
        match added {
            Err(e) => Err(e),
            Ok(()) => Ok(k),
        }
    }

    /// Compiles the schema that stands at `up`, with all that it refers
    /// to, and says where it stands among `schemas`. A schema that is
    /// compiled already is found at its place, and nothing changes. In a
    /// registered document, a location that cannot be registered fails
    /// with the error of its registration, and a value that is neither an
    /// object nor a boolean is a `NotASchema`.
    ///
    /// A location within a set of locations that is `closed` is compiled,
    /// and every document keeps the resources it had. A schema that
    /// `stands_alone` becomes the last of the schemas, linked as its
    /// document asks, and nothing else is added. Where a reference of the
    /// schema fails to resolve without any loader (`reference_breaks`),
    /// that error is the result.
    ///
    /// For a document that is not registered, `UnsupportedUrlScheme`
    /// says that its URL has no loader, and nothing else ends in that
    /// error for that URL. Every error is `plausible`, and leaves the
    /// schemas as they were.
    #[verifier::rlimit(50)]
    pub fn compile_at(
        &mut self,
        schemas: &mut Schemas,
        up: UrlPtr,
    ) -> (r: Result<usize, CompileError>)
        requires
            old(self).wf(),
            old(schemas).wf(),
            up.ptr.wf(),
        ensures
            Self::advanced(old(self), final(self), *old(schemas), *final(schemas)),
            r matches Err(e) ==> final(self).plausible(e@) && final(schemas).list@ == old(
                schemas,
            ).list@,
            r matches Ok(i) ==> {
                &&& leads_to(final(schemas).list@, i, up.url@, up.ptr@)
                &&& compiled_from(final(schemas).list@, old(schemas).list@.len() as int)
            },
            loc_index(old(schemas).list@, up.url@, up.ptr@) < old(schemas).list@.len() ==> {
                &&& r == Ok::<usize, CompileError>(
                    loc_index(old(schemas).list@, up.url@, up.ptr@) as usize,
                )
                &&& final(schemas).list@ == old(schemas).list@
                &&& final(self).roots@ == old(self).roots@
                &&& final(self).docs@ == old(self).docs@
            },
            !is_compiled(old(schemas).list@, up.url@, up.ptr@) ==> match old(self).refusal(
                up.url@,
                up.ptr@,
            ) {
                Some(e) => {
                    &&& r matches Err(got) && got@ == e
                    &&& final(schemas).list@ == old(schemas).list@
                },
                None => true,
            },
            !is_compiled(old(schemas).list@, up.url@, up.ptr@) && root_index(
                old(self).roots@,
                up.url@,
            ) == old(self).roots@.len() ==> {
                &&& old(self).no_loader(up.url@) <==> (r matches Err(e) && e@
                    == (ErrorView::UnsupportedUrlScheme { url: up.url@ }))
                &&& old(self).no_loader(up.url@) ==> final(self).roots@ == old(self).roots@
                    && final(self).docs@ == old(self).docs@ && final(schemas).list@ == old(
                    schemas,
                ).list@
            },
            forall|good: Set<(Seq<char>, Seq<char>)>| #[trigger]
                old(self).closed(old(schemas).list@, good) && within(
                    old(schemas).list@,
                    good,
                    up.url@,
                    up.ptr@,
                ) ==> r is Ok
                    && old(self).same_registries(final(self)),
            !is_compiled(old(schemas).list@, up.url@, up.ptr@) && old(self).stands_alone(
                old(schemas).list@,
                up.url@,
                up.ptr@,
            ) ==> {
                &&& r == Ok::<usize, CompileError>(old(schemas).list@.len() as usize)
                &&& final(schemas).list@.len() == old(schemas).list@.len() + 1
                &&& old(self).registered_as(final(self), up.url@, up.ptr@)
                &&& final(self).last_is_linked(final(schemas).list@)
            },
            forall|e: ErrorView|
                !is_compiled(old(schemas).list@, up.url@, up.ptr@) && #[trigger] old(
                    self,
                ).reference_breaks(old(schemas).list@, up.url@, up.ptr@, e) ==> {
                    &&& r matches Err(got) && got@ == e
                    &&& old(self).registered_as(final(self), up.url@, up.ptr@)
                },
        decreases usize::MAX - old(schemas).list@.len(), 0nat,
    {
        let ghost c0 = *self;
        let ghost s0 = *schemas;
        proof {
            Self::lemma_documents_step(&c0, &c0, s0);
            lemma_loc_index(schemas.list@, up.url@, up.ptr@);
        }
        if let Some(i) = find_loc(&schemas.list, &up) {
            return Ok(i);
        }
        proof {
            lemma_root_index(self.roots@, up.url@);
            reveal(Compiler::refusal);
            assert forall|good: Set<(Seq<char>, Seq<char>)>| #[trigger]
                c0.closed(s0.list@, good) && within(
                    s0.list@,
                    good,
                    up.url@,
                    up.ptr@,
                ) implies c0.local_ok(s0.list@, good, up.url@, up.ptr@) by {
                reveal(Compiler::closed);
            }
        }
        let k = match self.register_at(&up) {
            Ok(k) => k,
            Err(e) => {
                proof {
                    Self::lemma_documents_step(&c0, self, s0);
                }
                return Err(e);
            },
        };
        proof {
            Self::lemma_documents_step(&c0, self, s0);
            assert forall|good: Set<(Seq<char>, Seq<char>)>| #[trigger]
                c0.closed(s0.list@, good) && within(
                    s0.list@,
                    good,
                    up.url@,
                    up.ptr@,
                ) implies c0.same_registries(self) by {
                reveal(Compiler::same_registries);
                assert(c0.local_ok(s0.list@, good, up.url@, up.ptr@));
                assert(c0.registered_as(self, up.url@, up.ptr@));
                assert forall|j: int| 0 <= j < c0.roots@.len() implies same_document(
                    c0.roots@[j],
                    #[trigger] self.roots@[j],
                ) && self.roots@[j].rs() == c0.roots@[j].rs() by {}
            }
        }
        let v = match up.ptr.lookup(&self.docs[k], &self.roots[k].url) {
            Ok(v) => v,
            Err(e) => {
                return Err(e);
            },
        };
        match v {
            Json::Object(_) => {},
            Json::Bool(_) => {},
            _ => {
                return Err(CompileError::NotASchema { loc: up.to_string() });
            },
        }
        let root = &self.roots[k];
        let outline = root.draft.scan(
            root.has_vocab("applicator"),
            root.has_vocab("validation"),
            v,
            &up.ptr,
        );
        let first = root.resource(&up.ptr).ptr.clone();
        let dynamic = self.dynamic_anchors_at(k, &up.ptr);
        let idx = schemas.list.len();
        schemas.list.push(Schema::placeholder(up.clone(), idx));
        let ghost c2 = *self;
        let ghost s1 = *schemas;
        proof {
            assert forall|i: int| 0 <= i < s1.list@.len() implies s1.node_wf(
                #[trigger] s1.list@[i],
            ) by {
                if i < s0.list@.len() {
                    s0.lemma_node_wf_grows(s1, s0.list@[i]);
                }
            }
            lemma_loc_index(s0.list@, up.url@, up.ptr@);
            assert(s1.list@.len() == s1.list.len());
            assert(s0.grows_to(s1));
            if c2.faithful(s0) {
                Self::lemma_faithful_kept(&c2, &c2, s0, s1);
            }
            assert(Self::advanced(&c2, &c2, s0, s1));
            Self::lemma_advanced_trans(&c0, &c2, &c2, s0, s0, s1);
            assert forall|good: Set<(Seq<char>, Seq<char>)>| #[trigger]
                c0.closed(s0.list@, good) && within(
                    s0.list@,
                    good,
                    up.url@,
                    up.ptr@,
                ) implies c2.closed(s1.list@, good) && c2.targets_within(
                s1.list@,
                good,
                k as int,
                up.url@,
                up.ptr@,
                outline@,
                first@,
                entry_views(dynamic@),
            ) by {
                assert(c0.local_ok(s0.list@, good, up.url@, up.ptr@));
                Self::lemma_closed_kept(&c0, &c2, s0, s1, good);
                Self::lemma_successors_kept(&c0, &c2, s0, s1, good, k as int, up.url@, up.ptr@);
                let rs = c2.roots@[k as int].rs();
                let res = rs[nearest(rs, up.ptr@)];
                assert(first@ == res.ptr);
                assert(outline@ == c2.roots@[k as int].outline_at(c2.docs@[k as int], up.ptr@));
                assert forall|j: int| 0 <= j < dynamic@.len() implies within(
                    s1.list@,
                    good,
                    up.url@,
                    (#[trigger] entry_views(dynamic@)[j]).1,
                ) by {
                    assert(entry_views(dynamic@)[j].1 == dynamic@[j].1@);
                    assert(res.anchors.contains_key(dynamic@[j].0@));
                }
            }
            if c0.stands_alone(s0.list@, up.url@, up.ptr@) {
                let single = Set::<(Seq<char>, Seq<char>)>::empty().insert((up.url@, up.ptr@));
                let rs = c2.roots@[k as int].rs();
                let res = rs[nearest(rs, up.ptr@)];
                assert(c0.registered_as(&c2, up.url@, up.ptr@)) by {
                    assert forall|j: int| 0 <= j < c0.roots@.len() implies same_document(
                        c0.roots@[j],
                        #[trigger] c2.roots@[j],
                    ) && c2.roots@[j].rs() == (if j == k as int {
                        c0.roots@[k as int].add_subschema_spec(c0.docs@[k as int], up.ptr@).resources
                    } else {
                        c0.roots@[j].rs()
                    }) by {}
                }
                assert(c2.successors_within(s0.list@, single, k as int, up.url@, up.ptr@));
                Self::lemma_within_kept(s0, s1, single);
                lemma_loc_index(s1.list@, up.url@, up.ptr@);
                assert(leads_to(s1.list@, idx, up.url@, up.ptr@));
                assert(is_compiled(s1.list@, up.url@, up.ptr@));
                assert forall|u: Seq<char>, p: Seq<char>| #[trigger]
                    single.contains((u, p)) implies is_compiled(s1.list@, u, p) by {}
                assert(first@ == res.ptr);
                assert(outline@ == c2.roots@[k as int].outline_at(c2.docs@[k as int], up.ptr@));
                assert forall|j: int| 0 <= j < dynamic@.len() implies is_compiled(
                    s1.list@,
                    up.url@,
                    (#[trigger] entry_views(dynamic@)[j]).1,
                ) by {
                    assert(entry_views(dynamic@)[j].1 == dynamic@[j].1@);
                    assert(res.anchors.contains_key(dynamic@[j].0@));
                    assert(within(s0.list@, single, up.url@, res.anchors[dynamic@[j].0@]));
                }
                assert(within(s0.list@, single, up.url@, res.ptr));
                assert(c2.reference_within(s0.list@, single, k as int, up.ptr@, outline@.ref_));
                assert(c2.reference_within(s0.list@, single, k as int, up.ptr@, outline@.dynamic_ref));
                assert(outline_within(s0.list@, single, up.url@, outline@));
                assert(c2.ready(
                    s1.list@,
                    k as int,
                    up.url@,
                    up.ptr@,
                    outline@,
                    first@,
                    entry_views(dynamic@),
                ));
                assert(c2.anchors_listed(k as int, up.ptr@, entry_views(dynamic@))) by {
                    assert forall|name: Seq<char>|
                        res.ptr == up.ptr@ && res.dynamic_anchors.contains(name)
                            && res.anchors.contains_key(name) implies exists|j: int|
                        0 <= j < dynamic@.len() && (#[trigger] entry_views(dynamic@)[j]).0
                            == name by {
                        let j = choose|j: int| 0 <= j < dynamic@.len() && (#[trigger] dynamic@[j]).0@
                            == name;
                        assert(entry_views(dynamic@)[j].0 == name);
                    }
                }
            }
        }
        proof {
            assert forall|e: ErrorView| #[trigger]
                c0.reference_breaks(s0.list@, up.url@, up.ptr@, e) implies Self::resource_ready(
                s1.list@,
                up.url@,
                up.ptr@,
                first@,
                entry_views(dynamic@),
            ) && (c2.reference_fails(k as int, up.ptr@, outline@.ref_, e) || (c2.reference_ready(
                s1.list@,
                k as int,
                up.ptr@,
                outline@.ref_,
            ) && c2.reference_fails(k as int, up.ptr@, outline@.dynamic_ref, e))) by {
                let single = Set::<(Seq<char>, Seq<char>)>::empty().insert((up.url@, up.ptr@));
                let rs = c2.roots@[k as int].rs();
                let res = rs[nearest(rs, up.ptr@)];
                assert(c0.registered_as(&c2, up.url@, up.ptr@));
                assert(c2.breaks_at(s0.list@, k as int, up.url@, up.ptr@, e));
                Self::lemma_within_kept(s0, s1, single);
                lemma_loc_index(s1.list@, up.url@, up.ptr@);
                assert(leads_to(s1.list@, idx, up.url@, up.ptr@));
                assert(is_compiled(s1.list@, up.url@, up.ptr@));
                assert forall|u: Seq<char>, p: Seq<char>| #[trigger]
                    single.contains((u, p)) implies is_compiled(s1.list@, u, p) by {}
                assert(first@ == res.ptr);
                assert(outline@ == c2.roots@[k as int].outline_at(c2.docs@[k as int], up.ptr@));
                assert(within(s0.list@, single, up.url@, res.ptr));
                assert forall|j: int| 0 <= j < dynamic@.len() implies is_compiled(
                    s1.list@,
                    up.url@,
                    (#[trigger] entry_views(dynamic@)[j]).1,
                ) by {
                    assert(entry_views(dynamic@)[j].1 == dynamic@[j].1@);
                    assert(res.anchors.contains_key(dynamic@[j].0@));
                    assert(within(s0.list@, single, up.url@, res.anchors[dynamic@[j].0@]));
                }
            }
        }
        let ghost asked = outline@;
        let ghost listed = entry_views(dynamic@);
        let node = match self.build(schemas, k, idx, up, outline, first, dynamic) {
            Ok(node) => node,
            Err(e) => {
                proof {
                    Self::lemma_advanced_trans(&c0, &c2, self, s0, s1, *schemas);
                }
                schemas.list.truncate(idx);
                proof {
                    assert(schemas.list@ =~= s0.list@);
                    assert forall|i: int| 0 <= i < schemas.list@.len() implies schemas.node_wf(
                        #[trigger] schemas.list@[i],
                    ) by {
                        assert(s0.node_wf(s0.list@[i]));
                    }
                    if c0.faithful(s0) {
                        Self::lemma_faithful_kept(&c0, self, s0, *schemas);
                    }
                }
                return Err(e);
            },
        };
        let ghost s2 = *schemas;
        proof {
            Self::lemma_advanced_trans(&c0, &c2, self, s0, s1, s2);
        }
        schemas.list[idx] = node;
        proof {
            assert forall|good: Set<(Seq<char>, Seq<char>)>| #[trigger]
                c0.closed(s0.list@, good) && within(
                    s0.list@,
                    good,
                    up.url@,
                    up.ptr@,
                ) implies c0.same_registries(self) by {
                Self::lemma_same_registries_trans(&c0, &c2, self);
            }
            if c0.stands_alone(s0.list@, up.url@, up.ptr@) {
                assert(self.same_registries(&c2)) by {
                    reveal(Compiler::same_registries);
                }
                assert(schemas.list@.last() == node);
                lemma_root_index(self.roots@, up.url@);
                Self::lemma_linked_kept(self, &c2, s1.list@, schemas.list@, k as int, listed);
                assert(c0.registered_as(self, up.url@, up.ptr@));
            }
        }
        proof {
            let s3 = *schemas;
            assert(s3.list@ =~= s2.list@.update(idx as int, node));
            assert(s2.list@[idx as int] == s1.list@[idx as int]);
            assert forall|i: int| 0 <= i < s3.list@.len() implies s3.node_wf(
                #[trigger] s3.list@[i],
            ) by {
                if i != idx {
                    s2.lemma_node_wf_grows(s3, s2.list@[i]);
                } else {
                    s2.lemma_node_wf_grows(s3, node);
                }
            }
            assert forall|i: int| 0 <= i < s2.list@.len() implies (#[trigger] s3.list@[i]).loc.url@
                == s2.list@[i].loc.url@ && s3.list@[i].loc.ptr@ == s2.list@[i].loc.ptr@ by {}
            assert(s0.grows_to(s3)) by {
                assert forall|i: int| 0 <= i < s0.list@.len() implies #[trigger] s3.list@[i]
                    == s0.list@[i] by {
                    assert(s2.list@[i] == s0.list@[i]);
                }
                if distinct_locs(s0.list@) {
                    assert(distinct_locs(s2.list@));
                    assert forall|i: int, j: int| 0 <= i < j < s3.list@.len() implies !((
                    #[trigger] s3.list@[i]).loc.url@ == (#[trigger] s3.list@[j]).loc.url@
                        && s3.list@[i].loc.ptr@ == s3.list@[j].loc.ptr@) by {
                        assert(s3.list@[i].loc.url@ == s2.list@[i].loc.url@);
                        assert(s3.list@[j].loc.url@ == s2.list@[j].loc.url@);
                    }
                }
            }
            if c0.faithful(s0) {
                assert(self.faithful(s2));
                assert(same_document(c2.roots@[k as int], self.roots@[k as int]));
                assert forall|i: int|
                    0 <= i < s3.list@.len() && (
                    #[trigger] s3.list@[i]).compiled implies self.compiled_from_document(
                    s3.list@[i],
                    s3.list@,
                ) by {
                    if i == idx {
                        lemma_follows_kept(node, asked, s2.list@, s3.list@);
                        assert(self.roots@[k as int].outline_at(self.docs@[k as int], node.loc.ptr@)
                            == asked);
                        assert(self.roots@[k as int].url@ == node.loc.url@);
                    } else {
                        let other = s2.list@[i];
                        assert(s3.list@[i] == other);
                        assert(self.compiled_from_document(other, s2.list@));
                        let w = choose|w: int|
                            0 <= w < self.roots@.len() && (#[trigger] self.roots@[w]).url@
                                == other.loc.url@ && lookup_spec(self.docs@[w], other.loc.ptr@) is Found
                                && follows(
                                other,
                                self.roots@[w].outline_at(self.docs@[w], other.loc.ptr@),
                                s2.list@,
                            );
                        lemma_follows_kept(
                            other,
                            self.roots@[w].outline_at(self.docs@[w], other.loc.ptr@),
                            s2.list@,
                            s3.list@,
                        );
                    }
                }
            }
            assert(compiled_from(s3.list@, s0.list@.len() as int)) by {
                assert forall|i: int| s0.list@.len() <= i < s3.list@.len() implies (
                #[trigger] s3.list@[i]).compiled by {
                    if i != idx {
                        assert(s3.list@[i] == s2.list@[i]);
                    }
                }
            }
        }
        Ok(idx)
    }

    /// Fills in the schema for the place `idx`, where a placeholder
    /// stands, from what the schema at `up` asks for: every place that
    /// the outline names is compiled, and every reference is resolved and
    /// what it leads to compiled. It goes through the resource, the
    /// dynamic anchors, `$ref`, `$dynamicRef` and the subschemas, and
    /// stops at the first that fails. Where all of these are compiled
    /// already, it succeeds with their places and changes nothing; and
    /// where the resource is and a reference fails to resolve without any
    /// loader, it fails with that error.
    #[verifier::rlimit(50)]
    fn build(
        &mut self,
        schemas: &mut Schemas,
        k: usize,
        idx: usize,
        up: UrlPtr,
        outline: Outline,
        first: JsonPointer,
        dynamic: Vec<(String, JsonPointer)>,
    ) -> (r: Result<Schema, CompileError>)
        requires
            old(self).wf(),
            old(schemas).wf(),
            k < old(self).roots@.len(),
            old(self).roots@[k as int].url@ == up.url@,
            idx + 1 == old(schemas).list@.len(),
            old(schemas).list@[idx as int].loc.url@ == up.url@,
            old(schemas).list@[idx as int].loc.ptr@ == up.ptr@,
            up.ptr.wf(),
            outline.wf(),
            first.wf(),
            forall|j: int| 0 <= j < dynamic@.len() ==> (#[trigger] dynamic@[j]).1.wf(),
        ensures
            Self::advanced(old(self), final(self), *old(schemas), *final(schemas)),
            r matches Err(e) ==> final(self).plausible(e@),
            r matches Ok(node) ==> {
                &&& final(schemas).node_wf(node)
                &&& node.loc == up
                &&& node.compiled
                &&& compiled_from(final(schemas).list@, idx + 1)
                &&& follows(node, outline@, final(schemas).list@)
            },
            forall|good: Set<(Seq<char>, Seq<char>)>| #[trigger]
                old(self).closed(old(schemas).list@, good) && old(self).targets_within(
                    old(schemas).list@,
                    good,
                    k as int,
                    up.url@,
                    up.ptr@,
                    outline@,
                    first@,
                    entry_views(dynamic@),
                ) ==> r is Ok && old(self).same_registries(final(self)),
            old(self).ready(
                old(schemas).list@,
                k as int,
                up.url@,
                up.ptr@,
                outline@,
                first@,
                entry_views(dynamic@),
            ) ==> {
                &&& r matches Ok(node) && old(self).linked(
                    node,
                    old(schemas).list@,
                    k as int,
                    idx,
                    outline@,
                    first@,
                    entry_views(dynamic@),
                )
                &&& Self::idle(old(self), final(self), *old(schemas), *final(schemas))
            },
            forall|e: ErrorView|
                Self::resource_ready(
                    old(schemas).list@,
                    up.url@,
                    up.ptr@,
                    first@,
                    entry_views(dynamic@),
                ) && #[trigger] old(self).reference_fails(k as int, up.ptr@, outline@.ref_, e) ==> {
                    &&& r matches Err(got) && got@ == e
                    &&& Self::idle(old(self), final(self), *old(schemas), *final(schemas))
                },
            forall|e: ErrorView|
                Self::resource_ready(
                    old(schemas).list@,
                    up.url@,
                    up.ptr@,
                    first@,
                    entry_views(dynamic@),
                ) && old(self).reference_ready(
                    old(schemas).list@,
                    k as int,
                    up.ptr@,
                    outline@.ref_,
                ) && #[trigger] old(self).reference_fails(
                    k as int,
                    up.ptr@,
                    outline@.dynamic_ref,
                    e,
                ) ==> {
                    &&& r matches Err(got) && got@ == e
                    &&& Self::idle(old(self), final(self), *old(schemas), *final(schemas))
                },
        decreases usize::MAX - old(schemas).list@.len(), 4nat,
    {
        let ghost c0 = *self;
        let ghost s0 = *schemas;
        let found = match self.compile_resource(schemas, &up.url, &up.ptr, idx, first, &dynamic) {
            Ok(found) => found,
            Err(e) => {
                return Err(e);
            },
        };
        let ghost c1 = *self;
        let ghost s1 = *schemas;
        proof {
            if Self::resource_ready(s0.list@, up.url@, up.ptr@, first@, entry_views(dynamic@)) {
                assert(c1.roots@ == c0.roots@ && s1.list@ == s0.list@);
                assert forall|e: ErrorView| #[trigger]
                    c0.reference_fails(k as int, up.ptr@, outline@.ref_, e) implies c1.reference_fails(
                    k as int,
                    up.ptr@,
                    crate::outline::option_text(outline.ref_),
                    e,
                ) by {}
                assert forall|e: ErrorView| #[trigger]
                    c0.reference_fails(
                        k as int,
                        up.ptr@,
                        outline@.dynamic_ref,
                        e,
                    ) implies c1.reference_fails(
                    k as int,
                    up.ptr@,
                    crate::outline::option_text(outline.dynamic_ref),
                    e,
                ) by {}
                assert(c0.reference_ready(s0.list@, k as int, up.ptr@, outline@.ref_)
                    == c1.reference_ready(
                    s1.list@,
                    k as int,
                    up.ptr@,
                    crate::outline::option_text(outline.ref_),
                ));
                assert(c0.reference_ready(s0.list@, k as int, up.ptr@, outline@.dynamic_ref)
                    == c1.reference_ready(
                    s1.list@,
                    k as int,
                    up.ptr@,
                    crate::outline::option_text(outline.dynamic_ref),
                ));
            }
        }
        proof {
            assert forall|good: Set<(Seq<char>, Seq<char>)>| #[trigger]
                c0.closed(s0.list@, good) && Self::targets_within(
                    &c0,
                    s0.list@,
                    good,
                    k as int,
                    up.url@,
                    up.ptr@,
                    outline@,
                    first@,
                    entry_views(dynamic@),
                ) implies c0.same_registries(&c1) && c1.closed(s1.list@, good)
                && c1.reference_within(
                s1.list@,
                good,
                k as int,
                up.ptr@,
                crate::outline::option_text(outline.ref_),
            ) && c1.reference_within(
                s1.list@,
                good,
                k as int,
                up.ptr@,
                crate::outline::option_text(outline.dynamic_ref),
            ) by {
                Self::lemma_closed_kept(&c0, &c1, s0, s1, good);
                Self::lemma_reference_within_kept(
                    &c0,
                    &c1,
                    s0,
                    s1,
                    good,
                    k as int,
                    up.ptr@,
                    outline@.ref_,
                );
                Self::lemma_reference_within_kept(
                    &c0,
                    &c1,
                    s0,
                    s1,
                    good,
                    k as int,
                    up.ptr@,
                    outline@.dynamic_ref,
                );
            }
        }
        let refs = match self.compile_refs(
            schemas,
            k,
            &up.ptr,
            &outline.ref_,
            &outline.dynamic_ref,
        ) {
            Ok(refs) => refs,
            Err(e) => {
                proof {
                    Self::lemma_advanced_trans(&c0, &c1, self, s0, s1, *schemas);
                }
                return Err(e);
            },
        };
        let ghost c2 = *self;
        let ghost s2 = *schemas;
        proof {
            Self::lemma_advanced_trans(&c0, &c1, &c2, s0, s1, s2);
            Self::lemma_compiled_from_kept(s1, s2, idx + 1);
            assert forall|good: Set<(Seq<char>, Seq<char>)>| #[trigger]
                c0.closed(s0.list@, good) && Self::targets_within(
                    &c0,
                    s0.list@,
                    good,
                    k as int,
                    up.url@,
                    up.ptr@,
                    outline@,
                    first@,
                    entry_views(dynamic@),
                ) implies c0.same_registries(&c2) && c2.closed(s2.list@, good)
                && outline_within(s2.list@, good, up.url@, outline@) by {
                Self::lemma_same_registries_trans(&c0, &c1, &c2);
                Self::lemma_closed_kept(&c0, &c2, s0, s2, good);
                Self::lemma_within_kept(s0, s2, good);
            }
        }
        let links = match self.compile_links(schemas, &up.url, &outline) {
            Ok(links) => links,
            Err(e) => {
                proof {
                    Self::lemma_advanced_trans(&c0, &c2, self, s0, s2, *schemas);
                }
                return Err(e);
            },
        };
        proof {
            Self::lemma_advanced_trans(&c0, &c2, self, s0, s2, *schemas);
            Self::lemma_compiled_from_kept(s2, *schemas, idx + 1);
            assert forall|good: Set<(Seq<char>, Seq<char>)>| #[trigger]
                c0.closed(s0.list@, good) && Self::targets_within(
                    &c0,
                    s0.list@,
                    good,
                    k as int,
                    up.url@,
                    up.ptr@,
                    outline@,
                    first@,
                    entry_views(dynamic@),
                ) implies c0.same_registries(self) by {
                Self::lemma_same_registries_trans(&c0, &c2, self);
            }
        }
        let node = Schema {
            loc: up,
            compiled: true,
            resource: found.0,
            dynamic_anchors: found.1,
            boolean: outline.boolean,
            ref_: match &refs.0 {
                Some(target) => Some(target.place),
                None => None,
            },
            dynamic_ref: match refs.1 {
                Some(target) => Some(DynamicRef { anchor: target.dynamic, target: target.place }),
                None => None,
            },
            types: outline.types,
            required: outline.required,
            properties: links.properties,
            prefix_items: links.prefix_items,
            items: links.items,
            all_of: links.all_of,
            any_of: links.any_of,
            one_of: links.one_of,
            not: links.not,
        };
        Ok(node)
    }

    /// Compiles the schema at which the resource of the schema at `ptr`
    /// begins, which is `first`, and the schemas that the dynamic anchors
    /// of that resource lead to. The place of the first is `idx` where
    /// the resource begins at `ptr` itself. Where these schemas are
    /// compiled already, it succeeds with their places and changes
    /// nothing.
    #[verifier::rlimit(50)]
    fn compile_resource(
        &mut self,
        schemas: &mut Schemas,
        url: &Url,
        ptr: &JsonPointer,
        idx: usize,
        first: JsonPointer,
        dynamic: &Vec<(String, JsonPointer)>,
    ) -> (r: Result<(usize, Vec<(String, usize)>), CompileError>)
        requires
            old(self).wf(),
            old(schemas).wf(),
            idx < old(schemas).list@.len(),
            first.wf(),
            forall|j: int| 0 <= j < dynamic@.len() ==> (#[trigger] dynamic@[j]).1.wf(),
        ensures
            Self::advanced(old(self), final(self), *old(schemas), *final(schemas)),
            r matches Err(e) ==> final(self).plausible(e@),
            r matches Ok(found) ==> {
                &&& found.0 < final(schemas).list@.len()
                &&& final(schemas).entries_in_range(found.1@)
                &&& compiled_from(final(schemas).list@, old(schemas).list@.len() as int)
            },
            forall|good: Set<(Seq<char>, Seq<char>)>| #[trigger]
                old(self).closed(old(schemas).list@, good) && within(
                    old(schemas).list@,
                    good,
                    url@,
                    first@,
                ) && entries_within(old(schemas).list@, good, url@, entry_views(dynamic@)) ==> r is Ok
                    && old(self).same_registries(final(self)),
            Self::resource_ready(
                old(schemas).list@,
                url@,
                ptr@,
                first@,
                entry_views(dynamic@),
            ) ==> {
                &&& r matches Ok(found) && found.0 == (if first@ == ptr@ {
                    idx as int
                } else {
                    loc_index(old(schemas).list@, url@, first@)
                }) && found_entries(old(schemas).list@, url@, found.1@, entry_views(dynamic@))
                &&& Self::idle(old(self), final(self), *old(schemas), *final(schemas))
            },
        decreases usize::MAX - old(schemas).list@.len(), 3nat,
    {
        let ghost c0 = *self;
        let ghost s0 = *schemas;
        proof {
            Self::lemma_documents_step(&c0, &c0, s0);
            lemma_loc_index(s0.list@, url@, first@);
        }
        let resource = if first.same(ptr) {
            idx
        } else {
            match self.compile_at(schemas, UrlPtr { url: url.clone(), ptr: first }) {
                Ok(i) => i,
                Err(e) => {
                    return Err(e);
                },
            }
        };
        let ghost c1 = *self;
        let ghost s1 = *schemas;
        proof {
            assert forall|good: Set<(Seq<char>, Seq<char>)>| #[trigger]
                c0.closed(s0.list@, good) && within(s0.list@, good, url@, first@) && entries_within(
                    s0.list@,
                    good,
                    url@,
                    entry_views(dynamic@),
                ) implies c0.same_registries(&c1) && c1.closed(s1.list@, good)
                && entries_within(s1.list@, good, url@, entry_views(dynamic@)) by {
                Self::lemma_closed_kept(&c0, &c1, s0, s1, good);
                Self::lemma_within_kept(s0, s1, good);
            }
        }
        let anchors = match self.compile_entries(schemas, url, dynamic) {
            Ok(entries) => entries,
            Err(e) => {
                proof {
                    Self::lemma_advanced_trans(&c0, &c1, self, s0, s1, *schemas);
                }
                return Err(e);
            },
        };
        proof {
            Self::lemma_advanced_trans(&c0, &c1, self, s0, s1, *schemas);
            Self::lemma_compiled_from_kept(s1, *schemas, s0.list@.len() as int);
            assert forall|good: Set<(Seq<char>, Seq<char>)>| #[trigger]
                c0.closed(s0.list@, good) && within(s0.list@, good, url@, first@) && entries_within(
                    s0.list@,
                    good,
                    url@,
                    entry_views(dynamic@),
                ) implies c0.same_registries(self) by {
                Self::lemma_same_registries_trans(&c0, &c1, self);
            }
        }
        Ok((resource, anchors))
    }

    /// Resolves `$ref` and then `$dynamicRef`, made at `ptr` of the `k`-th
    /// document, and compiles the schemas that they lead to. Where both
    /// lead without any loader to schemas that are compiled already, it
    /// succeeds with their places and changes nothing; and where the
    /// first of them that fails to resolve fails without any loader, it
    /// fails with that error.
    #[verifier::rlimit(50)]
    fn compile_refs(
        &mut self,
        schemas: &mut Schemas,
        k: usize,
        ptr: &JsonPointer,
        ref_: &Option<String>,
        dynamic_ref: &Option<String>,
    ) -> (r: Result<(Option<Link>, Option<Link>), CompileError>)
        requires
            old(self).wf(),
            old(schemas).wf(),
            k < old(self).roots@.len(),
        ensures
            Self::advanced(old(self), final(self), *old(schemas), *final(schemas)),
            r matches Err(e) ==> final(self).plausible(e@),
            r matches Ok(refs) ==> {
                &&& refs.0 is Some == ref_ is Some
                &&& refs.1 is Some == dynamic_ref is Some
                &&& refs.0 matches Some(l) ==> l.place < final(schemas).list@.len()
                &&& refs.1 matches Some(l) ==> l.place < final(schemas).list@.len()
                &&& compiled_from(final(schemas).list@, old(schemas).list@.len() as int)
            },
            old(self).reference_ready(
                old(schemas).list@,
                k as int,
                ptr@,
                crate::outline::option_text(*ref_),
            ) && old(self).reference_ready(
                old(schemas).list@,
                k as int,
                ptr@,
                crate::outline::option_text(*dynamic_ref),
            ) ==> {
                &&& r matches Ok(refs) && link_is(
                    refs.0,
                    old(self).reference_link(
                        old(schemas).list@,
                        k as int,
                        ptr@,
                        crate::outline::option_text(*ref_),
                    ),
                ) && link_is(
                    refs.1,
                    old(self).reference_link(
                        old(schemas).list@,
                        k as int,
                        ptr@,
                        crate::outline::option_text(*dynamic_ref),
                    ),
                )
                &&& Self::idle(old(self), final(self), *old(schemas), *final(schemas))
            },
            forall|good: Set<(Seq<char>, Seq<char>)>| #[trigger]
                old(self).closed(old(schemas).list@, good) && old(self).reference_within(
                    old(schemas).list@,
                    good,
                    k as int,
                    ptr@,
                    crate::outline::option_text(*ref_),
                ) && old(self).reference_within(
                    old(schemas).list@,
                    good,
                    k as int,
                    ptr@,
                    crate::outline::option_text(*dynamic_ref),
                ) ==> r is Ok
                    && old(self).same_registries(final(self)),
            forall|e: ErrorView| #[trigger]
                old(self).reference_fails(k as int, ptr@, crate::outline::option_text(*ref_), e)
                    ==> {
                    &&& r matches Err(got) && got@ == e
                    &&& Self::idle(old(self), final(self), *old(schemas), *final(schemas))
                },
            forall|e: ErrorView|
                old(self).reference_ready(
                    old(schemas).list@,
                    k as int,
                    ptr@,
                    crate::outline::option_text(*ref_),
                ) && #[trigger] old(self).reference_fails(
                    k as int,
                    ptr@,
                    crate::outline::option_text(*dynamic_ref),
                    e,
                ) ==> {
                    &&& r matches Err(got) && got@ == e
                    &&& Self::idle(old(self), final(self), *old(schemas), *final(schemas))
                },
        decreases usize::MAX - old(schemas).list@.len(), 3nat,
    {
        let ghost c0 = *self;
        let ghost s0 = *schemas;
        let first = match self.compile_ref(schemas, k, ptr, ref_) {
            Ok(link) => link,
            Err(e) => {
                return Err(e);
            },
        };
        let ghost c1 = *self;
        let ghost s1 = *schemas;
        proof {
            assert forall|good: Set<(Seq<char>, Seq<char>)>| #[trigger]
                c0.closed(s0.list@, good) && c0.reference_within(
                    s0.list@,
                    good,
                    k as int,
                    ptr@,
                    crate::outline::option_text(*ref_),
                ) && c0.reference_within(
                    s0.list@,
                    good,
                    k as int,
                    ptr@,
                    crate::outline::option_text(*dynamic_ref),
                ) implies c0.same_registries(&c1) && c1.closed(s1.list@, good) && c1.reference_within(
                    s1.list@,
                    good,
                    k as int,
                    ptr@,
                    crate::outline::option_text(*dynamic_ref),
                ) by {
                Self::lemma_closed_kept(&c0, &c1, s0, s1, good);
                Self::lemma_reference_within_kept(
                    &c0,
                    &c1,
                    s0,
                    s1,
                    good,
                    k as int,
                    ptr@,
                    crate::outline::option_text(*dynamic_ref),
                );
            }
        }
        let second = match self.compile_ref(schemas, k, ptr, dynamic_ref) {
            Ok(link) => link,
            Err(e) => {
                proof {
                    Self::lemma_advanced_trans(&c0, &c1, self, s0, s1, *schemas);
                }
                return Err(e);
            },
        };
        proof {
            Self::lemma_advanced_trans(&c0, &c1, self, s0, s1, *schemas);
            Self::lemma_compiled_from_kept(s1, *schemas, s0.list@.len() as int);
            assert forall|good: Set<(Seq<char>, Seq<char>)>| #[trigger]
                c0.closed(s0.list@, good) && c0.reference_within(
                    s0.list@,
                    good,
                    k as int,
                    ptr@,
                    crate::outline::option_text(*ref_),
                ) && c0.reference_within(
                    s0.list@,
                    good,
                    k as int,
                    ptr@,
                    crate::outline::option_text(*dynamic_ref),
                ) implies c0.same_registries(self) by {
                Self::lemma_same_registries_trans(&c0, &c1, self);
            }
        }
        Ok((first, second))
    }

    /// Resolves the reference `reference`, made at `ptr` of the `k`-th
    /// document, and compiles the schema that it leads to. Without a
    /// reference there is no link. Where no loader is asked, the link
    /// leads where `reference_outcome` says and fails with its error; and
    /// where a schema is compiled there already, it succeeds with that
    /// schema's place and changes nothing.
    #[verifier::rlimit(50)]
    fn compile_ref(
        &mut self,
        schemas: &mut Schemas,
        k: usize,
        ptr: &JsonPointer,
        reference: &Option<String>,
    ) -> (r:
        Result<Option<Link>, CompileError>)
        requires
            old(self).wf(),
            old(schemas).wf(),
            k < old(self).roots@.len(),
        ensures
            Self::advanced(old(self), final(self), *old(schemas), *final(schemas)),
            r matches Err(e) ==> final(self).plausible(e@),
            r matches Ok(link) ==> {
                &&& link is Some == reference is Some
                &&& link matches Some(l) ==> l.place < final(schemas).list@.len()
                &&& compiled_from(final(schemas).list@, old(schemas).list@.len() as int)
            },
            forall|good: Set<(Seq<char>, Seq<char>)>| #[trigger]
                old(self).closed(old(schemas).list@, good) && old(self).reference_within(
                    old(schemas).list@,
                    good,
                    k as int,
                    ptr@,
                    crate::outline::option_text(*reference),
                ) ==> r is Ok
                    && old(self).same_registries(final(self)),
            reference is None ==> {
                &&& r matches Ok(link) && link is None
                &&& Self::idle(old(self), final(self), *old(schemas), *final(schemas))
            },
            reference matches Some(text) ==> match old(self).reference_outcome(
                k as int,
                ptr@,
                text@,
            ) {
                Some(Err(e)) => {
                    &&& r matches Err(got) && got@ == e
                    &&& Self::idle(old(self), final(self), *old(schemas), *final(schemas))
                },
                Some(Ok(t)) => {
                    &&& r matches Ok(Some(l)) ==> {
                        &&& leads_to(final(schemas).list@, l.place, t.0, t.1)
                        &&& crate::outline::option_text(l.dynamic) == t.2
                    }
                    &&& is_compiled(old(schemas).list@, t.0, t.1) ==> {
                        &&& r matches Ok(Some(l)) && l.place == loc_index(
                            old(schemas).list@,
                            t.0,
                            t.1,
                        )
                        &&& Self::idle(old(self), final(self), *old(schemas), *final(schemas))
                    }
                },
                None => r matches Ok(Some(l)) ==> final(schemas).list@[l.place as int].loc.url@
                    == reference_parts(
                    old(self).roots@[k as int].rs()[nearest(
                        old(self).roots@[k as int].rs(),
                        ptr@,
                    )].id,
                    text@,
                )->Ok_0.0,
            },
        decreases usize::MAX - old(schemas).list@.len(), 2nat,
    {
        let ghost c0 = *self;
        let ghost s0 = *schemas;
        proof {
            Self::lemma_documents_step(&c0, &c0, s0);
        }
        let text = match reference {
            Some(text) => text,
            None => {
                return Ok(None);
            },
        };
        let target = match self.resolve_ref(k, ptr, text.as_str()) {
            Ok(target) => target,
            Err(e) => {
                proof {
                    Self::lemma_documents_step(&c0, self, s0);
                }
                return Err(e);
            },
        };
        let ghost c1 = *self;
        proof {
            Self::lemma_documents_step(&c0, &c1, s0);
            lemma_loc_index(s0.list@, target.loc.url@, target.loc.ptr@);
            assert forall|good: Set<(Seq<char>, Seq<char>)>| #[trigger]
                c0.closed(s0.list@, good) && c0.reference_within(
                    s0.list@,
                    good,
                    k as int,
                    ptr@,
                    crate::outline::option_text(*reference),
                ) implies c0.same_registries(&c1) && c1.closed(s0.list@, good) && within(
                s0.list@,
                good,
                target.loc.url@,
                target.loc.ptr@,
            ) by {
                assert(c1.roots@ == c0.roots@ && c1.docs@ == c0.docs@);
                Self::lemma_closed_kept(&c0, &c1, s0, s0, good);
            }
        }
        let place = match self.compile_at(schemas, target.loc) {
            Ok(place) => place,
            Err(e) => {
                proof {
                    Self::lemma_advanced_trans(&c0, &c1, self, s0, s0, *schemas);
                }
                return Err(e);
            },
        };
        proof {
            Self::lemma_advanced_trans(&c0, &c1, self, s0, s0, *schemas);
            assert forall|good: Set<(Seq<char>, Seq<char>)>| #[trigger]
                c0.closed(s0.list@, good) && c0.reference_within(
                    s0.list@,
                    good,
                    k as int,
                    ptr@,
                    crate::outline::option_text(*reference),
                ) implies c0.same_registries(self) by {
                Self::lemma_same_registries_trans(&c0, &c1, self);
            }
        }
        Ok(Some(Link { place, dynamic: target.dynamic }))
    }

    /// Compiles the subschemas that `outline` names in the document at
    /// `url`, keyword by keyword, and stops at the first that fails.
    /// Where a schema is compiled already at every place that `outline`
    /// names, it succeeds with their places and changes nothing.
    #[verifier::rlimit(50)]
    fn compile_links(&mut self, schemas: &mut Schemas, url: &Url, outline: &Outline) -> (r: Result<
        Links,
        CompileError,
    >)
        requires
            old(self).wf(),
            old(schemas).wf(),
            outline.wf(),
        ensures
            Self::advanced(old(self), final(self), *old(schemas), *final(schemas)),
            r matches Err(e) ==> final(self).plausible(e@),
            r matches Ok(links) ==> {
                let list = final(schemas).list@;
                &&& entries_lead_to(list, links.properties@, url@, outline@.properties)
                &&& list_leads_to(list, links.prefix_items@, url@, outline@.prefix_items)
                &&& option_leads_to(list, links.items, url@, outline@.items)
                &&& list_leads_to(list, links.all_of@, url@, outline@.all_of)
                &&& list_leads_to(list, links.any_of@, url@, outline@.any_of)
                &&& list_leads_to(list, links.one_of@, url@, outline@.one_of)
                &&& option_leads_to(list, links.not, url@, outline@.not)
                &&& compiled_from(list, old(schemas).list@.len() as int)
            },
            forall|good: Set<(Seq<char>, Seq<char>)>| #[trigger]
                old(self).closed(old(schemas).list@, good) && outline_within(
                    old(schemas).list@,
                    good,
                    url@,
                    outline@,
                ) ==> r is Ok
                    && old(self).same_registries(final(self)),
            outline_compiled(old(schemas).list@, url@, outline@) ==> {
                &&& r matches Ok(links) && found_links(old(schemas).list@, url@, links, outline@)
                &&& Self::idle(old(self), final(self), *old(schemas), *final(schemas))
            },
        decreases usize::MAX - old(schemas).list@.len(), 2nat,
    {
        let ghost c0 = *self;
        let ghost s0 = *schemas;
        let properties = match self.compile_entries(schemas, url, &outline.properties) {
            Ok(entries) => entries,
            Err(e) => {
                return Err(e);
            },
        };
        let ghost c1 = *self;
        let ghost s1 = *schemas;
        proof {
            assert forall|good: Set<(Seq<char>, Seq<char>)>| #[trigger]
                c0.closed(s0.list@, good) && outline_within(s0.list@, good, url@, outline@) implies c0.same_registries(&c1) && c1.closed(s1.list@, good)
                && outline_within(s1.list@, good, url@, outline@) by {
                Self::lemma_closed_kept(&c0, &c1, s0, s1, good);
                Self::lemma_within_kept(s0, s1, good);
            }
        }
        let prefix_items = match self.compile_list(schemas, url, &outline.prefix_items) {
            Ok(list) => list,
            Err(e) => {
                proof {
                    Self::lemma_advanced_trans(&c0, &c1, self, s0, s1, *schemas);
                }
                return Err(e);
            },
        };
        let ghost c2 = *self;
        let ghost s2 = *schemas;
        proof {
            Self::lemma_advanced_trans(&c0, &c1, &c2, s0, s1, s2);
            Self::lemma_compiled_from_kept(s1, s2, s0.list@.len() as int);
            assert forall|good: Set<(Seq<char>, Seq<char>)>| #[trigger]
                c0.closed(s0.list@, good) && outline_within(s0.list@, good, url@, outline@) implies c0.same_registries(&c2) && c2.closed(s2.list@, good)
                && outline_within(s2.list@, good, url@, outline@) by {
                Self::lemma_same_registries_trans(&c0, &c1, &c2);
                Self::lemma_closed_kept(&c0, &c2, s0, s2, good);
                Self::lemma_within_kept(s0, s2, good);
            }
        }
        let items = match self.compile_option(schemas, url, &outline.items) {
            Ok(place) => place,
            Err(e) => {
                proof {
                    Self::lemma_advanced_trans(&c0, &c2, self, s0, s2, *schemas);
                }
                return Err(e);
            },
        };
        let ghost c3 = *self;
        let ghost s3 = *schemas;
        proof {
            Self::lemma_advanced_trans(&c0, &c2, &c3, s0, s2, s3);
            Self::lemma_compiled_from_kept(s2, s3, s0.list@.len() as int);
            assert forall|good: Set<(Seq<char>, Seq<char>)>| #[trigger]
                c0.closed(s0.list@, good) && outline_within(s0.list@, good, url@, outline@) implies c0.same_registries(&c3) && c3.closed(s3.list@, good)
                && outline_within(s3.list@, good, url@, outline@) by {
                Self::lemma_same_registries_trans(&c0, &c2, &c3);
                Self::lemma_closed_kept(&c0, &c3, s0, s3, good);
                Self::lemma_within_kept(s0, s3, good);
            }
        }
        let all_of = match self.compile_list(schemas, url, &outline.all_of) {
            Ok(list) => list,
            Err(e) => {
                proof {
                    Self::lemma_advanced_trans(&c0, &c3, self, s0, s3, *schemas);
                }
                return Err(e);
            },
        };
        let ghost c4 = *self;
        let ghost s4 = *schemas;
        proof {
            Self::lemma_advanced_trans(&c0, &c3, &c4, s0, s3, s4);
            Self::lemma_compiled_from_kept(s3, s4, s0.list@.len() as int);
            assert forall|good: Set<(Seq<char>, Seq<char>)>| #[trigger]
                c0.closed(s0.list@, good) && outline_within(s0.list@, good, url@, outline@) implies c0.same_registries(&c4) && c4.closed(s4.list@, good)
                && outline_within(s4.list@, good, url@, outline@) by {
                Self::lemma_same_registries_trans(&c0, &c3, &c4);
                Self::lemma_closed_kept(&c0, &c4, s0, s4, good);
                Self::lemma_within_kept(s0, s4, good);
            }
        }
        let any_of = match self.compile_list(schemas, url, &outline.any_of) {
            Ok(list) => list,
            Err(e) => {
                proof {
                    Self::lemma_advanced_trans(&c0, &c4, self, s0, s4, *schemas);
                }
                return Err(e);
            },
        };
        let ghost c5 = *self;
        let ghost s5 = *schemas;
        proof {
            Self::lemma_advanced_trans(&c0, &c4, &c5, s0, s4, s5);
            Self::lemma_compiled_from_kept(s4, s5, s0.list@.len() as int);
            assert forall|good: Set<(Seq<char>, Seq<char>)>| #[trigger]
                c0.closed(s0.list@, good) && outline_within(s0.list@, good, url@, outline@) implies c0.same_registries(&c5) && c5.closed(s5.list@, good)
                && outline_within(s5.list@, good, url@, outline@) by {
                Self::lemma_same_registries_trans(&c0, &c4, &c5);
                Self::lemma_closed_kept(&c0, &c5, s0, s5, good);
                Self::lemma_within_kept(s0, s5, good);
            }
        }
        let one_of = match self.compile_list(schemas, url, &outline.one_of) {
            Ok(list) => list,
            Err(e) => {
                proof {
                    Self::lemma_advanced_trans(&c0, &c5, self, s0, s5, *schemas);
                }
                return Err(e);
            },
        };
        let ghost c6 = *self;
        let ghost s6 = *schemas;
        proof {
            Self::lemma_advanced_trans(&c0, &c5, &c6, s0, s5, s6);
            Self::lemma_compiled_from_kept(s5, s6, s0.list@.len() as int);
            assert forall|good: Set<(Seq<char>, Seq<char>)>| #[trigger]
                c0.closed(s0.list@, good) && outline_within(s0.list@, good, url@, outline@) implies c0.same_registries(&c6) && c6.closed(s6.list@, good)
                && outline_within(s6.list@, good, url@, outline@) by {
                Self::lemma_same_registries_trans(&c0, &c5, &c6);
                Self::lemma_closed_kept(&c0, &c6, s0, s6, good);
                Self::lemma_within_kept(s0, s6, good);
            }
        }
        let not = match self.compile_option(schemas, url, &outline.not) {
            Ok(place) => place,
            Err(e) => {
                proof {
                    Self::lemma_advanced_trans(&c0, &c6, self, s0, s6, *schemas);
                }
                return Err(e);
            },
        };
        proof {
            let s7 = *schemas;
            Self::lemma_advanced_trans(&c0, &c6, self, s0, s6, s7);
            Self::lemma_compiled_from_kept(s6, s7, s0.list@.len() as int);
            assert forall|good: Set<(Seq<char>, Seq<char>)>| #[trigger]
                c0.closed(s0.list@, good) && outline_within(s0.list@, good, url@, outline@) implies c0.same_registries(self) by {
                Self::lemma_same_registries_trans(&c0, &c6, self);
            }
            s5.lemma_grows_trans(s6, s7);
            s4.lemma_grows_trans(s5, s7);
            s3.lemma_grows_trans(s4, s7);
            s2.lemma_grows_trans(s3, s7);
            s1.lemma_grows_trans(s2, s7);
            Self::lemma_leads_kept(s1, s7);
            Self::lemma_leads_kept(s2, s7);
            Self::lemma_leads_kept(s3, s7);
            Self::lemma_leads_kept(s4, s7);
            Self::lemma_leads_kept(s5, s7);
            Self::lemma_leads_kept(s6, s7);
        }
        Ok(Links { properties, prefix_items, items, all_of, any_of, one_of, not })
    }

    /// Compiles the schemas at `ptrs` of the document at `url`, in their
    /// order, and stops at the first that fails. Where a schema is
    /// compiled already at each of `ptrs`, it succeeds with their places
    /// and changes nothing.
    #[verifier::rlimit(50)]
    fn compile_list(
        &mut self,
        schemas: &mut Schemas,
        url: &Url,
        ptrs: &Vec<JsonPointer>,
    ) -> (r: Result<
        Vec<usize>,
        CompileError,
    >)
        requires
            old(self).wf(),
            old(schemas).wf(),
            forall|j: int| 0 <= j < ptrs@.len() ==> (#[trigger] ptrs@[j]).wf(),
        ensures
            Self::advanced(old(self), final(self), *old(schemas), *final(schemas)),
            r matches Err(e) ==> final(self).plausible(e@),
            r matches Ok(places) ==> {
                &&& list_leads_to(final(schemas).list@, places@, url@, ptr_views(ptrs@))
                &&& compiled_from(final(schemas).list@, old(schemas).list@.len() as int)
            },
            forall|good: Set<(Seq<char>, Seq<char>)>| #[trigger]
                old(self).closed(old(schemas).list@, good) && all_within(
                    old(schemas).list@,
                    good,
                    url@,
                    ptr_views(ptrs@),
                ) ==> r is Ok
                    && old(self).same_registries(final(self)),
            all_compiled(old(schemas).list@, url@, ptr_views(ptrs@)) ==> {
                &&& r matches Ok(places) && found_list(
                    old(schemas).list@,
                    url@,
                    places@,
                    ptr_views(ptrs@),
                )
                &&& Self::idle(old(self), final(self), *old(schemas), *final(schemas))
            },
        decreases usize::MAX - old(schemas).list@.len(), 1nat,
    {
        let ghost c0 = *self;
        let ghost s0 = *schemas;
        let mut places: Vec<usize> = Vec::new();
        let mut j: usize = 0;
        proof {
            Self::lemma_documents_step(&c0, &c0, s0);
        }
        while j < ptrs.len()
            invariant
                j <= ptrs.len(),
                c0 == *old(self),
                s0 == *old(schemas),
                forall|i: int| 0 <= i < ptrs@.len() ==> (#[trigger] ptrs@[i]).wf(),
                Self::advanced(&c0, self, s0, *schemas),
                places@.len() == j,
                forall|i: int|
                    0 <= i < places@.len() ==> leads_to(
                        schemas.list@,
                        #[trigger] places@[i],
                        url@,
                        ptrs@[i]@,
                    ),
                compiled_from(schemas.list@, s0.list@.len() as int),
                all_compiled(s0.list@, url@, ptr_views(ptrs@)) ==> {
                    &&& Self::idle(&c0, self, s0, *schemas)
                    &&& forall|i: int|
                        0 <= i < places@.len() ==> (#[trigger] places@[i]) == loc_index(
                            s0.list@,
                            url@,
                            ptrs@[i]@,
                        )
                },
                forall|good: Set<(Seq<char>, Seq<char>)>| #[trigger]
                    c0.closed(s0.list@, good) && all_within(s0.list@, good, url@, ptr_views(ptrs@))
                        ==> c0.same_registries(self),
            decreases ptrs.len() - j,
        {
            let ghost c = *self;
            let ghost s = *schemas;
            proof {
                assert(ptr_views(ptrs@)[j as int] == ptrs@[j as int]@);
                lemma_loc_index(s0.list@, url@, ptrs@[j as int]@);
                assert forall|good: Set<(Seq<char>, Seq<char>)>| #[trigger]
                    c0.closed(s0.list@, good) && all_within(
                        s0.list@,
                        good,
                        url@,
                        ptr_views(ptrs@),
                    ) implies c.closed(s.list@, good) && within(
                    s.list@,
                    good,
                    url@,
                    ptrs@[j as int]@,
                ) by {
                    Self::lemma_closed_kept(&c0, &c, s0, s, good);
                    Self::lemma_within_kept(s0, s, good);
                    assert(within(s0.list@, good, url@, ptr_views(ptrs@)[j as int]));
                }
            }
            let loc = UrlPtr { url: url.clone(), ptr: ptrs[j].clone() };
            let place = match self.compile_at(schemas, loc) {
                Ok(place) => place,
                Err(e) => {
                    proof {
                        Self::lemma_advanced_trans(&c0, &c, self, s0, s, *schemas);
                    }
                    return Err(e);
                },
            };
            proof {
                Self::lemma_advanced_trans(&c0, &c, self, s0, s, *schemas);
                Self::lemma_leads_kept(s, *schemas);
                Self::lemma_compiled_from_kept(s, *schemas, s0.list@.len() as int);
                assert forall|good: Set<(Seq<char>, Seq<char>)>| #[trigger]
                    c0.closed(s0.list@, good) && all_within(
                        s0.list@,
                        good,
                        url@,
                        ptr_views(ptrs@),
                    ) implies c0.same_registries(self) by {
                    Self::lemma_same_registries_trans(&c0, &c, self);
                }
            }
            places.push(place);
            j = j + 1;
        }
        Ok(places)
    }

    /// Compiles the schemas at the places that `entries` names, in the
    /// document at `url`, in their order, keeps the name of each, and
    /// stops at the first that fails. Where a schema is compiled already
    /// at each of the places, it succeeds with their places and changes
    /// nothing.
    #[verifier::rlimit(50)]
    fn compile_entries(
        &mut self,
        schemas: &mut Schemas,
        url: &Url,
        entries: &Vec<(String, JsonPointer)>,
    ) -> (r:
        Result<Vec<(String, usize)>, CompileError>)
        requires
            old(self).wf(),
            old(schemas).wf(),
            forall|j: int| 0 <= j < entries@.len() ==> (#[trigger] entries@[j]).1.wf(),
        ensures
            Self::advanced(old(self), final(self), *old(schemas), *final(schemas)),
            r matches Err(e) ==> final(self).plausible(e@),
            r matches Ok(places) ==> {
                &&& entries_lead_to(final(schemas).list@, places@, url@, entry_views(entries@))
                &&& compiled_from(final(schemas).list@, old(schemas).list@.len() as int)
            },
            forall|good: Set<(Seq<char>, Seq<char>)>| #[trigger]
                old(self).closed(old(schemas).list@, good) && entries_within(
                    old(schemas).list@,
                    good,
                    url@,
                    entry_views(entries@),
                ) ==> r is Ok
                    && old(self).same_registries(final(self)),
            entries_compiled(old(schemas).list@, url@, entry_views(entries@)) ==> {
                &&& r matches Ok(places) && found_entries(
                    old(schemas).list@,
                    url@,
                    places@,
                    entry_views(entries@),
                )
                &&& Self::idle(old(self), final(self), *old(schemas), *final(schemas))
            },
        decreases usize::MAX - old(schemas).list@.len(), 1nat,
    {
        let ghost c0 = *self;
        let ghost s0 = *schemas;
        let mut places: Vec<(String, usize)> = Vec::new();
        let mut j: usize = 0;
        proof {
            Self::lemma_documents_step(&c0, &c0, s0);
        }
        while j < entries.len()
            invariant
                j <= entries.len(),
                c0 == *old(self),
                s0 == *old(schemas),
                forall|i: int| 0 <= i < entries@.len() ==> (#[trigger] entries@[i]).1.wf(),
                Self::advanced(&c0, self, s0, *schemas),
                places@.len() == j,
                forall|i: int|
                    0 <= i < places@.len() ==> (#[trigger] places@[i]).0@ == entries@[i].0@
                        && leads_to(schemas.list@, places@[i].1, url@, entries@[i].1@),
                compiled_from(schemas.list@, s0.list@.len() as int),
                entries_compiled(s0.list@, url@, entry_views(entries@)) ==> {
                    &&& Self::idle(&c0, self, s0, *schemas)
                    &&& forall|i: int|
                        0 <= i < places@.len() ==> (#[trigger] places@[i]).1 == loc_index(
                            s0.list@,
                            url@,
                            entries@[i].1@,
                        )
                },
                forall|good: Set<(Seq<char>, Seq<char>)>| #[trigger]
                    c0.closed(s0.list@, good) && entries_within(
                        s0.list@,
                        good,
                        url@,
                        entry_views(entries@),
                    ) ==> c0.same_registries(self),
            decreases entries.len() - j,
        {
            let ghost c = *self;
            let ghost s = *schemas;
            proof {
                assert(entry_views(entries@)[j as int].1 == entries@[j as int].1@);
                lemma_loc_index(s0.list@, url@, entries@[j as int].1@);
                assert forall|good: Set<(Seq<char>, Seq<char>)>| #[trigger]
                    c0.closed(s0.list@, good) && entries_within(
                        s0.list@,
                        good,
                        url@,
                        entry_views(entries@),
                    ) implies c.closed(s.list@, good) && within(
                    s.list@,
                    good,
                    url@,
                    entries@[j as int].1@,
                ) by {
                    Self::lemma_closed_kept(&c0, &c, s0, s, good);
                    Self::lemma_within_kept(s0, s, good);
                    assert(within(s0.list@, good, url@, entry_views(entries@)[j as int].1));
                }
            }
            let loc = UrlPtr { url: url.clone(), ptr: entries[j].1.clone() };
            let place = match self.compile_at(schemas, loc) {
                Ok(place) => place,
                Err(e) => {
                    proof {
                        Self::lemma_advanced_trans(&c0, &c, self, s0, s, *schemas);
                    }
                    return Err(e);
                },
            };
            proof {
                Self::lemma_advanced_trans(&c0, &c, self, s0, s, *schemas);
                Self::lemma_leads_kept(s, *schemas);
                Self::lemma_compiled_from_kept(s, *schemas, s0.list@.len() as int);
                assert forall|good: Set<(Seq<char>, Seq<char>)>| #[trigger]
                    c0.closed(s0.list@, good) && entries_within(
                        s0.list@,
                        good,
                        url@,
                        entry_views(entries@),
                    ) implies c0.same_registries(self) by {
                    Self::lemma_same_registries_trans(&c0, &c, self);
                }
            }
            places.push((entries[j].0.clone(), place));
            j = j + 1;
        }
        Ok(places)
    }

    /// Compiles the schema at `ptr` of the document at `url`, where
    /// there is a `ptr`. Without a `ptr`, and with one at which a schema
    /// is compiled already, it succeeds and changes nothing.
    fn compile_option(&mut self, schemas: &mut Schemas, url: &Url, ptr: &Option<JsonPointer>) -> (r:
        Result<Option<usize>, CompileError>)
        requires
            old(self).wf(),
            old(schemas).wf(),
            ptr matches Some(p) ==> p.wf(),
        ensures
            Self::advanced(old(self), final(self), *old(schemas), *final(schemas)),
            r matches Err(e) ==> final(self).plausible(e@),
            r matches Ok(place) ==> {
                &&& option_leads_to(final(schemas).list@, place, url@, option_view(*ptr))
                &&& compiled_from(final(schemas).list@, old(schemas).list@.len() as int)
            },
            forall|good: Set<(Seq<char>, Seq<char>)>| #[trigger]
                old(self).closed(old(schemas).list@, good) && option_within(
                    old(schemas).list@,
                    good,
                    url@,
                    option_view(*ptr),
                ) ==> r is Ok
                    && old(self).same_registries(final(self)),
            option_compiled(old(schemas).list@, url@, option_view(*ptr)) ==> {
                &&& r matches Ok(place) && found_option(
                    old(schemas).list@,
                    url@,
                    place,
                    option_view(*ptr),
                )
                &&& Self::idle(old(self), final(self), *old(schemas), *final(schemas))
            },
        decreases usize::MAX - old(schemas).list@.len(), 1nat,
    {
        proof {
            Self::lemma_documents_step(old(self), old(self), *old(schemas));
            if let Some(p) = ptr {
                lemma_loc_index(schemas.list@, url@, p@);
            }
        }
        match ptr {
            Some(p) => {
                match self.compile_at(schemas, UrlPtr { url: url.clone(), ptr: p.clone() }) {
                    Ok(i) => Ok(Some(i)),
                    Err(e) => Err(e),
                }
            },
            None => Ok(None),
        }
    }
}

/// Where a reference leads among the compiled schemas, and the dynamic
/// anchor that it names there.
pub struct Link {
    pub place: usize,
    pub dynamic: Option<String>,
}

/// Where the subschemas of one schema stand among the compiled schemas.
pub struct Links {
    pub properties: Vec<(String, usize)>,
    pub prefix_items: Vec<usize>,
    pub items: Option<usize>,
    pub all_of: Vec<usize>,
    pub any_of: Vec<usize>,
    pub one_of: Vec<usize>,
    pub not: Option<usize>,
}

impl<L: UrlLoader> Compiler<L> {
    /// The location that the text `loc` names, as far as no loader is
    /// asked: the fragment of `loc`, resolved at the root of the document
    /// registered under its URL, or the error of reading or resolving it.
    /// `None` says that no document is registered under that URL, so
    /// that a loader is asked.
    pub open spec fn location_outcome(&self, loc: Seq<char>) -> Option<
        Result<(Seq<char>, Seq<char>), ErrorView>,
    > {
        match registration_url(loc) {
            Err(e) => Some(Err(e)),
            Ok(u) => {
                let k = root_index(self.roots@, u);
                if 0 <= k < self.roots@.len() {
                    let rs = self.roots@[k].rs();
                    Some(
                        resolve_in(
                            self.roots@[k].url@,
                            fragment_of(percent_decoded(split_ref(loc).1)->0),
                            rs[ptr_index(rs, Seq::empty())],
                        ),
                    )
                } else {
                    None
                }
            },
        }
    }

    /// Compiles the schema at the location written as `loc`, an absolute
    /// URL with or without a fragment, into `schemas`, and says where it
    /// stands there. The document is loaded where it is not registered,
    /// and so is every document that the schema refers to.
    ///
    /// A location that is compiled already is found at its place and
    /// nothing is added; no location is ever compiled twice. Every schema
    /// that is added is what its document asks for at its location.
    /// Where the compilation fails, `schemas` is left as it was. Where the
    /// document is registered, the location is the one that
    /// `location_outcome` names, and its error is the error; a location
    /// that cannot be registered, or that holds no schema, fails with its
    /// `refusal`.
    ///
    /// Success is owed wherever no loader decides: where the location is
    /// within a set of locations that is `closed`, the result is `Ok` and
    /// every document keeps the resources it had. Where the schema
    /// `stands_alone`, it becomes the last of `schemas`, linked as its
    /// document asks, and nothing else is added. Where a reference of the
    /// schema fails to resolve without any loader (`reference_breaks`),
    /// that error is the result.
    ///
    /// For a document that is not registered, `UnsupportedUrlScheme`
    /// says that its URL has no loader, and nothing else ends in that
    /// error for that URL. Every error is `plausible`: none is a `Bug`,
    /// and an error of loading names a URL that is not registered.
    #[verifier::rlimit(50)]
    pub fn compile(
        &mut self,
        schemas: &mut Schemas,
        loc: &str,
    ) -> (r: Result<SchemaIndex, CompileError>)
        requires
            old(self).wf(),
            old(schemas).wf(),
        ensures
            final(self).wf(),
            old(self).keeps_documents(final(self)),
            final(schemas).wf(),
            old(schemas).grows_to(*final(schemas)),
            old(self).faithful(*old(schemas)) ==> final(self).faithful(*final(schemas)),
            registration_url(loc@) matches Err(e) ==> (r matches Err(got) && got@ == e),
            match old(self).location_outcome(loc@) {
                Some(Err(e)) => {
                    &&& r matches Err(got) && got@ == e
                    &&& final(self).roots@ == old(self).roots@
                    &&& final(self).docs@ == old(self).docs@
                },
                Some(Ok(at)) => {
                    &&& r matches Ok(i) ==> leads_to(final(schemas).list@, i.0, at.0, at.1)
                    &&& is_compiled(old(schemas).list@, at.0, at.1) ==> {
                        &&& r == Ok::<SchemaIndex, CompileError>(
                            SchemaIndex(loc_index(old(schemas).list@, at.0, at.1) as usize),
                        )
                        &&& Self::idle(old(self), final(self), *old(schemas), *final(schemas))
                    }
                    &&& !is_compiled(old(schemas).list@, at.0, at.1) ==> (old(self).refusal(
                        at.0,
                        at.1,
                    ) matches Some(e) ==> r matches Err(got) && got@ == e)
                    &&& forall|good: Set<(Seq<char>, Seq<char>)>| #[trigger]
                        old(self).closed(old(schemas).list@, good) && within(
                            old(schemas).list@,
                            good,
                            at.0,
                            at.1,
                        ) ==> r is Ok && old(self).same_registries(final(self))
                    &&& !is_compiled(old(schemas).list@, at.0, at.1) && old(self).stands_alone(
                        old(schemas).list@,
                        at.0,
                        at.1,
                    ) ==> {
                        &&& r == Ok::<SchemaIndex, CompileError>(
                            SchemaIndex(old(schemas).list@.len() as usize),
                        )
                        &&& final(schemas).list@.len() == old(schemas).list@.len() + 1
                        &&& old(self).registered_as(final(self), at.0, at.1)
                        &&& final(self).last_is_linked(final(schemas).list@)
                    }
                    &&& forall|e: ErrorView|
                        !is_compiled(old(schemas).list@, at.0, at.1) && #[trigger] old(
                            self,
                        ).reference_breaks(old(schemas).list@, at.0, at.1, e) ==> (r matches Err(
                            got,
                        ) && got@ == e)
                },
                None => {
                    let u = registration_url(loc@)->Ok_0;
                    &&& old(self).no_loader(u) <==> (r matches Err(e) && e@
                        == (ErrorView::UnsupportedUrlScheme { url: u }))
                    &&& old(self).no_loader(u) ==> final(self).roots@ == old(self).roots@
                        && final(self).docs@ == old(self).docs@
                },
            },
            r matches Err(e) ==> final(self).plausible(e@),
            match r {
                Ok(i) => {
                    let at = final(schemas).list@[i.0 as int].loc;
                    &&& i.0 < final(schemas).list@.len()
                    &&& registration_url(loc@) == Ok::<Seq<char>, ErrorView>(at.url@)
                    &&& compiled_from(final(schemas).list@, old(schemas).list@.len() as int)
                    &&& loc_index(old(schemas).list@, at.url@, at.ptr@) < old(schemas).list@.len()
                        ==> {
                        &&& i.0 == loc_index(old(schemas).list@, at.url@, at.ptr@)
                        &&& final(schemas).list@ == old(schemas).list@
                    }
                },
                Err(_) => final(schemas).list@ == old(schemas).list@,
            },
    {
        proof {
            old(schemas).lemma_grows_refl();
            Self::lemma_documents_step(old(self), old(self), *old(schemas));
        }
        let uf = match UrlFrag::absolute(loc) {
            Ok(uf) => uf,
            Err(e) => {
                return Err(e);
            },
        };
        proof {
            lemma_root_index(self.roots@, uf.url@);
        }
        let k = match self.load_root(&uf.url) {
            Ok(k) => k,
            Err(e) => {
                proof {
                    Self::lemma_documents_step(old(self), self, *old(schemas));
                }
                return Err(e);
            },
        };
        proof {
            Self::lemma_documents_step(old(self), self, *old(schemas));
        }
        let up = match self.roots[k].resolve_fragment(&uf.frag) {
            Ok(up) => up,
            Err(e) => {
                return Err(e);
            },
        };
        let ghost loaded = *self;
        let ghost before = *schemas;
        proof {
            lemma_loc_index(before.list@, up.url@, up.ptr@);
            reveal(Compiler::refusal);
            if old(self).location_outcome(loc@) is Some {
                assert(old(self).same_registries(&loaded));
                assert forall|good: Set<(Seq<char>, Seq<char>)>| #[trigger]
                    old(self).closed(before.list@, good) implies loaded.closed(
                    before.list@,
                    good,
                ) by {
                    before.lemma_grows_refl();
                    Self::lemma_closed_kept(old(self), &loaded, before, before, good);
                }
                if old(self).stands_alone(before.list@, up.url@, up.ptr@) {
                    assert forall|after: Self| #[trigger]
                        loaded.registered_as(
                            &after,
                            up.url@,
                            up.ptr@,
                        ) implies after.successors_within(
                        before.list@,
                        Set::empty().insert((up.url@, up.ptr@)),
                        root_index(loaded.roots@, up.url@),
                        up.url@,
                        up.ptr@,
                    ) by {
                        assert(old(self).registered_as(&after, up.url@, up.ptr@));
                    }
                    assert(loaded.stands_alone(before.list@, up.url@, up.ptr@));
                }
                assert forall|e: ErrorView| #[trigger]
                    old(self).reference_breaks(
                        before.list@,
                        up.url@,
                        up.ptr@,
                        e,
                    ) implies loaded.reference_breaks(before.list@, up.url@, up.ptr@, e) by {
                    assert forall|after: Self| #[trigger]
                        loaded.registered_as(&after, up.url@, up.ptr@) implies after.breaks_at(
                        before.list@,
                        root_index(loaded.roots@, up.url@),
                        up.url@,
                        up.ptr@,
                        e,
                    ) by {
                        assert(old(self).registered_as(&after, up.url@, up.ptr@));
                    }
                }
            }
        }
        match self.compile_at(schemas, up) {
            Ok(i) => {
                proof {
                    Self::lemma_keeps_documents_trans(old(self), &loaded, self);
                    if old(self).location_outcome(loc@) is Some {
                        assert forall|good: Set<(Seq<char>, Seq<char>)>| #[trigger]
                            loaded.closed(before.list@, good) && within(
                                before.list@,
                                good,
                                up.url@,
                                up.ptr@,
                            ) implies old(self).same_registries(self) by {
                            Self::lemma_same_registries_trans(old(self), &loaded, self);
                        }
                        if !is_compiled(before.list@, up.url@, up.ptr@) && old(self).stands_alone(
                            before.list@,
                            up.url@,
                            up.ptr@,
                        ) {
                            assert(loaded.registered_as(self, up.url@, up.ptr@));
                            assert(old(self).registered_as(self, up.url@, up.ptr@));
                        }
                    }
                }
                Ok(SchemaIndex(i))
            },
            Err(e) => {
                proof {
                    Self::lemma_keeps_documents_trans(old(self), &loaded, self);
                }
                Err(e)
            },
        }
    }
}

impl<L: UrlLoader> Default for Compiler<L> {
    fn default() -> (r: Self)
        ensures
            r.wf(),
            r.roots@.len() == 0,
            r.loaders@.len() == 0,
            r.default_draft == Draft::V2020_12,
            !r.assert_format,
            !r.assert_content,
    {
        Compiler::new()
    }
}

} // verus!
