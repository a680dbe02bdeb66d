use jsonschema::util::split;
use jsonschema::{Anchor, CompileError, Fragment, JsonPointer, Url, UrlFrag, UrlPtr};

#[test]
fn url_is_kept_as_its_serialization() {
    let url = Url::parse("HTTP://Example.COM").unwrap();
    assert_eq!(url.as_str(), "http://example.com/");
    assert_eq!(url.to_string(), "http://example.com/");
    assert!(url.same(&Url::parse("http://example.com/").unwrap()));
    assert!(!url.same(&Url::parse("http://example.com/a").unwrap()));
    assert_eq!(url.clone(), url);
    assert_eq!(
        Url::parse("not a url").unwrap_err(),
        CompileError::ParseUrlError { url: "not a url".to_string() }
    );
    assert_eq!(
        Url::parse("relative/path.json").unwrap_err(),
        CompileError::ParseUrlError { url: "relative/path.json".to_string() }
    );
}

#[test]
fn url_join_resolves_against_the_base() {
    let base = Url::parse("http://example.com/a/b.json").unwrap();
    assert_eq!(base.join("c.json").unwrap().as_str(), "http://example.com/a/c.json");
    assert_eq!(base.join("/c.json").unwrap().as_str(), "http://example.com/c.json");
    assert_eq!(base.join("../c.json").unwrap().as_str(), "http://example.com/c.json");
    assert_eq!(base.join("http://other.example/x").unwrap().as_str(), "http://other.example/x");
    assert_eq!(base.join("").unwrap().as_str(), "http://example.com/a/b.json");
    assert_eq!(
        base.join("http://[").unwrap_err(),
        CompileError::ParseUrlError { url: "http://[".to_string() }
    );
}

#[test]
fn reference_is_cut_at_the_first_hash() {
    assert_eq!(split("http://a/b#c#d"), ("http://a/b", "c#d"));
    assert_eq!(split("http://a/b"), ("http://a/b", ""));
    assert_eq!(split("#"), ("", ""));
    assert_eq!(split(""), ("", ""));
    assert_eq!(split("#/a"), ("", "/a"));
}

#[test]
fn fragment_is_decoded_and_told_apart() {
    let (u, frag) = Fragment::split("http://a/b#foo").unwrap();
    assert_eq!(u, "http://a/b");
    assert_eq!(frag, Fragment::Anchor(Anchor("foo".to_string())));
    let (u, frag) = Fragment::split("#/a%20b/%7E0").unwrap();
    assert_eq!(u, "");
    assert_eq!(frag, Fragment::JsonPointer(JsonPointer::parse("/a b/~0").unwrap()));
    assert_eq!(frag.as_str(), "/a b/~0");
    let (_, frag) = Fragment::split("http://a/b").unwrap();
    assert_eq!(frag, Fragment::JsonPointer(JsonPointer::root()));
    let (_, frag) = Fragment::split("x#%C3%A9t%C3%A9").unwrap();
    assert_eq!(frag, Fragment::Anchor(Anchor("été".to_string())));
    assert_eq!(
        Fragment::split("x#%FF").unwrap_err(),
        CompileError::ParseUrlError { url: "x#%FF".to_string() }
    );
    assert_eq!(
        Fragment::from_decoded("/p".to_string()),
        Fragment::JsonPointer(JsonPointer::parse("/p").unwrap())
    );
    assert_eq!(Fragment::from_decoded(String::new()), Fragment::JsonPointer(JsonPointer::root()));
    assert_eq!(Fragment::from_decoded("n".to_string()), Fragment::Anchor(Anchor("n".to_string())));
    assert_eq!(frag.clone(), frag);
    assert_eq!(Anchor("n".to_string()).as_str(), "n");
}

#[test]
fn absolute_reference_has_a_url_and_a_fragment() {
    let uf = UrlFrag::absolute("http://example.com/a.json#/defs/x").unwrap();
    assert_eq!(uf.url.as_str(), "http://example.com/a.json");
    assert_eq!(uf.frag, Fragment::JsonPointer(JsonPointer::parse("/defs/x").unwrap()));
    assert_eq!(uf.to_string(), "http://example.com/a.json#/defs/x");
    let uf = UrlFrag::absolute("http://example.com/a.json").unwrap();
    assert_eq!(uf.to_string(), "http://example.com/a.json");
    assert_eq!(
        UrlFrag::absolute("a.json#x").unwrap_err(),
        CompileError::ParseUrlError { url: "a.json".to_string() }
    );
    assert_eq!(
        UrlFrag::absolute("http://example.com/a.json#%FF").unwrap_err(),
        CompileError::ParseUrlError { url: "http://example.com/a.json#%FF".to_string() }
    );
}

#[test]
fn relative_reference_is_resolved_against_its_base() {
    let base = Url::parse("http://example.com/a/b.json").unwrap();
    let uf = UrlFrag::join(&base, "#foo").unwrap();
    assert_eq!(uf.url.as_str(), "http://example.com/a/b.json");
    assert_eq!(uf.frag, Fragment::Anchor(Anchor("foo".to_string())));
    let uf = UrlFrag::join(&base, "c.json#/x").unwrap();
    assert_eq!(uf.url.as_str(), "http://example.com/a/c.json");
    assert_eq!(uf.frag.as_str(), "/x");
    assert_eq!(
        UrlFrag::join(&base, "http://[#x").unwrap_err(),
        CompileError::ParseUrlError { url: "http://[".to_string() }
    );
    assert_eq!(
        UrlFrag::join(&base, "c.json#%FF").unwrap_err(),
        CompileError::ParseUrlError { url: "c.json#%FF".to_string() }
    );
}

#[test]
fn locations_are_written_with_their_fragment() {
    let url = Url::parse("http://example.com/a.json").unwrap();
    assert_eq!(UrlFrag::format(&url, ""), "http://example.com/a.json");
    assert_eq!(UrlFrag::format(&url, "/a b"), "http://example.com/a.json#/a b");
    assert_eq!(UrlFrag::format(&url, "name"), "http://example.com/a.json#name");
    let up = UrlPtr { url: url.clone(), ptr: JsonPointer::parse("/x").unwrap() };
    assert_eq!(up.to_string(), "http://example.com/a.json#/x");
    assert!(up.same(&up.clone()));
    assert!(!up.same(&UrlPtr { url, ptr: JsonPointer::root() }));
}

#[test]
fn errors_are_put_in_words() {
    let text = |e: CompileError| e.to_string();
    assert_eq!(text(CompileError::ParseUrlError { url: "x y".into() }), "invalid url x y");
    assert_eq!(text(CompileError::ParseIdError { loc: "u#/a".into() }), "invalid identifier at u#/a");
    assert_eq!(text(CompileError::ParseAnchorError { loc: "u#/a".into() }), "invalid anchor at u#/a");
    assert_eq!(
        text(CompileError::DuplicateId { url: "u".into(), id: "i".into(), ptr1: "/a".into(), ptr2: "/b".into() }),
        "duplicate identifier i in u at /a and /b"
    );
    assert_eq!(
        text(CompileError::DuplicateAnchor { url: "u".into(), anchor: "n".into(), ptr1: "/a".into(), ptr2: "/b".into() }),
        "duplicate anchor n in u at /a and /b"
    );
    assert_eq!(
        text(CompileError::DynamicAnchorNotSupported { loc: "u#/a".into() }),
        "dynamic anchor not supported at u#/a"
    );
    assert_eq!(text(CompileError::InvalidJsonPointer("u#/~".into())), "invalid json pointer u#/~");
    assert_eq!(text(CompileError::JsonPointerNotFound("u#/a".into())), "json pointer not found u#/a");
    assert_eq!(
        text(CompileError::AnchorNotFound { url: "u".into(), reference: "u#n".into() }),
        "anchor not found in u for u#n"
    );
    assert_eq!(text(CompileError::NotASchema { loc: "u#/a".into() }), "not a schema at u#/a");
    assert_eq!(text(CompileError::UnsupportedDraft { url: "d".into() }), "unsupported draft d");
    assert_eq!(
        text(CompileError::UnsupportedUrlScheme { url: "ftp://x".into() }),
        "no loader for the scheme of ftp://x"
    );
    assert_eq!(
        text(CompileError::LoadUrlError { url: "u".into(), src: "gone".into() }),
        "error loading u: gone"
    );
    assert_eq!(
        text(CompileError::ResourceExists { url: "u".into() }),
        "another document is registered under u"
    );
}
