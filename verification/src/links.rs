//! Resource and link URLs: resolving an attribute's URL against the
//! document's URL, and the stylesheets a document links to.
use vstd::prelude::*;
use crate::dom::StrMap;
use crate::text::{chars_eq_str, chars_of, to_lowercase, unicode_lowercase};

verus! {

/// The serialization of the URL that `url::Url::parse` makes of `input`,
/// or `None` when it refuses `input`.
pub uninterp spec fn url_parsed(input: Seq<char>) -> Option<Seq<char>>;

/// The serialization of the URL that `url::Url::join` makes of `input`
/// against the URL that `base` serializes, or `None` when `base` is not a
/// URL or the join fails.
pub uninterp spec fn url_joined(base: Seq<char>, input: Seq<char>) -> Option<Seq<char>>;

/// `url::Url::parse`, giving the serialization of the parsed URL. The
/// contract claims only that the result is the fixed function `url_parsed`
/// of the input: the parse is deterministic and reads nothing else.
#[verifier::external_body]
fn parse_url(input: &str) -> (r: Option<String>)
    ensures
        match r {
            Some(s) => url_parsed(input@) == Some(s@),
            None => url_parsed(input@) is None,
        },
{
    match url::Url::parse(input) {
        Ok(u) => Some(String::from(u)),
        Err(_) => None,
    }
}

/// `url::Url::join` of `input` onto the URL that `base` serializes, giving
/// the serialization of the result. The contract claims only that the
/// result is the fixed function `url_joined` of the two strings.
#[verifier::external_body]
fn join_url(base: &str, input: &str) -> (r: Option<String>)
    ensures
        match r {
            Some(s) => url_joined(base@, input@) == Some(s@),
            None => url_joined(base@, input@) is None,
        },
{
    match url::Url::parse(base) {
        Ok(b) => match b.join(input) {
            Ok(u) => Some(String::from(u)),
            Err(_) => None,
        },
        Err(_) => None,
    }
}

/// Where a URL written in a document points: joined onto the document's
/// URL when it has one; otherwise only an absolute URL resolves.
pub open spec fn resolved_url(base: Option<Seq<char>>, raw: Seq<char>) -> Option<Seq<char>> {
    match base {
        Some(b) => url_joined(b, raw),
        None => url_parsed(raw),
    }
}

/// Resolves a link's or a resource's URL against the document's URL
/// (`base`, the serialization of the document's URL, if it has one).
pub fn resolve_url(base: Option<&str>, raw: &str) -> (r: Option<String>)
    ensures
        match r {
            Some(s) => resolved_url(
                match base {
                    Some(b) => Some(b@),
                    None => None,
                },
                raw@,
            ) == Some(s@),
            None => resolved_url(
                match base {
                    Some(b) => Some(b@),
                    None => None,
                },
                raw@,
            ) is None,
        },
{
    match base {
        Some(b) => join_url(b, raw),
        None => parse_url(raw),
    }
}

/// Whether a `<link>` with these attributes loads a stylesheet: its `rel`,
/// lower-cased, is exactly `stylesheet`.
pub open spec fn links_stylesheet(attributes: StrMap) -> bool {
    attributes.get_spec("rel"@) matches Some(rel) && unicode_lowercase(rel) == "stylesheet"@
}

/// The URLs of the stylesheets that the `<link>` elements `links[0..n]`
/// load, in document order: each stylesheet link with an `href` that
/// resolves against `base`.
pub open spec fn stylesheet_urls(links: Seq<StrMap>, base: Option<Seq<char>>, n: int) -> Seq<
    Seq<char>,
>
    decreases n,
{
    if n <= 0 {
        Seq::empty()
    } else {
        let prev = stylesheet_urls(links, base, n - 1);
        let l = links[n - 1];
        if links_stylesheet(l) && l.get_spec("href"@) is Some && resolved_url(
            base,
            l.get_spec("href"@)->0,
        ) is Some {
            prev.push(resolved_url(base, l.get_spec("href"@)->0)->0)
        } else {
            prev
        }
    }
}

/// The stylesheets a document links to: `links` holds the attributes of its
/// `<link>` elements in document order, `base` the serialization of its URL.
pub fn external_stylesheets(links: &[StrMap], base: Option<&str>) -> (r: Vec<String>)
    ensures
        r@.len() == stylesheet_urls(
            links@,
            match base {
                Some(b) => Some(b@),
                None => None,
            },
            links@.len() as int,
        ).len(),
        forall|k: int|
            0 <= k < r@.len() ==> (#[trigger] r@[k])@ == stylesheet_urls(
                links@,
                match base {
                    Some(b) => Some(b@),
                    None => None,
                },
                links@.len() as int,
            )[k],
{
    let ghost bv = match base {
        Some(b) => Some(b@),
        None => None,
    };
    let mut out: Vec<String> = Vec::new();
    let mut i: usize = 0;
    while i < links.len()
        invariant
            i <= links@.len(),
            bv == match base {
                Some(b) => Some(b@),
                None => None::<Seq<char>>,
            },
            out@.len() == stylesheet_urls(links@, bv, i as int).len(),
            forall|k: int|
                0 <= k < out@.len() ==> (#[trigger] out@[k])@ == stylesheet_urls(
                    links@,
                    bv,
                    i as int,
                )[k],
        decreases links@.len() - i,
    {
        let l = &links[i];
        let is_sheet = match l.get("rel") {
            Some(rel) => {
                let rc = chars_of(rel.as_str());
                let lower = to_lowercase(&rc);
                chars_eq_str(&lower, "stylesheet")
            },
            None => false,
        };
        if is_sheet {
            match l.get("href") {
                Some(href) => {
                    match resolve_url(base, href.as_str()) {
                        Some(u) => {
                            let ghost before = out@;
                            out.push(u);
                            proof {
                                assert forall|k: int| 0 <= k < out@.len() implies (
                                #[trigger] out@[k])@ == stylesheet_urls(
                                    links@,
                                    bv,
                                    i + 1,
                                )[k] by {
                                    if k < before.len() {
                                        assert(out@[k] == before[k]);
                                    }
                                }
                            }
                        },
                        None => {},
                    }
                },
                None => {},
            }
        }
        i = i + 1;
    }
    out
}

/// An `<img>` element as image discovery reads it.
#[derive(Debug, Clone)]
pub struct ImageElement {
    pub attributes: StrMap,
    /// The candidate chosen from its `srcset` attribute, when it has one
    /// that offers a candidate.
    pub srcset_choice: Option<String>,
}

/// The URL an image loads from, as written: the `srcset` choice when there
/// is one (that is what `srcset` is for), else the `src` attribute.
pub open spec fn image_choice(e: ImageElement) -> Option<Seq<char>> {
    match e.srcset_choice {
        Some(c) => Some(c@),
        None => e.attributes.get_spec("src"@),
    }
}

/// The `(as written, resolved)` URLs of the images `images[0..n]` load, in
/// document order; an image whose URL does not resolve is left out.
pub open spec fn image_urls(images: Seq<ImageElement>, base: Option<Seq<char>>, n: int) -> Seq<
    (Seq<char>, Seq<char>),
>
    decreases n,
{
    if n <= 0 {
        Seq::empty()
    } else {
        let prev = image_urls(images, base, n - 1);
        let e = images[n - 1];
        match image_choice(e) {
            Some(raw) => match resolved_url(base, raw) {
                Some(u) => prev.push((raw, u)),
                None => prev,
            },
            None => prev,
        }
    }
}

/// The images a document loads: for each `<img>` in document order, the
/// URL it names (see `image_choice`) and that URL resolved against `base`.
pub fn discover_images(images: &[ImageElement], base: Option<&str>) -> (r: Vec<(String, String)>)
    ensures
        r@.len() == image_urls(
            images@,
            match base {
                Some(b) => Some(b@),
                None => None,
            },
            images@.len() as int,
        ).len(),
        forall|k: int|
            0 <= k < r@.len() ==> (#[trigger] r@[k]).0@ == image_urls(
                images@,
                match base {
                    Some(b) => Some(b@),
                    None => None,
                },
                images@.len() as int,
            )[k].0 && r@[k].1@ == image_urls(
                images@,
                match base {
                    Some(b) => Some(b@),
                    None => None,
                },
                images@.len() as int,
            )[k].1,
{
    let ghost bv = match base {
        Some(b) => Some(b@),
        None => None,
    };
    let mut out: Vec<(String, String)> = Vec::new();
    let mut i: usize = 0;
    while i < images.len()
        invariant
            i <= images@.len(),
            bv == match base {
                Some(b) => Some(b@),
                None => None::<Seq<char>>,
            },
            out@.len() == image_urls(images@, bv, i as int).len(),
            forall|k: int|
                0 <= k < out@.len() ==> (#[trigger] out@[k]).0@ == image_urls(
                    images@,
                    bv,
                    i as int,
                )[k].0 && out@[k].1@ == image_urls(images@, bv, i as int)[k].1,
        decreases images@.len() - i,
    {
        let e = &images[i];
        let chosen: Option<String> = match &e.srcset_choice {
            Some(c) => Some(c.clone()),
            None => e.attributes.get("src"),
        };
        match chosen {
            Some(raw) => {
                match resolve_url(base, raw.as_str()) {
                    Some(u) => {
                        let ghost before = out@;
                        out.push((raw, u));
                        proof {
                            assert forall|k: int| 0 <= k < out@.len() implies (
                            #[trigger] out@[k]).0@ == image_urls(images@, bv, i + 1)[k].0
                                && out@[k].1@ == image_urls(images@, bv, i + 1)[k].1 by {
                                if k < before.len() {
                                    assert(out@[k] == before[k]);
                                }
                            }
                        }
                    },
                    None => {},
                }
            },
            None => {},
        }
        i = i + 1;
    }
    out
}

} // verus!
