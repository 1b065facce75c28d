//! A search engine: a base URL template with one `{}` placeholder for the
//! percent-encoded query, and a link-extraction pattern with a capture group
//! named `link`. Building the request URL, extracting and resolving result
//! links, filtering them and truncating to the configured maximum all happen
//! here; the HTTP request itself is the caller's business.

use vstd::prelude::*;

use crate::filter::{filter_links, spec_accepts, FilterConfig, FilterConfigView};
use crate::outside::{
    capture_links, link_captures, pattern_is_valid, pattern_ok, percent_encode_query,
    percent_encoded, resolve_link, resolved, url_is_valid, url_ok,
};
use crate::text::{chars_of, replace_all_spec, replace_chars, string_of};

verus! {

/// The `{}` placeholder that the query replaces in a URL template.
pub open spec fn placeholder() -> Seq<char> {
    seq!['{', '}']
}

/// The mathematical content of an `Engine`: its two configured strings.
pub struct EngineView {
    pub base_url: Seq<char>,
    pub pattern: Seq<char>,
}

/// One configured search engine. Immutable once built; `build_engines`
/// validates the URL and the pattern before any engine exists.
#[derive(Debug)]
pub struct Engine {
    base_url: String,
    link_pattern: String,
}

impl View for Engine {
    type V = EngineView;

    closed spec fn view(&self) -> EngineView {
        EngineView { base_url: self.base_url@, pattern: self.link_pattern@ }
    }
}

/// The links extracted from a result page: the `link` capture of every
/// match of the pattern, resolved against the base URL; a match without a
/// participating `link` group contributes nothing.
pub open spec fn spec_extracted(base: Seq<char>, pattern: Seq<char>, text: Seq<char>) -> Seq<
    Seq<char>,
> {
    link_captures(pattern, text).filter_map(
        (|c: Option<Seq<char>>| match c {
            Some(href) => Some(resolved(base, href)),
            None => None,
        }),
    )
}

/// The first `max` links where a maximum is set and undershot, all of them
/// otherwise.
pub open spec fn spec_truncated(links: Seq<Seq<char>>, max: Option<int>) -> Seq<Seq<char>> {
    match max {
        None => links,
        Some(m) => if m <= links.len() {
            links.take(m)
        } else {
            links
        },
    }
}

/// What one engine contributes for one fetched result page: the extracted
/// links that the filter accepts, in extraction order, truncated to the
/// configured maximum.
pub open spec fn spec_dispatch_links(
    e: EngineView,
    body: Seq<char>,
    query: Seq<char>,
    cfg: FilterConfigView,
) -> Seq<Seq<char>> {
    spec_truncated(
        spec_extracted(e.base_url, e.pattern, body).filter(
            |l: Seq<char>| spec_accepts(l, query, cfg),
        ),
        cfg.max_links,
    )
}

impl Engine {
    /// Wraps the two configured strings; `build_engines` validates them
    /// first.
    fn new(base_url: String, contents_pattern: String) -> (r: Engine)
        ensures
            r@.base_url == base_url@,
            r@.pattern == contents_pattern@,
    {
        Engine { base_url, link_pattern: contents_pattern }
    }

    /// The request URL for a query: the percent-encoded query substituted
    /// for every `{}` in the base template.
    pub fn request_url(&self, query: &str) -> (r: String)
        ensures
            r@ == replace_all_spec(self@.base_url, placeholder(), percent_encoded(query@)),
    {
        let encoded = percent_encode_query(query);
        let base_cs = chars_of(self.base_url.as_str());
        let pat: Vec<char> = vec!['{', '}'];
        assert(pat@ =~= placeholder());
        let rep = chars_of(encoded.as_str());
        let out = replace_chars(&base_cs, &pat, &rep);
        string_of(&out)
    }

    /// Extracts every result link from a page and resolves it against the
    /// base URL.
    pub fn extract_links(&self, search_results: &str) -> (r: Vec<String>)
        ensures
            r.deep_view() == spec_extracted(self@.base_url, self@.pattern, search_results@),
    {
        let ghost f = (|c: Option<Seq<char>>| match c {
            Some(href) => Some(resolved(self@.base_url, href)),
            None => None,
        });
        let caps = capture_links(self.link_pattern.as_str(), search_results);
        let ghost cv = caps.deep_view();
        let mut r: Vec<String> = Vec::new();
        let mut i: usize = 0;
        proof {
            assert(cv.take(0) =~= Seq::<Option<Seq<char>>>::empty());
            assert(cv.take(0).filter_map(f) =~= Seq::<Seq<char>>::empty());
            assert(r.deep_view() =~~= Seq::<Seq<char>>::empty());
        }
        while i < caps.len()
            invariant
                i <= caps@.len(),
                cv == caps.deep_view(),
                cv.len() == caps@.len(),
                f == (|c: Option<Seq<char>>| match c {
                    Some(href) => Some(resolved(self@.base_url, href)),
                    None => None,
                }),
                r.deep_view() == cv.take(i as int).filter_map(f),
            decreases caps@.len() - i,
        {
            assert(cv[i as int] == caps@[i as int].deep_view());
            proof {
                cv.lemma_filter_map_take_succ(f, i as int);
            }
            match &caps[i] {
                Some(href) => {
                    let full = resolve_link(self.base_url.as_str(), href.as_str());
                    let ghost old_r = r.deep_view();
                    r.push(full);
                    assert(r.deep_view() =~~= old_r.push(resolved(self@.base_url, href@)));
                    assert(cv[i as int] == Some(href@));
                },
                None => {
                    assert(cv[i as int] is None);
                },
            }
            i = i + 1;
            assert(r.deep_view() =~~= cv.take(i as int).filter_map(f));
        }
        assert(cv.take(cv.len() as int) =~= cv);
        assert(r.deep_view() =~~= spec_extracted(self@.base_url, self@.pattern, search_results@));
        r
    }

    /// Turns one fetched result page into this engine's link contribution:
    /// extraction, resolution, filtering and truncation. The caller fetches
    /// the page at `request_url` and hands the body in.
    pub fn process_response(&self, body: &str, query: &str, cfg: &FilterConfig) -> (r: Vec<String>)
        requires
            cfg.wf(),
        ensures
            r.deep_view() == spec_dispatch_links(self@, body@, query@, cfg@),
    {
        let mut links = self.extract_links(body);
        filter_links(&mut links, query, cfg);
        let ghost filtered = links.deep_view();
        let max_links = match cfg.max_links {
            Some(max) => if max <= links.len() {
                max
            } else {
                links.len()
            },
            None => links.len(),
        };
        let mut r: Vec<String> = Vec::new();
        let mut i: usize = 0;
        assert(r.deep_view() =~~= Seq::<Seq<char>>::empty());
        while i < max_links
            invariant
                i <= max_links <= links@.len(),
                filtered == links.deep_view(),
                filtered.len() == links@.len(),
                r.deep_view() == filtered.take(i as int),
            decreases max_links - i,
        {
            let ghost old_r = r.deep_view();
            let l = links[i].clone();
            r.push(l);
            assert(links.deep_view()[i as int] == links@[i as int]@);
            assert(r.deep_view() =~~= old_r.push(filtered[i as int]));
            i = i + 1;
            assert(r.deep_view() =~~= filtered.take(i as int));
        }
        proof {
            match cfg@.max_links {
                None => {
                    assert(filtered.take(filtered.len() as int) =~= filtered);
                },
                Some(m) => {
                    if m > filtered.len() {
                        assert(filtered.take(filtered.len() as int) =~= filtered);
                    }
                },
            }
        }
        r
    }
}

/// One engine's configuration: a URL template and a link pattern, as read
/// from the `url` and `regex` keys of an engine table.
#[derive(Debug)]
pub struct EngineDescriptor {
    pub url: String,
    pub regex: String,
}

/// Why a set of engine descriptors cannot be built.
#[derive(Debug)]
pub enum ConfigError {
    /// This `url` value does not parse as an absolute URL.
    InvalidUrl(String),
    /// This `regex` value does not compile as a regular expression.
    InvalidPattern(String),
}

/// Builds every engine from its descriptor, in order, validating eagerly:
/// the result is `Ok` exactly when every URL parses and every pattern
/// compiles, and the first offending value comes back in the error.
pub fn build_engines(descriptors: &Vec<EngineDescriptor>) -> (r: Result<Vec<Engine>, ConfigError>)
    ensures
        match r {
            Ok(engines) => {
                &&& engines@.len() == descriptors@.len()
                &&& forall|i: int|
                    0 <= i < engines@.len() ==> {
                        &&& (#[trigger] engines@[i])@.base_url == descriptors@[i].url@
                        &&& engines@[i]@.pattern == descriptors@[i].regex@
                    }
                &&& forall|i: int|
                    0 <= i < descriptors@.len() ==> url_ok(#[trigger] descriptors@[i].url@)
                        && pattern_ok(descriptors@[i].regex@)
            },
            Err(e) => match e {
                ConfigError::InvalidUrl(u) => exists|i: int|
                    0 <= i < descriptors@.len() && u@ == (#[trigger] descriptors@[i]).url@
                        && !url_ok(descriptors@[i].url@),
                ConfigError::InvalidPattern(p) => exists|i: int|
                    0 <= i < descriptors@.len() && p@ == (#[trigger] descriptors@[i]).regex@
                        && !pattern_ok(descriptors@[i].regex@),
            },
        },
{
    let mut engines: Vec<Engine> = Vec::new();
    let mut i: usize = 0;
    while i < descriptors.len()
        invariant
            i <= descriptors@.len(),
            engines@.len() == i,
            forall|k: int|
                0 <= k < i ==> {
                    &&& (#[trigger] engines@[k])@.base_url == descriptors@[k].url@
                    &&& engines@[k]@.pattern == descriptors@[k].regex@
                },
            forall|k: int| 0 <= k < i ==> url_ok(#[trigger] descriptors@[k].url@),
            forall|k: int| 0 <= k < i ==> pattern_ok(#[trigger] descriptors@[k].regex@),
        decreases descriptors@.len() - i,
    {
        let d = &descriptors[i];
        if !url_is_valid(d.url.as_str()) {
            return Err(ConfigError::InvalidUrl(d.url.clone()));
        }
        if !pattern_is_valid(d.regex.as_str()) {
            return Err(ConfigError::InvalidPattern(d.regex.clone()));
        }
        assert(url_ok(descriptors@[i as int].url@));
        assert(pattern_ok(descriptors@[i as int].regex@));
        engines.push(Engine::new(d.url.clone(), d.regex.clone()));
        i = i + 1;
    }
    Ok(engines)
}

} // verus!
