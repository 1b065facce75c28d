use heated_words::engine::{build_engines, ConfigError, EngineDescriptor};
use heated_words::filter::FilterConfig;

fn permissive() -> FilterConfig {
    FilterConfig::permissive()
}

fn one_engine(url: &str, regex: &str) -> heated_words::engine::Engine {
    let descriptors = vec![EngineDescriptor { url: url.to_string(), regex: regex.to_string() }];
    build_engines(&descriptors).unwrap().pop().unwrap()
}

const HREF_PATTERN: &str = "href=\"(?P<link>[^\"]+)\"";

#[test]
fn build_engines_validates_urls() {
    let descriptors = vec![EngineDescriptor {
        url: "not a url".to_string(),
        regex: HREF_PATTERN.to_string(),
    }];
    let r = build_engines(&descriptors);
    assert!(matches!(r, Err(ConfigError::InvalidUrl(u)) if u == "not a url"));
}

#[test]
fn build_engines_validates_patterns() {
    let descriptors = vec![EngineDescriptor {
        url: "http://example.com/search?q={}".to_string(),
        regex: "(".to_string(),
    }];
    let r = build_engines(&descriptors);
    assert!(matches!(r, Err(ConfigError::InvalidPattern(p)) if p == "("));
}

#[test]
fn build_engines_builds_all_valid_descriptors() {
    let descriptors = vec![
        EngineDescriptor {
            url: "http://one.example.com/s?q={}".to_string(),
            regex: HREF_PATTERN.to_string(),
        },
        EngineDescriptor {
            url: "http://two.example.com/find/{}".to_string(),
            regex: HREF_PATTERN.to_string(),
        },
    ];
    let engines = build_engines(&descriptors).unwrap();
    assert_eq!(engines.len(), 2);
}

#[test]
fn request_url_percent_encodes_the_query() {
    let engine = one_engine("http://example.com/search?q={}", HREF_PATTERN);
    assert_eq!(engine.request_url("test query"), "http://example.com/search?q=test%20query");
}

#[test]
fn extract_links_resolves_relative_references() {
    let engine = one_engine("http://example.com/search?q={}", HREF_PATTERN);
    let body = "<a href=\"/page/one\">first</a> <a href=\"http://other.example.com/two\">second</a>";
    let links = engine.extract_links(body);
    assert_eq!(
        links,
        vec![
            "http://example.com/page/one".to_string(),
            "http://other.example.com/two".to_string(),
        ]
    );
}

#[test]
fn extract_links_without_the_link_group_yields_nothing() {
    let engine = one_engine("http://example.com/search?q={}", "href=\"([^\"]+)\"");
    let body = "<a href=\"/page/one\">first</a>";
    let links = engine.extract_links(body);
    assert_eq!(links, Vec::<String>::new());
}

#[test]
fn truncation_keeps_the_first_links_in_extraction_order() {
    // Five accepted links and a maximum of two: exactly the first two come
    // back.
    let engine = one_engine("http://example.com/search?q={}", HREF_PATTERN);
    let body = "<a href=\"http://ex.com/a1\"></a><a href=\"http://ex.com/b2\"></a>\
                <a href=\"http://ex.com/c3\"></a><a href=\"http://ex.com/d4\"></a>\
                <a href=\"http://ex.com/e5\"></a>";
    let mut cfg = permissive();
    cfg.max_links = Some(2);
    let links = engine.process_response(body, "query", &cfg);
    assert_eq!(links, vec!["http://ex.com/a1".to_string(), "http://ex.com/b2".to_string()]);
    // Without the cap all five come back.
    let all = engine.process_response(body, "query", &permissive());
    assert_eq!(all.len(), 5);
}

#[test]
fn end_to_end_query_dispatch() {
    // One engine, a mocked response with three links: two carry the
    // required word, one carries an excluded word; exactly the two filtered,
    // absolutely resolved links remain.
    let engine = one_engine("http://example.com/search?q={}", HREF_PATTERN);
    let url = engine.request_url("test query");
    assert_eq!(url, "http://example.com/search?q=test%20query");
    let body = "<a href=\"http://foo.example.com/test-query-results\">A</a>\
                <a href=\"/relative/test-query-page\">B</a>\
                <a href=\"http://bar.example.com/spam-test-query\">C</a>";
    let mut cfg = permissive();
    cfg.required_words = vec!["test".to_string()];
    cfg.excluded_words = vec!["spam".to_string()];
    let links = engine.process_response(body, "test query", &cfg);
    assert_eq!(
        links,
        vec![
            "http://foo.example.com/test-query-results".to_string(),
            "http://example.com/relative/test-query-page".to_string(),
        ]
    );
}
