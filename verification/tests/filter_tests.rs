use heated_words::filter::{accepts, FilterConfig, Ratio};

fn base_config() -> FilterConfig {
    // The documented defaults: match threshold 0.00, extra threshold 1.00.
    FilterConfig::permissive()
}

#[test]
fn pathless_link_always_accepted() {
    // A bare domain is accepted whatever the thresholds and word rules say.
    let mut cfg = base_config();
    cfg.match_threshold = Ratio { num: 1, den: 1 };
    cfg.extra_threshold = Ratio { num: 0, den: 1 };
    cfg.required_words = vec!["zzz".to_string()];
    assert!(accepts("http://example.com", "some query", &cfg));
    assert!(accepts("http://example.com/", "some query", &cfg));
    assert!(accepts("https://example.com", "", &cfg));
}

#[test]
fn link_without_http_scheme_is_pathless() {
    let mut cfg = base_config();
    cfg.required_words = vec!["zzz".to_string()];
    assert!(accepts("ftp://example.com/a/b", "query", &cfg));
    assert!(accepts("not a link at all", "query", &cfg));
}

#[test]
fn tokenless_path_accepted_before_word_rules() {
    // A path that holds no alphanumeric token is accepted even though the
    // required word is missing.
    let mut cfg = base_config();
    cfg.required_words = vec!["zzz".to_string()];
    assert!(accepts("http://example.com/---", "query", &cfg));
}

#[test]
fn permissive_config_accepts_plain_links() {
    let cfg = base_config();
    assert!(accepts("http://example.com/anything-at-all", "unrelated query", &cfg));
    assert!(accepts("http://example.com/a/b/c/d", "", &cfg));
}

#[test]
fn excluded_word_rejects_even_when_permissive() {
    let mut cfg = base_config();
    cfg.excluded_words = vec!["spam".to_string()];
    assert!(!accepts("http://example.com/spam-corner", "query", &cfg));
    assert!(accepts("http://example.com/ham-corner", "query", &cfg));
}

#[test]
fn required_word_rejection_is_monotonic_scenario() {
    // A link rejected for want of one required word stays rejected when one
    // more required word is added.
    let mut cfg = base_config();
    cfg.required_words = vec!["zzz".to_string()];
    assert!(!accepts("http://example.com/news-today", "query", &cfg));
    cfg.required_words.push("news".to_string());
    assert!(!accepts("http://example.com/news-today", "query", &cfg));
    // And an accepted link can only lose by the addition, never a rejected
    // link gain.
    let mut cfg2 = base_config();
    cfg2.required_words = vec!["news".to_string()];
    assert!(accepts("http://example.com/news-today", "query", &cfg2));
    cfg2.required_words.push("zzz".to_string());
    assert!(!accepts("http://example.com/news-today", "query", &cfg2));
}

#[test]
fn required_words_match_case_insensitively() {
    // The required word and the path are both lowercased before the check.
    let mut cfg = base_config();
    cfg.required_words = vec!["NEWS".to_string()];
    assert!(accepts("http://example.com/live-News-feed", "query", &cfg));
    assert!(!accepts("http://example.com/live-sports-feed", "query", &cfg));
}

#[test]
fn bypass_rule_short_circuits_word_rules() {
    // One path token, fewer than the two query tokens and within the bypass
    // limit: accepted although the required word is missing.
    let mut cfg = base_config();
    cfg.word_bypass_limit = 1;
    cfg.required_words = vec!["zzz".to_string()];
    assert!(accepts("http://example.com/solo", "two words", &cfg));
    // Two path tokens exceed the limit, so the required rule bites.
    assert!(!accepts("http://example.com/two-tokens", "three word query", &cfg));
}

#[test]
fn ignored_patterns_are_stripped_before_counting() {
    // With the first two tokens stripped away, one token is left, which is
    // below the bypass limit; without stripping the link fails the match
    // threshold.
    let mut cfg = base_config();
    cfg.match_threshold = Ratio { num: 1, den: 1 };
    cfg.word_bypass_limit = 2;
    assert!(!accepts("http://example.com/abc-def-ghi", "hello there", &cfg));
    cfg.ignored_patterns = vec!["abc|def".to_string()];
    assert!(accepts("http://example.com/abc-def-ghi", "hello there", &cfg));
}

#[test]
fn excluded_words_check_raw_path_before_stripping() {
    // The ignored pattern removes "spam" from the path, but the excluded
    // rule looks at the raw path and still rejects.
    let mut cfg = base_config();
    cfg.ignored_patterns = vec!["spam".to_string()];
    cfg.excluded_words = vec!["spam".to_string()];
    assert!(!accepts("http://example.com/spam-stuff", "query", &cfg));
}

#[test]
fn match_and_extra_ratios_are_exact() {
    // Query "alpha beta" against path "alpha-beta-gamma": both query tokens
    // match, one path token of three is extra.
    let link = "http://example.com/alpha-beta-gamma";
    let query = "alpha beta";
    // extra ratio 1/3 is exactly reached: accepted.
    let mut cfg = base_config();
    cfg.extra_threshold = Ratio { num: 1, den: 3 };
    assert!(accepts(link, query, &cfg));
    // 33/100 lies just below 1/3: rejected.
    cfg.extra_threshold = Ratio { num: 33, den: 100 };
    assert!(!accepts(link, query, &cfg));
}

#[test]
fn match_threshold_rejects_unmatched_queries() {
    let mut cfg = base_config();
    cfg.match_threshold = Ratio { num: 1, den: 2 };
    // One of two query tokens matches: exactly 1/2, accepted.
    assert!(accepts("http://example.com/alpha-x", "alpha beta", &cfg));
    // None of two matches: rejected.
    assert!(!accepts("http://example.com/gamma-x", "alpha beta", &cfg));
}

#[test]
fn token_matching_ignores_ascii_case() {
    let mut cfg = base_config();
    cfg.match_threshold = Ratio { num: 1, den: 1 };
    assert!(accepts("http://example.com/ALPHA-BETA", "alpha beta", &cfg));
}
