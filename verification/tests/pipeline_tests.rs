use heated_words::fetcher::Fetcher;
use heated_words::finalize::finish_wordlist;
use heated_words::spider::Spider;

#[test]
fn fetcher_keeps_its_url() {
    let f = Fetcher::new("http://example.com/page".to_string());
    assert_eq!(f.url(), "http://example.com/page");
}

#[test]
fn fetcher_emits_critical_words_before_plain_words() {
    let f = Fetcher::new("http://example.com/page".to_string());
    let words = f.process_body("Grand Canyon holds wonders");
    assert_eq!(
        words,
        vec![
            // Critical variants of the capitalized run "Grand Canyon" ...
            "Grand".to_string(),
            "Canyon".to_string(),
            "GrandCanyon".to_string(),
            // ... then the plain words of the cleaned text.
            "Grand".to_string(),
            "Canyon".to_string(),
            "holds".to_string(),
            "wonders".to_string(),
        ]
    );
}

#[test]
fn spider_builds_one_fetcher_per_link() {
    let spider = Spider::new(vec![
        "http://a.example.com/x".to_string(),
        "http://b.example.com/y".to_string(),
    ]);
    let fetchers = spider.build_fetchers();
    assert_eq!(fetchers.len(), 2);
    assert_eq!(fetchers[0].url(), "http://a.example.com/x");
    assert_eq!(fetchers[1].url(), "http://b.example.com/y");
}

#[test]
fn collect_takes_words_only_from_successful_fetches() {
    // Three links, one failed fetch: the word list holds exactly the words
    // of the two successes, in link order.
    let spider = Spider::new(vec![
        "http://a.example.com/x".to_string(),
        "http://b.example.com/y".to_string(),
        "http://c.example.com/z".to_string(),
    ]);
    let pages = vec![
        Some("Hello wonderful".to_string()),
        None,
        Some("<p>greatstuff</p>".to_string()),
    ];
    let words = spider.collect(&pages);
    assert_eq!(
        words,
        vec![
            "Hello".to_string(),
            "Hello".to_string(),
            "wonderful".to_string(),
            "greatstuff".to_string(),
        ]
    );
}

#[test]
fn collect_of_nothing_but_failures_is_empty() {
    let spider = Spider::new(vec![
        "http://a.example.com/x".to_string(),
        "http://b.example.com/y".to_string(),
    ]);
    let pages: Vec<Option<String>> = vec![None, None];
    assert_eq!(spider.collect(&pages), Vec::<String>::new());
}

#[test]
fn finish_wordlist_filters_dedups_and_blacklists() {
    let mut words = vec![
        "Apple".to_string(),
        "apple".to_string(),
        "BANANA".to_string(),
        "pear".to_string(),
        "strawberry".to_string(),
        "APPLE".to_string(),
    ];
    let blacklist = vec!["banana".to_string()];
    finish_wordlist(&mut words, 5, 10, &blacklist);
    assert_eq!(words, vec!["Apple".to_string(), "strawberry".to_string()]);
}

#[test]
fn finish_wordlist_keeps_order_of_first_occurrences() {
    let mut words = vec![
        "delta".to_string(),
        "echoes".to_string(),
        "DELTA".to_string(),
        "foxtrot".to_string(),
        "Echoes".to_string(),
    ];
    let blacklist: Vec<String> = Vec::new();
    finish_wordlist(&mut words, 1, 100, &blacklist);
    assert_eq!(
        words,
        vec!["delta".to_string(), "echoes".to_string(), "foxtrot".to_string()]
    );
}
