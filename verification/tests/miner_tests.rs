use heated_words::miner::parse;

#[test]
fn capitalized_phrase_yields_every_slice() {
    // "New York City" is one capitalized run; its three words give three
    // singletons, two pairs and one triple, shorter slices first.
    let mut body = "New York City".to_string();
    let (critical, plain) = parse(&mut body);
    assert_eq!(
        critical,
        vec![
            "New".to_string(),
            "York".to_string(),
            "City".to_string(),
            "NewYork".to_string(),
            "YorkCity".to_string(),
            "NewYorkCity".to_string(),
        ]
    );
    // No cleaned word is longer than four characters here.
    assert_eq!(plain, Vec::<String>::new());
}

#[test]
fn short_capitalized_runs_are_skipped() {
    // "Hi Ho" is a run of five characters, so it is sliced; "Ab" is not.
    let mut body = "Hi Ho and Ab".to_string();
    let (critical, _plain) = parse(&mut body);
    assert_eq!(
        critical,
        vec!["Hi".to_string(), "Ho".to_string(), "HiHo".to_string()]
    );
}

#[test]
fn hyphenated_capitalized_words_join() {
    let mut body = "Co-Founder".to_string();
    let (critical, _plain) = parse(&mut body);
    assert_eq!(
        critical,
        vec!["Co".to_string(), "Founder".to_string(), "CoFounder".to_string()]
    );
}

#[test]
fn cleaning_strips_in_order() {
    let mut body = "<script>var x = 1;</script><style>p { color: red; }</style>\
                    <p>Visible&nbsp;words&copy; 123 45.67 remain</p>"
        .to_string();
    let (_critical, plain) = parse(&mut body);
    assert_eq!(body, "Visible words  ".to_string() + " remain");
    assert_eq!(plain, vec!["Visible".to_string(), "words".to_string(), "remain".to_string()]);
}

#[test]
fn script_blocks_go_before_tags() {
    // The script body would survive the tag pass alone; the script pass
    // removes it wholesale.
    let mut body = "<script type=\"a\">secretword</script>keptword".to_string();
    let (_critical, plain) = parse(&mut body);
    assert_eq!(plain, vec!["keptword".to_string()]);
}

#[test]
fn numbers_vanish_whole() {
    let mut body = "abcde 123 4.5 67.89 fghij".to_string();
    let (_critical, plain) = parse(&mut body);
    assert_eq!(body, "abcde    fghij");
    assert_eq!(plain, vec!["abcde".to_string(), "fghij".to_string()]);
}

#[test]
fn entities_need_a_semicolon_on_the_same_line() {
    // "&stray" finds its ";" only beyond a newline, so it is no entity and
    // stays; "&amp;" goes.
    let mut body = "alpha&amp;betagamma &stray\nword; delta".to_string();
    let (_critical, plain) = parse(&mut body);
    assert_eq!(body, "alphabetagamma &stray\nword; delta");
    assert_eq!(
        plain,
        vec!["alphabetagamma".to_string(), "stray".to_string(), "delta".to_string()]
    );
}

#[test]
fn plain_words_keep_only_long_tokens() {
    let mut body = "tiny word bigger under_score longest".to_string();
    let (_critical, plain) = parse(&mut body);
    assert_eq!(
        plain,
        vec!["bigger".to_string(), "under_score".to_string(), "longest".to_string()]
    );
}

#[test]
fn mining_is_idempotent_on_plain_words() {
    let mut body = "<p>Some Grand Page</p> with wonderful hidden_words, 99 bottles \
                    and &amp; markup <b>galore</b> everywhere"
        .to_string();
    let (_critical, plain) = parse(&mut body);
    let joined = plain.join(" ");
    let mut again = joined.clone();
    let (_c2, plain2) = parse(&mut again);
    assert_eq!(plain2, plain);
}
