//! The text miner: strips a page body of script and style blocks, remaining
//! tags, entities and numeric tokens — in exactly that order, since each pass
//! works on the previous pass's output — then mines the cleaned text for two
//! token streams: critical-word variants from capitalized phrases, and plain
//! words.

use vstd::prelude::*;

use crate::text::{
    alpha_runs, alpha_words, append_range, chars_of, digit_end_at, digit_end_from, find_at,
    find_class_at, find_digit_at, find_digit_from, find_from, find_upper_at, find_upper_from,
    is_digit, is_digit_c, is_upper, is_upper_c, is_word_c, lemma_class_end,
    lemma_find_at_absent_char, lemma_find_at_some, lemma_find_class_at_none,
    lemma_find_class_at_some, replace_all_spec, replace_chars, string_of, word_end_at,
    word_end_from, word_runs, word_tokens,
};

verus! {

// ---------------------------------------------------------------------------
// Fixed fragments of the HTML grammar
// ---------------------------------------------------------------------------

pub open spec fn script_open() -> Seq<char> {
    seq!['<', 's', 'c', 'r', 'i', 'p', 't']
}

pub open spec fn script_close() -> Seq<char> {
    seq!['<', '/', 's', 'c', 'r', 'i', 'p', 't', '>']
}

pub open spec fn style_open() -> Seq<char> {
    seq!['<', 's', 't', 'y', 'l', 'e']
}

pub open spec fn style_close() -> Seq<char> {
    seq!['<', '/', 's', 't', 'y', 'l', 'e', '>']
}

pub open spec fn nbsp_entity() -> Seq<char> {
    seq!['&', 'n', 'b', 's', 'p', ';']
}

// ---------------------------------------------------------------------------
// Pass 1 and 2: script and style blocks
// ---------------------------------------------------------------------------

/// `t[i..]` with every block removed that begins with `open_tag`, runs
/// (shortest first) to a `>`, and then (shortest first) to `close_tag`.
/// Matches are non-overlapping and scanned left to right; where the three
/// parts cannot all be found, nothing more is removed.
pub open spec fn spec_strip_blocks(
    t: Seq<char>,
    open_tag: Seq<char>,
    close_tag: Seq<char>,
    i: int,
) -> Seq<char>
    decreases t.len() - i,
{
    if open_tag.len() == 0 || close_tag.len() == 0 {
        t.skip(i)
    } else {
        match find_at(t, open_tag, i) {
            None => t.skip(i),
            Some(s) => if s < i {
                t.skip(i)
            } else {
                match find_at(t, seq!['>'], s + open_tag.len()) {
                    None => t.skip(i),
                    Some(j) => if j < s + open_tag.len() {
                        t.skip(i)
                    } else {
                        match find_at(t, close_tag, j + 1) {
                            None => t.skip(i),
                            Some(k) => if k < j + 1 || k + close_tag.len() > t.len() {
                                t.skip(i)
                            } else {
                                t.subrange(i, s) + spec_strip_blocks(
                                    t,
                                    open_tag,
                                    close_tag,
                                    k + close_tag.len(),
                                )
                            },
                        }
                    },
                }
            },
        }
    }
}

/// Removes every `open_tag ... > ... close_tag` block from `t`.
fn strip_blocks(t: &Vec<char>, open_tag: &Vec<char>, close_tag: &Vec<char>) -> (r: Vec<char>)
    requires
        open_tag@.len() > 0,
        close_tag@.len() > 0,
    ensures
        r@ == spec_strip_blocks(t@, open_tag@, close_tag@, 0),
{
    let gt: Vec<char> = vec!['>'];
    assert(gt@ =~= seq!['>']);
    let n = t.len();
    let mut r: Vec<char> = Vec::new();
    let mut i: usize = 0;
    while i < n
        invariant
            i <= n,
            n == t@.len(),
            open_tag@.len() > 0,
            close_tag@.len() > 0,
            gt@ == seq!['>'],
            spec_strip_blocks(t@, open_tag@, close_tag@, 0) == r@ + spec_strip_blocks(
                t@,
                open_tag@,
                close_tag@,
                i as int,
            ),
        decreases n - i,
    {
        let ghost gi = i as int;
        let mut done = true;
        match find_from(t, open_tag, i) {
            None => {},
            Some(s) => {
                proof {
                    lemma_find_at_some(t@, open_tag@, gi);
                }
                match find_from(t, &gt, s + open_tag.len()) {
                    None => {},
                    Some(j) => {
                        proof {
                            lemma_find_at_some(t@, gt@, s + open_tag@.len());
                        }
                        match find_from(t, close_tag, j + 1) {
                            None => {},
                            Some(k) => {
                                proof {
                                    lemma_find_at_some(t@, close_tag@, j + 1);
                                }
                                append_range(&mut r, t, i, s);
                                i = k + close_tag.len();
                                done = false;
                                assert(spec_strip_blocks(t@, open_tag@, close_tag@, 0) =~= r@
                                    + spec_strip_blocks(t@, open_tag@, close_tag@, i as int));
                            },
                        }
                    },
                }
            },
        }
        if done {
            assert(spec_strip_blocks(t@, open_tag@, close_tag@, gi) == t@.skip(gi));
            append_range(&mut r, t, i, n);
            assert(t@.subrange(gi, n as int) =~= t@.skip(gi));
            i = n;
            assert(spec_strip_blocks(t@, open_tag@, close_tag@, n as int) =~= Seq::<
                char,
            >::empty());
            assert(spec_strip_blocks(t@, open_tag@, close_tag@, 0) =~= r@ + spec_strip_blocks(
                t@,
                open_tag@,
                close_tag@,
                n as int,
            ));
        }
    }
    assert(spec_strip_blocks(t@, open_tag@, close_tag@, i as int) =~= Seq::<char>::empty());
    assert(r@ =~= spec_strip_blocks(t@, open_tag@, close_tag@, 0));
    r
}

/// Removes every `<script ...> ... </script>` block, as the first pass of
/// the cleaning pipeline.
pub fn remove_scripts(t: &Vec<char>) -> (r: Vec<char>)
    ensures
        r@ == spec_strip_blocks(t@, script_open(), script_close(), 0),
{
    let open_tag: Vec<char> = vec!['<', 's', 'c', 'r', 'i', 'p', 't'];
    let close_tag: Vec<char> = vec!['<', '/', 's', 'c', 'r', 'i', 'p', 't', '>'];
    assert(open_tag@ =~= script_open());
    assert(close_tag@ =~= script_close());
    strip_blocks(t, &open_tag, &close_tag)
}

/// Removes every `<style ...> ... </style>` block, as the second pass.
pub fn remove_style(t: &Vec<char>) -> (r: Vec<char>)
    ensures
        r@ == spec_strip_blocks(t@, style_open(), style_close(), 0),
{
    let open_tag: Vec<char> = vec!['<', 's', 't', 'y', 'l', 'e'];
    let close_tag: Vec<char> = vec!['<', '/', 's', 't', 'y', 'l', 'e', '>'];
    assert(open_tag@ =~= style_open());
    assert(close_tag@ =~= style_close());
    strip_blocks(t, &open_tag, &close_tag)
}

// ---------------------------------------------------------------------------
// Pass 3: remaining tags
// ---------------------------------------------------------------------------

/// `t[i..]` with every `<` ... `>` span removed (shortest first, scanned
/// left to right).
pub open spec fn spec_strip_tags(t: Seq<char>, i: int) -> Seq<char>
    decreases t.len() - i,
{
    match find_at(t, seq!['<'], i) {
        None => t.skip(i),
        Some(s) => if s < i {
            t.skip(i)
        } else {
            match find_at(t, seq!['>'], s + 1) {
                None => t.skip(i),
                Some(j) => if j < s + 1 || j + 1 > t.len() {
                    t.skip(i)
                } else {
                    t.subrange(i, s) + spec_strip_tags(t, j + 1)
                },
            }
        },
    }
}

/// Removes every remaining HTML tag, as the third pass.
pub fn remove_html_nodes(t: &Vec<char>) -> (r: Vec<char>)
    ensures
        r@ == spec_strip_tags(t@, 0),
{
    let lt: Vec<char> = vec!['<'];
    let gt: Vec<char> = vec!['>'];
    assert(lt@ =~= seq!['<']);
    assert(gt@ =~= seq!['>']);
    let n = t.len();
    let mut r: Vec<char> = Vec::new();
    let mut i: usize = 0;
    while i < n
        invariant
            i <= n,
            n == t@.len(),
            lt@ == seq!['<'],
            gt@ == seq!['>'],
            spec_strip_tags(t@, 0) == r@ + spec_strip_tags(t@, i as int),
        decreases n - i,
    {
        let ghost gi = i as int;
        let mut done = true;
        match find_from(t, &lt, i) {
            None => {},
            Some(s) => {
                proof {
                    lemma_find_at_some(t@, lt@, gi);
                }
                match find_from(t, &gt, s + 1) {
                    None => {},
                    Some(j) => {
                        proof {
                            lemma_find_at_some(t@, gt@, s + 1);
                        }
                        append_range(&mut r, t, i, s);
                        i = j + 1;
                        done = false;
                        assert(spec_strip_tags(t@, 0) =~= r@ + spec_strip_tags(t@, i as int));
                    },
                }
            },
        }
        if done {
            assert(spec_strip_tags(t@, gi) == t@.skip(gi));
            append_range(&mut r, t, i, n);
            assert(t@.subrange(gi, n as int) =~= t@.skip(gi));
            i = n;
            assert(spec_strip_tags(t@, n as int) =~= Seq::<char>::empty());
            assert(spec_strip_tags(t@, 0) =~= r@ + spec_strip_tags(t@, n as int));
        }
    }
    assert(spec_strip_tags(t@, i as int) =~= Seq::<char>::empty());
    assert(r@ =~= spec_strip_tags(t@, 0));
    r
}

// ---------------------------------------------------------------------------
// Pass 4: entities — `&nbsp;` becomes a space, then `&` ... `;` spans go
// ---------------------------------------------------------------------------

/// `t[i..]` with every entity removed: a span from `&` to the first `;`
/// after it, provided no newline stands between them. An `&` whose first
/// following `;` lies beyond a newline starts no entity and is kept.
pub open spec fn spec_strip_entities(t: Seq<char>, i: int) -> Seq<char>
    decreases t.len() - i,
{
    match find_at(t, seq!['&'], i) {
        None => t.skip(i),
        Some(s) => if s < i {
            t.skip(i)
        } else {
            match find_at(t, seq![';'], s + 1) {
                None => t.skip(i),
                Some(j) => if j < s + 1 || j + 1 > t.len() {
                    t.skip(i)
                } else {
                    if exists|m: int| s < m < j && t[m] == '\n' {
                        t.subrange(i, s + 1) + spec_strip_entities(t, s + 1)
                    } else {
                        t.subrange(i, s) + spec_strip_entities(t, j + 1)
                    }
                },
            }
        },
    }
}

/// Is there a newline in `t[from..to)`?
fn has_newline_between(t: &Vec<char>, from: usize, to: usize) -> (r: bool)
    requires
        to <= t@.len(),
    ensures
        r == exists|m: int| from <= m < to && t@[m] == '\n',
{
    let mut k: usize = from;
    while k < to
        invariant
            from <= k,
            to <= t@.len(),
            forall|m: int| from <= m < k ==> t@[m] != '\n',
        decreases to - k,
    {
        if t[k] == '\n' {
            return true;
        }
        k = k + 1;
    }
    false
}

/// Removes every remaining `&` ... `;` entity (newline-free spans only).
fn strip_entities(t: &Vec<char>) -> (r: Vec<char>)
    ensures
        r@ == spec_strip_entities(t@, 0),
{
    let amp: Vec<char> = vec!['&'];
    let semi: Vec<char> = vec![';'];
    assert(amp@ =~= seq!['&']);
    assert(semi@ =~= seq![';']);
    let n = t.len();
    let mut r: Vec<char> = Vec::new();
    let mut i: usize = 0;
    while i < n
        invariant
            i <= n,
            n == t@.len(),
            amp@ == seq!['&'],
            semi@ == seq![';'],
            spec_strip_entities(t@, 0) == r@ + spec_strip_entities(t@, i as int),
        decreases n - i,
    {
        let ghost gi = i as int;
        let mut done = true;
        match find_from(t, &amp, i) {
            None => {},
            Some(s) => {
                proof {
                    lemma_find_at_some(t@, amp@, gi);
                }
                match find_from(t, &semi, s + 1) {
                    None => {},
                    Some(j) => {
                        proof {
                            lemma_find_at_some(t@, semi@, s + 1);
                        }
                        if has_newline_between(t, s + 1, j) {
                            // No entity starts at this `&`; keep it and scan on.
                            append_range(&mut r, t, i, s + 1);
                            i = s + 1;
                        } else {
                            append_range(&mut r, t, i, s);
                            i = j + 1;
                        }
                        done = false;
                        assert(spec_strip_entities(t@, 0) =~= r@ + spec_strip_entities(
                            t@,
                            i as int,
                        ));
                    },
                }
            },
        }
        if done {
            assert(spec_strip_entities(t@, gi) == t@.skip(gi));
            append_range(&mut r, t, i, n);
            assert(t@.subrange(gi, n as int) =~= t@.skip(gi));
            i = n;
            assert(spec_strip_entities(t@, n as int) =~= Seq::<char>::empty());
            assert(spec_strip_entities(t@, 0) =~= r@ + spec_strip_entities(t@, n as int));
        }
    }
    assert(spec_strip_entities(t@, i as int) =~= Seq::<char>::empty());
    assert(r@ =~= spec_strip_entities(t@, 0));
    r
}

/// The whole fourth pass: `&nbsp;` becomes a literal space first, then every
/// remaining entity is removed.
pub fn remove_html_text(t: &Vec<char>) -> (r: Vec<char>)
    ensures
        r@ == spec_strip_entities(replace_all_spec(t@, nbsp_entity(), seq![' ']), 0),
{
    let nbsp: Vec<char> = vec!['&', 'n', 'b', 's', 'p', ';'];
    let space: Vec<char> = vec![' '];
    assert(nbsp@ =~= nbsp_entity());
    assert(space@ =~= seq![' ']);
    let spaced = replace_chars(t, &nbsp, &space);
    strip_entities(&spaced)
}

// ---------------------------------------------------------------------------
// Pass 5: numeric tokens (integers and decimals)
// ---------------------------------------------------------------------------

/// `t[i..]` with every numeric token removed: a maximal digit run, extended
/// over a decimal point when at least one digit follows it.
pub open spec fn spec_strip_numbers(t: Seq<char>, i: int) -> Seq<char>
    decreases t.len() - i,
{
    match find_digit_at(t, i) {
        None => t.skip(i),
        Some(s) => if s < i {
            t.skip(i)
        } else {
            let e = digit_end_at(t, s + 1);
            let e2 = if e + 1 < t.len() && t[e] == '.' && is_digit_c(t[e + 1]) {
                digit_end_at(t, e + 2)
            } else {
                e
            };
            if e2 <= s || e2 > t.len() {
                t.skip(i)
            } else {
                t.subrange(i, s) + spec_strip_numbers(t, e2)
            }
        },
    }
}

/// Removes every numeric token, as the fifth pass.
pub fn remove_numbers(t: &Vec<char>) -> (r: Vec<char>)
    ensures
        r@ == spec_strip_numbers(t@, 0),
{
    let n = t.len();
    let mut r: Vec<char> = Vec::new();
    let mut i: usize = 0;
    while i < n
        invariant
            i <= n,
            n == t@.len(),
            spec_strip_numbers(t@, 0) == r@ + spec_strip_numbers(t@, i as int),
        decreases n - i,
    {
        let ghost gi = i as int;
        match find_digit_from(t, i) {
            None => {
                assert(spec_strip_numbers(t@, gi) == t@.skip(gi));
                append_range(&mut r, t, i, n);
                assert(t@.subrange(gi, n as int) =~= t@.skip(gi));
                i = n;
                assert(spec_strip_numbers(t@, n as int) =~= Seq::<char>::empty());
                assert(spec_strip_numbers(t@, 0) =~= r@ + spec_strip_numbers(t@, n as int));
            },
            Some(s) => {
                proof {
                    lemma_find_class_at_some(t@, gi, |c: char| is_digit_c(c));
                }
                let e = digit_end_from(t, s + 1);
                let e2: usize;
                if e < n && e + 1 < n && t[e] == '.' && is_digit(t[e + 1]) {
                    e2 = digit_end_from(t, e + 2);
                } else {
                    e2 = e;
                }
                append_range(&mut r, t, i, s);
                i = e2;
                assert(spec_strip_numbers(t@, 0) =~= r@ + spec_strip_numbers(t@, i as int));
            },
        }
    }
    assert(spec_strip_numbers(t@, i as int) =~= Seq::<char>::empty());
    assert(r@ =~= spec_strip_numbers(t@, 0));
    r
}

// ---------------------------------------------------------------------------
// The whole cleaning pipeline, in its fixed order
// ---------------------------------------------------------------------------

/// A page body after the five cleaning passes: script blocks, style blocks,
/// remaining tags, entities (with `&nbsp;` turned into a space first), and
/// numeric tokens, each pass working on the previous one's output.
pub open spec fn spec_clean(t: Seq<char>) -> Seq<char> {
    let no_scripts = spec_strip_blocks(t, script_open(), script_close(), 0);
    let no_style = spec_strip_blocks(no_scripts, style_open(), style_close(), 0);
    let no_tags = spec_strip_tags(no_style, 0);
    let spaced = replace_all_spec(no_tags, nbsp_entity(), seq![' ']);
    let no_entities = spec_strip_entities(spaced, 0);
    spec_strip_numbers(no_entities, 0)
}

// ---------------------------------------------------------------------------
// Capitalized phrases and their slice variants (critical words)
// ---------------------------------------------------------------------------

/// Extends the end of a capitalized run: from the end `e` of a word run, as
/// long as a single space or hyphen is followed by another capitalized word,
/// the run continues through that word.
pub open spec fn cap_run_end(t: Seq<char>, e: int) -> int
    decreases t.len() - e,
{
    if e < 0 || e + 1 >= t.len() {
        e
    } else if (t[e] == ' ' || t[e] == '-') && is_upper_c(t[e + 1]) {
        let e3 = word_end_at(t, e + 2);
        if e3 < e + 2 || e3 > t.len() {
            e
        } else {
            cap_run_end(t, e3)
        }
    } else {
        e
    }
}

/// The capitalized runs of `t[i..]`: each starts at a capital letter,
/// spans its word, and continues over single space- or hyphen-separated
/// capitalized words, greedily and without overlap.
pub open spec fn spec_cap_runs(t: Seq<char>, i: int) -> Seq<Seq<char>>
    decreases t.len() - i,
{
    match find_upper_at(t, i) {
        None => Seq::empty(),
        Some(s) => if s < i {
            Seq::empty()
        } else {
            let e1 = word_end_at(t, s + 1);
            let e = cap_run_end(t, e1);
            if e <= s || e > t.len() {
                Seq::empty()
            } else {
                seq![t.subrange(s, e)] + spec_cap_runs(t, e)
            }
        },
    }
}

/// The concatenation of a sequence of words, with no separator.
pub open spec fn concat_words(ws: Seq<Seq<char>>) -> Seq<char>
    decreases ws.len(),
{
    if ws.len() == 0 {
        Seq::empty()
    } else {
        concat_words(ws.drop_last()) + ws.last()
    }
}

/// The concatenated slices `ws[b..b+len]`, for this `len` and every start
/// `b` in order.
pub open spec fn slice_row(ws: Seq<Seq<char>>, len: int, b: int) -> Seq<Seq<char>>
    decreases ws.len() - b,
{
    if b < 0 || len < 1 || b + len > ws.len() {
        Seq::empty()
    } else {
        seq![concat_words(ws.subrange(b, b + len))] + slice_row(ws, len, b + 1)
    }
}

/// Every contiguous slice of `ws` of length at least `len`, concatenated:
/// shorter slices first, and for one length left to right.
pub open spec fn spec_slices(ws: Seq<Seq<char>>, len: int) -> Seq<Seq<char>>
    decreases ws.len() - len + 1,
{
    if len < 1 || len > ws.len() {
        Seq::empty()
    } else {
        slice_row(ws, len, 0) + spec_slices(ws, len + 1)
    }
}

/// The critical-word variants of one capitalized run: every contiguous
/// slice of its alphabetic words, concatenated — provided the run as a whole
/// is longer than four characters.
pub open spec fn spec_run_variants(run: Seq<char>) -> Seq<Seq<char>> {
    if run.len() > 4 {
        spec_slices(alpha_runs(run), 1)
    } else {
        Seq::empty()
    }
}

pub open spec fn spec_variants_of_runs(runs: Seq<Seq<char>>) -> Seq<Seq<char>>
    decreases runs.len(),
{
    if runs.len() == 0 {
        Seq::empty()
    } else {
        spec_run_variants(runs[0]) + spec_variants_of_runs(runs.drop_first())
    }
}

/// The critical words mined from a cleaned page: the slice variants of each
/// capitalized run, in text order.
pub open spec fn spec_critical_words(cleaned: Seq<char>) -> Seq<Seq<char>> {
    spec_variants_of_runs(spec_cap_runs(cleaned, 0))
}

/// The end of the capitalized run whose word ends at `e0`.
fn cap_run_end_from(t: &Vec<char>, e0: usize) -> (r: usize)
    requires
        e0 <= t@.len(),
    ensures
        r as int == cap_run_end(t@, e0 as int),
        e0 <= r <= t@.len(),
{
    let n = t.len();
    let mut e: usize = e0;
    while e < n && e + 1 < n && (t[e] == ' ' || t[e] == '-') && is_upper(t[e + 1])
        invariant
            e0 <= e <= n,
            n == t@.len(),
            cap_run_end(t@, e0 as int) == cap_run_end(t@, e as int),
        decreases n - e,
    {
        let e3 = word_end_from(t, e + 2);
        proof {
            lemma_class_end(t@, e + 2, |c: char| is_word_c(c));
        }
        assert(cap_run_end(t@, e as int) == cap_run_end(t@, e3 as int));
        e = e3;
    }
    assert(cap_run_end(t@, e as int) == e as int);
    e
}

/// Concatenates `words[b..e]` with no separator.
fn concat_range(words: &Vec<Vec<char>>, b: usize, e: usize) -> (r: Vec<char>)
    requires
        b <= e <= words@.len(),
    ensures
        r@ == concat_words(words.deep_view().subrange(b as int, e as int)),
{
    let ghost wv = words.deep_view();
    let mut r: Vec<char> = Vec::new();
    let mut j: usize = b;
    proof {
        assert(wv.subrange(b as int, b as int) =~= Seq::<Seq<char>>::empty());
    }
    while j < e
        invariant
            b <= j <= e <= words@.len(),
            wv == words.deep_view(),
            wv.len() == words@.len(),
            r@ == concat_words(wv.subrange(b as int, j as int)),
        decreases e - j,
    {
        assert(wv[j as int] == words@[j as int]@);
        let w = &words[j];
        append_range(&mut r, w, 0, w.len());
        assert(w@.subrange(0, w@.len() as int) =~= w@);
        proof {
            assert(wv.subrange(b as int, j + 1).drop_last() =~= wv.subrange(b as int, j as int));
            assert(wv.subrange(b as int, j + 1).last() == wv[j as int]);
        }
        j = j + 1;
    }
    r
}

/// Every contiguous slice of `words`, concatenated: all lengths from one
/// word up to the whole phrase, shorter slices first.
fn slices_of_words(words: &Vec<Vec<char>>) -> (r: Vec<String>)
    ensures
        r.deep_view() == spec_slices(words.deep_view(), 1),
{
    let ghost wv = words.deep_view();
    let n = words.len();
    let mut r: Vec<String> = Vec::new();
    let mut l0: usize = 0;
    assert(r.deep_view() =~~= Seq::<Seq<char>>::empty());
    while l0 < n
        invariant
            l0 <= n,
            n == words@.len(),
            wv == words.deep_view(),
            wv.len() == n,
            spec_slices(wv, 1) == r.deep_view() + spec_slices(wv, l0 + 1),
        decreases n - l0,
    {
        let len = l0 + 1;
        let mut b: usize = 0;
        assert(spec_slices(wv, len as int) == slice_row(wv, len as int, 0) + spec_slices(
            wv,
            len as int + 1,
        ));
        while b <= n - len
            invariant
                0 <= b <= n - len + 1,
                1 <= len <= n,
                len == l0 + 1,
                n == words@.len(),
                wv == words.deep_view(),
                wv.len() == n,
                spec_slices(wv, 1) == r.deep_view() + slice_row(wv, len as int, b as int)
                    + spec_slices(wv, len as int + 1),
            decreases n - len - b + 1,
        {
            let cw = concat_range(words, b, b + len);
            let s = string_of(&cw);
            let ghost old_r = r.deep_view();
            r.push(s);
            assert(r.deep_view() =~~= old_r.push(cw@));
            assert(slice_row(wv, len as int, b as int) == seq![concat_words(
                wv.subrange(b as int, b + len),
            )] + slice_row(wv, len as int, b + 1));
            b = b + 1;
            assert(spec_slices(wv, 1) =~~= r.deep_view() + slice_row(wv, len as int, b as int)
                + spec_slices(wv, len as int + 1));
        }
        assert(slice_row(wv, len as int, b as int) =~~= Seq::<Seq<char>>::empty());
        l0 = l0 + 1;
        assert(spec_slices(wv, 1) =~~= r.deep_view() + spec_slices(wv, l0 + 1));
    }
    assert(spec_slices(wv, l0 + 1) =~~= Seq::<Seq<char>>::empty());
    assert(r.deep_view() =~~= spec_slices(wv, 1));
    r
}

/// Mines the critical words: for every capitalized run longer than four
/// characters, every contiguous slice of its alphabetic words.
pub fn gather_critical_words(t: &Vec<char>) -> (r: Vec<String>)
    ensures
        r.deep_view() == spec_critical_words(t@),
{
    let n = t.len();
    let mut r: Vec<String> = Vec::new();
    let mut i: usize = 0;
    let mut scanning = true;
    assert(r.deep_view() =~~= Seq::<Seq<char>>::empty());
    while scanning
        invariant
            i <= n,
            n == t@.len(),
            spec_critical_words(t@) == r.deep_view() + spec_variants_of_runs(
                spec_cap_runs(t@, i as int),
            ),
            !scanning ==> spec_cap_runs(t@, i as int) == Seq::<Seq<char>>::empty(),
        decreases n - i + if scanning {
            1int
        } else {
            0int
        },
    {
        match find_upper_from(t, i) {
            None => {
                assert(spec_cap_runs(t@, i as int) =~~= Seq::<Seq<char>>::empty());
                scanning = false;
            },
            Some(s) => {
                proof {
                    lemma_find_class_at_some(t@, i as int, |c: char| is_upper_c(c));
                }
                let e1 = word_end_from(t, s + 1);
                let e = cap_run_end_from(t, e1);
                let ghost run = t@.subrange(s as int, e as int);
                assert(spec_cap_runs(t@, i as int) == seq![run] + spec_cap_runs(t@, e as int));
                assert(spec_variants_of_runs(seq![run] + spec_cap_runs(t@, e as int))
                    == spec_run_variants(run) + spec_variants_of_runs(spec_cap_runs(t@, e as int)))
                    by {
                    let all = seq![run] + spec_cap_runs(t@, e as int);
                    assert(all[0] == run);
                    assert(all.drop_first() =~= spec_cap_runs(t@, e as int));
                }
                if e - s > 4 {
                    let mut run_vec: Vec<char> = Vec::new();
                    append_range(&mut run_vec, t, s, e);
                    assert(run_vec@ =~= run);
                    let words = alpha_words(&run_vec);
                    let variants = slices_of_words(&words);
                    let ghost old_r = r.deep_view();
                    let mut v: usize = 0;
                    while v < variants.len()
                        invariant
                            v <= variants@.len(),
                            r.deep_view() == old_r + variants.deep_view().take(v as int),
                        decreases variants@.len() - v,
                    {
                        let ghost before = r.deep_view();
                        let s2 = variants[v].clone();
                        r.push(s2);
                        assert(r.deep_view() =~~= before.push(variants@[v as int]@));
                        v = v + 1;
                        assert(variants.deep_view()[v - 1] == variants@[v - 1]@);
                        assert(r.deep_view() =~~= old_r + variants.deep_view().take(v as int));
                    }
                    assert(variants.deep_view().take(variants@.len() as int) =~= variants.deep_view());
                    assert(r.deep_view() =~~= old_r + spec_run_variants(run));
                } else {
                    assert(spec_run_variants(run) =~= Seq::<Seq<char>>::empty());
                }
                i = e;
                assert(spec_critical_words(t@) =~~= r.deep_view() + spec_variants_of_runs(
                    spec_cap_runs(t@, i as int),
                ));
            },
        }
    }
    assert(spec_variants_of_runs(spec_cap_runs(t@, i as int)) =~~= Seq::<Seq<char>>::empty());
    assert(r.deep_view() =~~= spec_critical_words(t@));
    r
}

// ---------------------------------------------------------------------------
// Plain words
// ---------------------------------------------------------------------------

/// The plain words mined from a cleaned page: its maximal word-character
/// runs longer than four characters.
pub open spec fn spec_plain_words(cleaned: Seq<char>) -> Seq<Seq<char>> {
    word_runs(cleaned).filter(|w: Seq<char>| w.len() > 4)
}

/// Extracts the plain words of a cleaned page, in order.
pub fn extract_words(t: &Vec<char>) -> (r: Vec<String>)
    ensures
        r.deep_view() == spec_plain_words(t@),
{
    let ghost pred = |w: Seq<char>| w.len() > 4;
    let toks = word_tokens(t);
    let ghost tv = toks.deep_view();
    let mut r: Vec<String> = Vec::new();
    let mut i: usize = 0;
    proof {
        assert(tv.take(0) =~= Seq::<Seq<char>>::empty());
        assert(Seq::<Seq<char>>::empty().filter(pred) =~= Seq::<Seq<char>>::empty());
        assert(r.deep_view() =~~= Seq::<Seq<char>>::empty());
    }
    while i < toks.len()
        invariant
            i <= toks@.len(),
            tv == toks.deep_view(),
            tv.len() == toks@.len(),
            pred == (|w: Seq<char>| w.len() > 4),
            r.deep_view() == tv.take(i as int).filter(pred),
        decreases toks@.len() - i,
    {
        assert(tv[i as int] == toks@[i as int]@);
        if toks[i].len() > 4 {
            let ghost old_r = r.deep_view();
            let s = string_of(&toks[i]);
            r.push(s);
            assert(r.deep_view() =~~= old_r.push(tv[i as int]));
        }
        proof {
            tv.take(i as int).lemma_filter_push(tv[i as int], pred);
            assert(tv.take(i + 1) =~= tv.take(i as int).push(tv[i as int]));
        }
        i = i + 1;
    }
    assert(tv.take(tv.len() as int) =~= tv);
    assert(r.deep_view() =~~= spec_plain_words(t@));
    r
}

// ---------------------------------------------------------------------------
// Mining is idempotent on the plain-word stream
// ---------------------------------------------------------------------------

/// The number-removal pass leaves no digit behind: every digit belongs to
/// some numeric token, and every numeric token goes.
proof fn lemma_strip_numbers_no_digits(t: Seq<char>, i: int)
    requires
        0 <= i <= t.len(),
    ensures
        forall|k: int|
            0 <= k < spec_strip_numbers(t, i).len() ==> !is_digit_c(
                #[trigger] spec_strip_numbers(t, i)[k],
            ),
    decreases t.len() - i,
{
    let p = |c: char| is_digit_c(c);
    match find_class_at(t, i, p) {
        None => {
            lemma_find_class_at_none(t, i, p);
            assert(spec_strip_numbers(t, i) == t.skip(i));
            assert forall|k: int| 0 <= k < t.skip(i).len() implies !is_digit_c(
                #[trigger] t.skip(i)[k],
            ) by {
                assert(t.skip(i)[k] == t[i + k]);
            }
        },
        Some(s) => {
            lemma_find_class_at_some(t, i, p);
            let e = digit_end_at(t, s + 1);
            lemma_class_end(t, s + 1, p);
            let e2 = if e + 1 < t.len() && t[e] == '.' && is_digit_c(t[e + 1]) {
                digit_end_at(t, e + 2)
            } else {
                e
            };
            if e + 1 < t.len() && t[e] == '.' && is_digit_c(t[e + 1]) {
                lemma_class_end(t, e + 2, p);
            }
            assert(i <= s && s + 1 <= e <= e2 <= t.len());
            let pre = t.subrange(i, s);
            let rest = spec_strip_numbers(t, e2);
            lemma_strip_numbers_no_digits(t, e2);
            assert(spec_strip_numbers(t, i) == pre + rest);
            assert forall|k: int| 0 <= k < (pre + rest).len() implies !is_digit_c(
                #[trigger] (pre + rest)[k],
            ) by {
                if k < pre.len() {
                    assert((pre + rest)[k] == pre[k]);
                    assert(pre[k] == t[i + k]);
                } else {
                    assert((pre + rest)[k] == rest[k - pre.len()]);
                }
            }
        },
    }
}

/// Text that holds no `<`, no `&` and no digit passes through the whole
/// cleaning pipeline unchanged.
proof fn lemma_clean_inert(t: Seq<char>)
    requires
        forall|k: int| 0 <= k < t.len() ==> t[k] != '<',
        forall|k: int| 0 <= k < t.len() ==> t[k] != '&',
        forall|k: int| 0 <= k < t.len() ==> !is_digit_c(#[trigger] t[k]),
    ensures
        spec_clean(t) == t,
{
    assert(script_open()[0] == '<');
    lemma_find_at_absent_char(t, script_open(), 0);
    assert(spec_strip_blocks(t, script_open(), script_close(), 0) =~= t);
    assert(style_open()[0] == '<');
    lemma_find_at_absent_char(t, style_open(), 0);
    assert(spec_strip_blocks(t, style_open(), style_close(), 0) =~= t);
    assert(seq!['<'][0] == '<');
    lemma_find_at_absent_char(t, seq!['<'], 0);
    assert(spec_strip_tags(t, 0) =~= t);
    assert(nbsp_entity()[0] == '&');
    lemma_find_at_absent_char(t, nbsp_entity(), 0);
    assert(replace_all_spec(t, nbsp_entity(), seq![' ']) =~= t);
    assert(seq!['&'][0] == '&');
    lemma_find_at_absent_char(t, seq!['&'], 0);
    assert(spec_strip_entities(t, 0) =~= t);
    crate::text::lemma_find_class_at_absent(t, 0, |c: char| is_digit_c(c));
    assert(spec_strip_numbers(t, 0) =~= t);
}

/// Mining is idempotent on the plain-word stream: joining the plain words
/// mined from any body with spaces and mining that text again yields exactly
/// the same words. They are all word characters without digits, so the
/// cleaning passes leave the joined text alone, and each word is its own
/// maximal run again.
pub proof fn lemma_mine_idempotent(body: Seq<char>)
    ensures
        spec_plain_words(spec_clean(crate::text::join_spaces(spec_plain_words(spec_clean(body)))))
            == spec_plain_words(spec_clean(body)),
{
    let long = |w: Seq<char>| w.len() > 4;
    let cleaned = spec_clean(body);
    let ws = spec_plain_words(cleaned);
    let toks = word_runs(cleaned);
    // Each mined word is one of the runs of the cleaned text, ...
    assert(forall|k: int| 0 <= k < ws.len() ==> toks.contains(#[trigger] ws[k])) by {
        assert(forall|k: int| 0 <= k < ws.len() ==> toks.filter(long).contains(#[trigger] ws[k]));
        assert(forall|k: int|
            0 <= k < ws.len() && toks.filter(long).contains(#[trigger] ws[k])
                ==> toks.contains(ws[k])) by {
            assert forall|k: int|
                0 <= k < ws.len() && toks.filter(long).contains(#[trigger] ws[k])
                implies toks.contains(ws[k]) by {
                toks.lemma_filter_contains_rev(long, ws[k]);
            }
        }
    }
    // ... longer than four characters, ...
    assert(forall|k: int| 0 <= k < ws.len() ==> long(#[trigger] ws[k])) by {
        assert forall|k: int| 0 <= k < ws.len() implies long(#[trigger] ws[k]) by {
            toks.lemma_filter_pred(long, k);
        }
    }
    // ... non-empty and all word characters, ...
    crate::text::lemma_word_runs_props(cleaned);
    assert(forall|k: int| 0 <= k < ws.len() ==> #[trigger] ws[k].len() > 0);
    assert(forall|k: int, m: int|
        0 <= k < ws.len() && 0 <= m < ws[k].len() ==> is_word_c(#[trigger] ws[k][m]));
    // ... and digit-free, since the last cleaning pass removed every digit.
    let no_digit = |c: char| !is_digit_c(c);
    lemma_strip_numbers_no_digits(
        spec_strip_entities(
            replace_all_spec(
                spec_strip_tags(
                    spec_strip_blocks(
                        spec_strip_blocks(body, script_open(), script_close(), 0),
                        style_open(),
                        style_close(),
                        0,
                    ),
                    0,
                ),
                nbsp_entity(),
                seq![' '],
            ),
            0,
        ),
        0,
    );
    assert(forall|j: int| 0 <= j < cleaned.len() ==> no_digit(#[trigger] cleaned[j]));
    crate::text::lemma_word_runs_chars_sub(cleaned, no_digit);
    assert(forall|k: int, m: int|
        0 <= k < ws.len() && 0 <= m < ws[k].len() ==> no_digit(#[trigger] ws[k][m]));
    // The joined text holds only word characters and spaces, none of them a
    // digit, `<` or `&`, so cleaning it changes nothing.
    let j = crate::text::join_spaces(ws);
    let inert = |c: char| (c == ' ' || is_word_c(c)) && !is_digit_c(c);
    crate::text::lemma_join_chars(ws, inert);
    assert(forall|x: int| 0 <= x < j.len() ==> j[x] != '<') by {
        assert(forall|x: int| 0 <= x < j.len() ==> inert(#[trigger] j[x]));
    }
    assert(forall|x: int| 0 <= x < j.len() ==> j[x] != '&') by {
        assert(forall|x: int| 0 <= x < j.len() ==> inert(#[trigger] j[x]));
    }
    assert(forall|x: int| 0 <= x < j.len() ==> !is_digit_c(#[trigger] j[x])) by {
        assert(forall|x: int| 0 <= x < j.len() ==> inert(#[trigger] j[x]));
    }
    lemma_clean_inert(j);
    // Each word is its own maximal run of the joined text again, ...
    crate::text::lemma_join_word_runs(ws);
    // ... and the length filter keeps them all.
    crate::text::lemma_filter_all(ws, long);
}

// ---------------------------------------------------------------------------
// The miner's entry point
// ---------------------------------------------------------------------------

/// Cleans a page body in place and mines it: the critical-word variants
/// first, then the plain words, each stream in text order.
pub fn parse(response_text: &mut String) -> (r: (Vec<String>, Vec<String>))
    ensures
        final(response_text)@ == spec_clean(old(response_text)@),
        r.0.deep_view() == spec_critical_words(spec_clean(old(response_text)@)),
        r.1.deep_view() == spec_plain_words(spec_clean(old(response_text)@)),
{
    let t0 = chars_of(response_text.as_str());
    let t1 = remove_scripts(&t0);
    let t2 = remove_style(&t1);
    let t3 = remove_html_nodes(&t2);
    let t4 = remove_html_text(&t3);
    let t5 = remove_numbers(&t4);
    *response_text = string_of(&t5);
    let critical = gather_critical_words(&t5);
    let plain = extract_words(&t5);
    (critical, plain)
}

} // verus!
