//! Character-level text utilities: character classes, conversions between
//! `&str` and `Vec<char>`, substring search, replacement, and tokenization
//! into maximal runs of a character class. These are the building blocks of
//! the link filter and the text miner.

use vstd::prelude::*;
use vstd::string::*;

use crate::outside::push_char;

verus! {

// ---------------------------------------------------------------------------
// Character classes (ASCII; classification is by code point)
// ---------------------------------------------------------------------------

pub open spec fn is_digit_c(c: char) -> bool {
    ('0' as int) <= c as int <= ('9' as int)
}

pub open spec fn is_upper_c(c: char) -> bool {
    ('A' as int) <= c as int <= ('Z' as int)
}

pub open spec fn is_lower_c(c: char) -> bool {
    ('a' as int) <= c as int <= ('z' as int)
}

pub open spec fn is_alpha_c(c: char) -> bool {
    is_upper_c(c) || is_lower_c(c)
}

/// The class tokenized when scoring a link against a query.
pub open spec fn is_alnum_c(c: char) -> bool {
    is_alpha_c(c) || is_digit_c(c)
}

/// The "word" class mined for plain words: letters, digits and underscore.
pub open spec fn is_word_c(c: char) -> bool {
    is_alnum_c(c) || c == '_'
}

pub fn is_digit(c: char) -> (r: bool)
    ensures
        r == is_digit_c(c),
{
    let u = c as u32;
    ('0' as u32) <= u && u <= ('9' as u32)
}

pub fn is_upper(c: char) -> (r: bool)
    ensures
        r == is_upper_c(c),
{
    let u = c as u32;
    ('A' as u32) <= u && u <= ('Z' as u32)
}

pub fn is_alpha(c: char) -> (r: bool)
    ensures
        r == is_alpha_c(c),
{
    let u = c as u32;
    (('A' as u32) <= u && u <= ('Z' as u32)) || (('a' as u32) <= u && u <= ('z' as u32))
}

pub fn is_alnum(c: char) -> (r: bool)
    ensures
        r == is_alnum_c(c),
{
    is_alpha(c) || is_digit(c)
}

pub fn is_word(c: char) -> (r: bool)
    ensures
        r == is_word_c(c),
{
    is_alnum(c) || c == '_'
}

// ---------------------------------------------------------------------------
// &str / String <-> Vec<char>
// ---------------------------------------------------------------------------

/// The characters of a string slice, one vector element per `char`.
pub fn chars_of(s: &str) -> (r: Vec<char>)
    ensures
        r@ == s@,
{
    let n = s.unicode_len();
    let mut r: Vec<char> = Vec::new();
    let mut i: usize = 0;
    while i < n
        invariant
            i <= n,
            n == s@.len(),
            r@ == s@.take(i as int),
        decreases n - i,
    {
        let c = s.get_char(i);
        r.push(c);
        i = i + 1;
        assert(r@ =~= s@.take(i as int));
    }
    assert(s@.take(n as int) =~= s@);
    r
}

/// A `String` with exactly the given characters.
pub fn string_of(v: &Vec<char>) -> (r: String)
    ensures
        r@ == v@,
{
    let mut r = String::new();
    let mut i: usize = 0;
    while i < v.len()
        invariant
            i <= v.len(),
            r@ == v@.take(i as int),
        decreases v.len() - i,
    {
        push_char(&mut r, v[i]);
        i = i + 1;
        assert(r@ =~= v@.take(i as int));
    }
    assert(v@.take(v@.len() as int) =~= v@);
    r
}

// ---------------------------------------------------------------------------
// Substring search
// ---------------------------------------------------------------------------

/// `pat` occurs in `t` starting at position `i`.
pub open spec fn occurs_at(t: Seq<char>, pat: Seq<char>, i: int) -> bool {
    &&& 0 <= i
    &&& i + pat.len() <= t.len()
    &&& t.subrange(i, i + pat.len()) == pat
}

pub open spec fn contains_seq(t: Seq<char>, pat: Seq<char>) -> bool {
    exists|i: int| occurs_at(t, pat, i)
}

/// The first position at or after `from` where `pat` occurs, if any.
pub open spec fn find_at(t: Seq<char>, pat: Seq<char>, from: int) -> Option<int>
    decreases t.len() - from + 1,
{
    if from < 0 || from + pat.len() > t.len() {
        None
    } else if t.subrange(from, from + pat.len()) == pat {
        Some(from)
    } else {
        find_at(t, pat, from + 1)
    }
}

pub proof fn lemma_find_at_some(t: Seq<char>, pat: Seq<char>, from: int)
    requires
        find_at(t, pat, from) is Some,
    ensures
        ({
            let j = find_at(t, pat, from)->0;
            &&& from <= j
            &&& occurs_at(t, pat, j)
            &&& forall|i: int| from <= i < j ==> !occurs_at(t, pat, i)
        }),
    decreases t.len() - from + 1,
{
    if from < 0 || from + pat.len() > t.len() {
    } else if t.subrange(from, from + pat.len()) == pat {
    } else {
        lemma_find_at_some(t, pat, from + 1);
    }
}

pub proof fn lemma_find_at_none(t: Seq<char>, pat: Seq<char>, from: int)
    requires
        from >= 0,
        find_at(t, pat, from) is None,
    ensures
        forall|i: int| from <= i ==> !occurs_at(t, pat, i),
    decreases t.len() - from + 1,
{
    if from + pat.len() > t.len() {
    } else if t.subrange(from, from + pat.len()) == pat {
    } else {
        lemma_find_at_none(t, pat, from + 1);
    }
}

/// If no character of `t` at or after `from` equals the first character of a
/// non-empty `pat`, then `pat` does not occur at or after `from`.
pub proof fn lemma_find_at_absent_char(t: Seq<char>, pat: Seq<char>, from: int)
    requires
        from >= 0,
        pat.len() > 0,
        forall|i: int| from <= i < t.len() ==> t[i] != pat[0],
    ensures
        find_at(t, pat, from) is None,
    decreases t.len() - from + 1,
{
    if from < 0 || from + pat.len() > t.len() {
    } else {
        assert(t.subrange(from, from + pat.len()) != pat) by {
            assert(t.subrange(from, from + pat.len())[0] == t[from]);
            assert(t[from] != pat[0]);
        }
        lemma_find_at_absent_char(t, pat, from + 1);
    }
}

/// Does `pat` occur in `t` exactly at position `i`?
fn eq_at(t: &Vec<char>, pat: &Vec<char>, i: usize) -> (r: bool)
    requires
        i + pat@.len() <= t@.len(),
    ensures
        r == (t@.subrange(i as int, i + pat@.len()) == pat@),
{
    let n = t.len();
    let mut k: usize = 0;
    while k < pat.len()
        invariant
            k <= pat@.len(),
            i + pat@.len() <= t@.len(),
            n == t@.len(),
            forall|m: int| 0 <= m < k ==> t@[i + m] == pat@[m],
        decreases pat@.len() - k,
    {
        if t[i + k] != pat[k] {
            assert(t@.subrange(i as int, i + pat@.len())[k as int] == t@[i + k]);
            return false;
        }
        k = k + 1;
    }
    assert(t@.subrange(i as int, i + pat@.len()) =~= pat@);
    true
}

/// The first occurrence of `pat` in `t` at or after `from`.
pub fn find_from(t: &Vec<char>, pat: &Vec<char>, from: usize) -> (r: Option<usize>)
    ensures
        match r {
            Some(j) => find_at(t@, pat@, from as int) == Some(j as int),
            None => find_at(t@, pat@, from as int) is None,
        },
{
    if pat.len() > t.len() {
        return None;
    }
    if pat.len() == 0 {
        if from <= t.len() {
            assert(t@.subrange(from as int, from as int) =~= pat@);
            return Some(from);
        } else {
            return None;
        }
    }
    let mut i: usize = from;
    while i <= t.len() - pat.len()
        invariant
            1 <= pat@.len() <= t@.len(),
            from <= i,
            find_at(t@, pat@, from as int) == find_at(t@, pat@, i as int),
        decreases t@.len() - i,
    {
        if eq_at(t, pat, i) {
            return Some(i);
        }
        i = i + 1;
    }
    None
}

// ---------------------------------------------------------------------------
// Tokenization into maximal runs of a character class
// ---------------------------------------------------------------------------

/// The maximal runs (tokens) of characters satisfying `p` in `s[i..]`,
/// in order of appearance.
pub open spec fn runs_from(s: Seq<char>, i: int, p: spec_fn(char) -> bool) -> Seq<Seq<char>>
    decreases s.len() - i,
{
    if i < 0 || i >= s.len() {
        Seq::empty()
    } else if !p(s[i]) {
        runs_from(s, i + 1, p)
    } else {
        let rest = runs_from(s, i + 1, p);
        if i + 1 < s.len() && p(s[i + 1]) {
            seq![seq![s[i]] + rest[0]] + rest.skip(1)
        } else {
            seq![seq![s[i]]] + rest
        }
    }
}

pub open spec fn runs(s: Seq<char>, p: spec_fn(char) -> bool) -> Seq<Seq<char>> {
    runs_from(s, 0, p)
}

/// A maximal block `s[i..e)` of `p`-characters contributes exactly one run.
pub proof fn lemma_runs_block(s: Seq<char>, i: int, e: int, p: spec_fn(char) -> bool)
    requires
        0 <= i < e <= s.len(),
        forall|m: int| i <= m < e ==> p(s[m]),
        e == s.len() || !p(s[e]),
    ensures
        runs_from(s, i, p) == seq![s.subrange(i, e)] + runs_from(s, e, p),
    decreases e - i,
{
    assert(p(s[i]));
    if i + 1 == e {
        assert(s.subrange(i, e) =~= seq![s[i]]);
        if e < s.len() {
            assert(!p(s[e]));
        }
        assert(runs_from(s, i, p) =~= seq![s.subrange(i, e)] + runs_from(s, e, p));
    } else {
        lemma_runs_block(s, i + 1, e, p);
        let rest = runs_from(s, i + 1, p);
        assert(p(s[i + 1]));
        assert(rest == seq![s.subrange(i + 1, e)] + runs_from(s, e, p));
        assert(rest[0] == s.subrange(i + 1, e));
        assert(seq![s[i]] + s.subrange(i + 1, e) =~= s.subrange(i, e));
        assert(rest.skip(1) =~= runs_from(s, e, p));
        assert(runs_from(s, i, p) =~= seq![s.subrange(i, e)] + runs_from(s, e, p));
    }
}

/// Every character of every run satisfies `p`, and every run is non-empty.
pub proof fn lemma_runs_chars(s: Seq<char>, i: int, p: spec_fn(char) -> bool)
    ensures
        forall|k: int, m: int|
            0 <= k < runs_from(s, i, p).len() && 0 <= m < runs_from(s, i, p)[k].len() ==> p(
                #[trigger] runs_from(s, i, p)[k][m],
            ),
        forall|k: int| 0 <= k < runs_from(s, i, p).len() ==> #[trigger] runs_from(
            s,
            i,
            p,
        )[k].len() > 0,
    decreases s.len() - i,
{
    if i < 0 || i >= s.len() {
    } else if !p(s[i]) {
        lemma_runs_chars(s, i + 1, p);
    } else {
        lemma_runs_chars(s, i + 1, p);
        let rest = runs_from(s, i + 1, p);
        let cur = runs_from(s, i, p);
        if i + 1 < s.len() && p(s[i + 1]) {
            assert(forall|m: int|
                0 <= m < cur[0].len() ==> p(#[trigger] cur[0][m])) by {
                assert(cur[0] == seq![s[i]] + rest[0]);
            }
            assert(forall|k: int| 1 <= k < cur.len() ==> cur[k] == rest[k]);
        } else {
            assert(cur[0] == seq![s[i]]);
            assert(forall|k: int| 1 <= k < cur.len() ==> cur[k] == rest[k - 1]);
        }
    }
}

pub open spec fn alnum_runs(s: Seq<char>) -> Seq<Seq<char>> {
    runs(s, |c: char| is_alnum_c(c))
}

pub open spec fn word_runs(s: Seq<char>) -> Seq<Seq<char>> {
    runs(s, |c: char| is_word_c(c))
}

pub open spec fn alpha_runs(s: Seq<char>) -> Seq<Seq<char>> {
    runs(s, |c: char| is_alpha_c(c))
}

/// If every character of `s` satisfies `q`, so does every character of every
/// run of `s`.
pub proof fn lemma_runs_chars_sub(
    s: Seq<char>,
    i: int,
    p: spec_fn(char) -> bool,
    q: spec_fn(char) -> bool,
)
    requires
        forall|j: int| 0 <= j < s.len() ==> q(s[j]),
    ensures
        forall|k: int, m: int|
            0 <= k < runs_from(s, i, p).len() && 0 <= m < runs_from(s, i, p)[k].len() ==> q(
                #[trigger] runs_from(s, i, p)[k][m],
            ),
    decreases s.len() - i,
{
    if i < 0 || i >= s.len() {
    } else if !p(s[i]) {
        lemma_runs_chars_sub(s, i + 1, p, q);
    } else {
        lemma_runs_chars_sub(s, i + 1, p, q);
        let rest = runs_from(s, i + 1, p);
        let cur = runs_from(s, i, p);
        if i + 1 < s.len() && p(s[i + 1]) {
            lemma_runs_chars(s, i + 1, p);
            assert(forall|m: int| 0 <= m < cur[0].len() ==> q(#[trigger] cur[0][m])) by {
                assert(cur[0] == seq![s[i]] + rest[0]);
            }
            assert(forall|k: int| 1 <= k < cur.len() ==> cur[k] == rest[k]);
        } else {
            assert(cur[0] == seq![s[i]]);
            assert(forall|k: int| 1 <= k < cur.len() ==> cur[k] == rest[k - 1]);
        }
    }
}

/// The maximal alphanumeric runs of `t` (the tokens scored by the filter).
pub fn alnum_tokens(t: &Vec<char>) -> (r: Vec<Vec<char>>)
    ensures
        r.deep_view() == alnum_runs(t@),
{
    let ghost p = |c: char| is_alnum_c(c);
    let n = t.len();
    let mut r: Vec<Vec<char>> = Vec::new();
    let mut i: usize = 0;
    assert(r.deep_view() + runs_from(t@, 0, p) =~~= runs_from(t@, 0, p));
    while i < n
        invariant
            i <= n,
            n == t@.len(),
            p == (|c: char| is_alnum_c(c)),
            r.deep_view() + runs_from(t@, i as int, p) == runs_from(t@, 0, p),
        decreases n - i,
    {
        if !is_alnum(t[i]) {
            i = i + 1;
        } else {
            let ghost start = i as int;
            let mut word: Vec<char> = Vec::new();
            assert(word@ =~= t@.subrange(start, start));
            while i < n && is_alnum(t[i])
                invariant
                    0 <= start <= i <= n,
                    n == t@.len(),
                    p == (|c: char| is_alnum_c(c)),
                    word@ == t@.subrange(start, i as int),
                    forall|m: int| start <= m < i ==> p(t@[m]),
                decreases n - i,
            {
                word.push(t[i]);
                i = i + 1;
                assert(word@ =~= t@.subrange(start, i as int));
            }
            proof {
                lemma_runs_block(t@, start, i as int, p);
            }
            let ghost old_r = r.deep_view();
            r.push(word);
            assert(r.deep_view() =~~= old_r.push(word@));
            assert(r.deep_view() + runs_from(t@, i as int, p) =~~= runs_from(t@, 0, p));
        }
    }
    assert(runs_from(t@, n as int, p) =~= Seq::<Seq<char>>::empty());
    assert(r.deep_view() =~~= runs_from(t@, 0, p));
    r
}

/// The maximal word-character runs of `t` (the plain-word candidates).
pub fn word_tokens(t: &Vec<char>) -> (r: Vec<Vec<char>>)
    ensures
        r.deep_view() == word_runs(t@),
{
    let ghost p = |c: char| is_word_c(c);
    let n = t.len();
    let mut r: Vec<Vec<char>> = Vec::new();
    let mut i: usize = 0;
    assert(r.deep_view() + runs_from(t@, 0, p) =~~= runs_from(t@, 0, p));
    while i < n
        invariant
            i <= n,
            n == t@.len(),
            p == (|c: char| is_word_c(c)),
            r.deep_view() + runs_from(t@, i as int, p) == runs_from(t@, 0, p),
        decreases n - i,
    {
        if !is_word(t[i]) {
            i = i + 1;
        } else {
            let ghost start = i as int;
            let mut word: Vec<char> = Vec::new();
            assert(word@ =~= t@.subrange(start, start));
            while i < n && is_word(t[i])
                invariant
                    0 <= start <= i <= n,
                    n == t@.len(),
                    p == (|c: char| is_word_c(c)),
                    word@ == t@.subrange(start, i as int),
                    forall|m: int| start <= m < i ==> p(t@[m]),
                decreases n - i,
            {
                word.push(t[i]);
                i = i + 1;
                assert(word@ =~= t@.subrange(start, i as int));
            }
            proof {
                lemma_runs_block(t@, start, i as int, p);
            }
            let ghost old_r = r.deep_view();
            r.push(word);
            assert(r.deep_view() =~~= old_r.push(word@));
            assert(r.deep_view() + runs_from(t@, i as int, p) =~~= runs_from(t@, 0, p));
        }
    }
    assert(runs_from(t@, n as int, p) =~= Seq::<Seq<char>>::empty());
    assert(r.deep_view() =~~= runs_from(t@, 0, p));
    r
}

/// The maximal alphabetic runs of `t` (the constituent words of a
/// capitalized phrase).
pub fn alpha_words(t: &Vec<char>) -> (r: Vec<Vec<char>>)
    ensures
        r.deep_view() == alpha_runs(t@),
{
    let ghost p = |c: char| is_alpha_c(c);
    let n = t.len();
    let mut r: Vec<Vec<char>> = Vec::new();
    let mut i: usize = 0;
    assert(r.deep_view() + runs_from(t@, 0, p) =~~= runs_from(t@, 0, p));
    while i < n
        invariant
            i <= n,
            n == t@.len(),
            p == (|c: char| is_alpha_c(c)),
            r.deep_view() + runs_from(t@, i as int, p) == runs_from(t@, 0, p),
        decreases n - i,
    {
        if !is_alpha(t[i]) {
            i = i + 1;
        } else {
            let ghost start = i as int;
            let mut word: Vec<char> = Vec::new();
            assert(word@ =~= t@.subrange(start, start));
            while i < n && is_alpha(t[i])
                invariant
                    0 <= start <= i <= n,
                    n == t@.len(),
                    p == (|c: char| is_alpha_c(c)),
                    word@ == t@.subrange(start, i as int),
                    forall|m: int| start <= m < i ==> p(t@[m]),
                decreases n - i,
            {
                word.push(t[i]);
                i = i + 1;
                assert(word@ =~= t@.subrange(start, i as int));
            }
            proof {
                lemma_runs_block(t@, start, i as int, p);
            }
            let ghost old_r = r.deep_view();
            r.push(word);
            assert(r.deep_view() =~~= old_r.push(word@));
            assert(r.deep_view() + runs_from(t@, i as int, p) =~~= runs_from(t@, 0, p));
        }
    }
    assert(runs_from(t@, n as int, p) =~= Seq::<Seq<char>>::empty());
    assert(r.deep_view() =~~= runs_from(t@, 0, p));
    r
}

// ---------------------------------------------------------------------------
// Search for a character class
// ---------------------------------------------------------------------------

/// The first position at or after `i` whose character satisfies `p`, if any.
pub open spec fn find_class_at(t: Seq<char>, i: int, p: spec_fn(char) -> bool) -> Option<int>
    decreases t.len() - i + 1,
{
    if i < 0 || i >= t.len() {
        None
    } else if p(t[i]) {
        Some(i)
    } else {
        find_class_at(t, i + 1, p)
    }
}

pub proof fn lemma_find_class_at_some(t: Seq<char>, i: int, p: spec_fn(char) -> bool)
    requires
        find_class_at(t, i, p) is Some,
    ensures
        ({
            let j = find_class_at(t, i, p)->0;
            &&& 0 <= i <= j < t.len()
            &&& p(t[j])
            &&& forall|m: int| i <= m < j ==> !p(t[m])
        }),
    decreases t.len() - i + 1,
{
    if i < 0 || i >= t.len() {
    } else if p(t[i]) {
    } else {
        lemma_find_class_at_some(t, i + 1, p);
    }
}

pub proof fn lemma_find_class_at_none(t: Seq<char>, i: int, p: spec_fn(char) -> bool)
    requires
        i >= 0,
        find_class_at(t, i, p) is None,
    ensures
        forall|m: int| i <= m < t.len() ==> !p(t[m]),
    decreases t.len() - i + 1,
{
    if i < 0 || i >= t.len() {
    } else if p(t[i]) {
    } else {
        lemma_find_class_at_none(t, i + 1, p);
    }
}

/// The end of the `p`-character run that starts at `i`: the first position
/// at or after `i` holding no `p`-character, or the end of `t`.
pub open spec fn class_end(t: Seq<char>, i: int, p: spec_fn(char) -> bool) -> int
    decreases t.len() - i + 1,
{
    if i < 0 || i >= t.len() || !p(t[i]) {
        i
    } else {
        class_end(t, i + 1, p)
    }
}

pub proof fn lemma_class_end(t: Seq<char>, i: int, p: spec_fn(char) -> bool)
    requires
        0 <= i <= t.len(),
    ensures
        ({
            let e = class_end(t, i, p);
            &&& i <= e <= t.len()
            &&& forall|m: int| i <= m < e ==> p(t[m])
            &&& e == t.len() || !p(t[e])
        }),
    decreases t.len() - i + 1,
{
    if i < 0 || i >= t.len() || !p(t[i]) {
    } else {
        lemma_class_end(t, i + 1, p);
    }
}

pub open spec fn find_digit_at(t: Seq<char>, i: int) -> Option<int> {
    find_class_at(t, i, |c: char| is_digit_c(c))
}

pub open spec fn find_upper_at(t: Seq<char>, i: int) -> Option<int> {
    find_class_at(t, i, |c: char| is_upper_c(c))
}

pub open spec fn digit_end_at(t: Seq<char>, i: int) -> int {
    class_end(t, i, |c: char| is_digit_c(c))
}

pub open spec fn word_end_at(t: Seq<char>, i: int) -> int {
    class_end(t, i, |c: char| is_word_c(c))
}

/// The first digit at or after `from`.
pub fn find_digit_from(t: &Vec<char>, from: usize) -> (r: Option<usize>)
    ensures
        match r {
            Some(j) => find_digit_at(t@, from as int) == Some(j as int),
            None => find_digit_at(t@, from as int) is None,
        },
{
    let ghost p = |c: char| is_digit_c(c);
    let n = t.len();
    let mut i: usize = from;
    while i < n
        invariant
            from <= i,
            n == t@.len(),
            p == (|c: char| is_digit_c(c)),
            find_class_at(t@, from as int, p) == find_class_at(t@, i as int, p),
        decreases n - i,
    {
        if is_digit(t[i]) {
            return Some(i);
        }
        i = i + 1;
    }
    None
}

/// The first ASCII capital at or after `from`.
pub fn find_upper_from(t: &Vec<char>, from: usize) -> (r: Option<usize>)
    ensures
        match r {
            Some(j) => find_upper_at(t@, from as int) == Some(j as int),
            None => find_upper_at(t@, from as int) is None,
        },
{
    let ghost p = |c: char| is_upper_c(c);
    let n = t.len();
    let mut i: usize = from;
    while i < n
        invariant
            from <= i,
            n == t@.len(),
            p == (|c: char| is_upper_c(c)),
            find_class_at(t@, from as int, p) == find_class_at(t@, i as int, p),
        decreases n - i,
    {
        if is_upper(t[i]) {
            return Some(i);
        }
        i = i + 1;
    }
    None
}

/// The end of the digit run starting at `from`.
pub fn digit_end_from(t: &Vec<char>, from: usize) -> (r: usize)
    requires
        from <= t@.len(),
    ensures
        r as int == digit_end_at(t@, from as int),
        from <= r <= t@.len(),
{
    let ghost p = |c: char| is_digit_c(c);
    let n = t.len();
    let mut i: usize = from;
    while i < n && is_digit(t[i])
        invariant
            from <= i <= n,
            n == t@.len(),
            p == (|c: char| is_digit_c(c)),
            class_end(t@, from as int, p) == class_end(t@, i as int, p),
        decreases n - i,
    {
        i = i + 1;
    }
    i
}

/// The end of the word-character run starting at `from`.
pub fn word_end_from(t: &Vec<char>, from: usize) -> (r: usize)
    requires
        from <= t@.len(),
    ensures
        r as int == word_end_at(t@, from as int),
        from <= r <= t@.len(),
{
    let ghost p = |c: char| is_word_c(c);
    let n = t.len();
    let mut i: usize = from;
    while i < n && is_word(t[i])
        invariant
            from <= i <= n,
            n == t@.len(),
            p == (|c: char| is_word_c(c)),
            class_end(t@, from as int, p) == class_end(t@, i as int, p),
        decreases n - i,
    {
        i = i + 1;
    }
    i
}

pub proof fn lemma_find_class_at_absent(t: Seq<char>, i: int, p: spec_fn(char) -> bool)
    requires
        i >= 0,
        forall|m: int| i <= m < t.len() ==> !p(t[m]),
    ensures
        find_class_at(t, i, p) is None,
    decreases t.len() - i + 1,
{
    if i < 0 || i >= t.len() {
    } else {
        lemma_find_class_at_absent(t, i + 1, p);
    }
}

// ---------------------------------------------------------------------------
// Replacement of every occurrence of a pattern
// ---------------------------------------------------------------------------

/// `t[i..]` with every occurrence of `pat` (non-overlapping, scanned left to
/// right) replaced by `rep`. An empty pattern replaces nothing.
pub open spec fn replace_from(t: Seq<char>, pat: Seq<char>, rep: Seq<char>, i: int) -> Seq<char>
    decreases t.len() - i,
{
    if pat.len() == 0 {
        t.skip(i)
    } else {
        match find_at(t, pat, i) {
            None => t.skip(i),
            Some(j) => if j < i || j + pat.len() > t.len() {
                t.skip(i)
            } else {
                t.subrange(i, j) + rep + replace_from(t, pat, rep, j + pat.len())
            },
        }
    }
}

pub open spec fn replace_all_spec(t: Seq<char>, pat: Seq<char>, rep: Seq<char>) -> Seq<char> {
    replace_from(t, pat, rep, 0)
}

/// Appends `t[from..to]` to `r`.
pub fn append_range(r: &mut Vec<char>, t: &Vec<char>, from: usize, to: usize)
    requires
        from <= to <= t@.len(),
    ensures
        final(r)@ == old(r)@ + t@.subrange(from as int, to as int),
{
    let mut k: usize = from;
    while k < to
        invariant
            from <= k <= to <= t@.len(),
            r@ == old(r)@ + t@.subrange(from as int, k as int),
        decreases to - k,
    {
        r.push(t[k]);
        k = k + 1;
        assert(r@ =~= old(r)@ + t@.subrange(from as int, k as int));
    }
    assert(r@ =~= old(r)@ + t@.subrange(from as int, to as int));
}

/// `t` with every occurrence of `pat` replaced by `rep`.
pub fn replace_chars(t: &Vec<char>, pat: &Vec<char>, rep: &Vec<char>) -> (r: Vec<char>)
    ensures
        r@ == replace_all_spec(t@, pat@, rep@),
{
    let n = t.len();
    if pat.len() == 0 {
        let mut r: Vec<char> = Vec::new();
        append_range(&mut r, t, 0, n);
        assert(r@ =~= t@.skip(0));
        return r;
    }
    let mut r: Vec<char> = Vec::new();
    let mut i: usize = 0;
    while i < n
        invariant
            i <= n,
            n == t@.len(),
            pat@.len() >= 1,
            replace_from(t@, pat@, rep@, 0) == r@ + replace_from(t@, pat@, rep@, i as int),
        decreases n - i,
    {
        match find_from(t, pat, i) {
            None => {
                proof {
                    lemma_find_at_none(t@, pat@, i as int);
                }
                append_range(&mut r, t, i, n);
                assert(replace_from(t@, pat@, rep@, i as int) == t@.skip(i as int));
                assert(t@.subrange(i as int, n as int) =~= t@.skip(i as int));
                i = n;
                assert(replace_from(t@, pat@, rep@, n as int) =~= Seq::<char>::empty());
                assert(replace_from(t@, pat@, rep@, 0) =~= r@ + replace_from(
                    t@,
                    pat@,
                    rep@,
                    n as int,
                ));
            },
            Some(j) => {
                proof {
                    lemma_find_at_some(t@, pat@, i as int);
                }
                append_range(&mut r, t, i, j);
                append_range(&mut r, rep, 0, rep.len());
                assert(rep@.subrange(0, rep@.len() as int) =~= rep@);
                i = j + pat.len();
                assert(replace_from(t@, pat@, rep@, 0) =~= r@ + replace_from(
                    t@,
                    pat@,
                    rep@,
                    i as int,
                ));
            },
        }
    }
    assert(replace_from(t@, pat@, rep@, i as int) =~= Seq::<char>::empty());
    assert(r@ =~= replace_all_spec(t@, pat@, rep@));
    r
}

/// Does `pat` occur anywhere in `t`?
pub fn contains_chars(t: &Vec<char>, pat: &Vec<char>) -> (r: bool)
    ensures
        r == contains_seq(t@, pat@),
{
    match find_from(t, pat, 0) {
        Some(j) => {
            proof {
                lemma_find_at_some(t@, pat@, 0);
            }
            true
        },
        None => {
            proof {
                lemma_find_at_none(t@, pat@, 0);
                assert(forall|i: int| !occurs_at(t@, pat@, i)) by {
                    assert(forall|i: int| i < 0 ==> !occurs_at(t@, pat@, i));
                    assert(forall|i: int| 0 <= i ==> !occurs_at(t@, pat@, i));
                }
            }
            false
        },
    }
}


// ---------------------------------------------------------------------------
// Joining words with spaces, and how runs relate to it
// ---------------------------------------------------------------------------

/// The words of `ws` joined by single spaces.
pub open spec fn join_spaces(ws: Seq<Seq<char>>) -> Seq<char>
    decreases ws.len(),
{
    if ws.len() == 0 {
        Seq::empty()
    } else if ws.len() == 1 {
        ws[0]
    } else {
        ws[0] + seq![' '] + join_spaces(ws.drop_first())
    }
}

/// Tokenization does not care where the text starts: the runs of `t[i..]`
/// are the runs of the suffix taken as a text of its own.
pub proof fn lemma_runs_shift(t: Seq<char>, i: int, p: spec_fn(char) -> bool)
    requires
        0 <= i <= t.len(),
    ensures
        runs_from(t, i, p) == runs_from(t.skip(i), 0, p),
    decreases t.len() - i,
{
    let u = t.skip(i);
    if i == t.len() {
        assert(runs_from(t, i, p) =~~= Seq::<Seq<char>>::empty());
        assert(u.len() == 0);
        assert(runs_from(u, 0, p) =~~= Seq::<Seq<char>>::empty());
    } else {
        assert(u[0] == t[i]);
        lemma_runs_shift(t, i + 1, p);
        lemma_runs_shift(u, 1, p);
        assert(u.skip(1) =~= t.skip(i + 1));
        let rest_t = runs_from(t, i + 1, p);
        let rest_u = runs_from(u, 1, p);
        assert(rest_t == rest_u);
        if !p(t[i]) {
            assert(runs_from(t, i, p) == rest_t);
            assert(runs_from(u, 0, p) == rest_u);
        } else if i + 1 < t.len() && p(t[i + 1]) {
            assert(u[1] == t[i + 1]);
            assert(runs_from(t, i, p) == seq![seq![t[i]] + rest_t[0]] + rest_t.skip(1));
            assert(runs_from(u, 0, p) == seq![seq![u[0]] + rest_u[0]] + rest_u.skip(1));
        } else {
            assert(1 >= u.len() || !p(u[1]));
            assert(runs_from(t, i, p) == seq![seq![t[i]]] + rest_t);
            assert(runs_from(u, 0, p) == seq![seq![u[0]]] + rest_u);
        }
    }
}

/// Every run of `s` is non-empty and made of word characters.
pub proof fn lemma_word_runs_props(s: Seq<char>)
    ensures
        forall|k: int| 0 <= k < word_runs(s).len() ==> #[trigger] word_runs(s)[k].len() > 0,
        forall|k: int, m: int|
            0 <= k < word_runs(s).len() && 0 <= m < word_runs(s)[k].len() ==> is_word_c(
                #[trigger] word_runs(s)[k][m],
            ),
{
    lemma_runs_chars(s, 0, |c: char| is_word_c(c));
}

/// Whatever holds of every character of `s` holds of every character of its
/// word runs.
pub proof fn lemma_word_runs_chars_sub(s: Seq<char>, q: spec_fn(char) -> bool)
    requires
        forall|j: int| 0 <= j < s.len() ==> q(s[j]),
    ensures
        forall|k: int, m: int|
            0 <= k < word_runs(s).len() && 0 <= m < word_runs(s)[k].len() ==> q(
                #[trigger] word_runs(s)[k][m],
            ),
{
    lemma_runs_chars_sub(s, 0, |c: char| is_word_c(c), q);
}

/// Joining non-empty all-word-character words with spaces and tokenizing
/// again gives back exactly those words.
pub proof fn lemma_join_word_runs(ws: Seq<Seq<char>>)
    requires
        forall|k: int| 0 <= k < ws.len() ==> #[trigger] ws[k].len() > 0,
        forall|k: int, m: int|
            0 <= k < ws.len() && 0 <= m < ws[k].len() ==> is_word_c(#[trigger] ws[k][m]),
    ensures
        word_runs(join_spaces(ws)) == ws,
    decreases ws.len(),
{
    let p = |c: char| is_word_c(c);
    let t = join_spaces(ws);
    if ws.len() == 0 {
        assert(runs_from(t, 0, p) =~~= Seq::<Seq<char>>::empty());
        assert(word_runs(t) =~~= ws);
    } else if ws.len() == 1 {
        assert(t == ws[0]);
        assert(forall|m: int| 0 <= m < t.len() ==> p(t[m]));
        lemma_runs_block(t, 0, t.len() as int, p);
        assert(t.subrange(0, t.len() as int) =~= t);
        assert(runs_from(t, t.len() as int, p) =~~= Seq::<Seq<char>>::empty());
        assert(word_runs(t) =~~= ws);
    } else {
        let w0 = ws[0];
        let rest = ws.drop_first();
        let jr = join_spaces(rest);
        assert(t == w0 + seq![' '] + jr);
        let w0l = w0.len() as int;
        assert(forall|m: int| 0 <= m < w0l ==> #[trigger] t[m] == w0[m]);
        assert(t[w0l] == ' ');
        assert(!p(' '));
        lemma_runs_block(t, 0, w0l, p);
        assert(t.subrange(0, w0l) =~= w0);
        assert(runs_from(t, w0l, p) == runs_from(t, w0l + 1, p));
        lemma_runs_shift(t, w0l + 1, p);
        assert(t.skip(w0l + 1) =~= jr);
        assert(forall|k: int| 0 <= k < rest.len() ==> #[trigger] rest[k].len() > 0) by {
            assert(forall|k: int| 0 <= k < rest.len() ==> rest[k] == ws[k + 1]);
        }
        assert(forall|k: int, m: int|
            0 <= k < rest.len() && 0 <= m < rest[k].len() ==> is_word_c(#[trigger] rest[k][m]))
            by {
            assert(forall|k: int| 0 <= k < rest.len() ==> rest[k] == ws[k + 1]);
        }
        lemma_join_word_runs(rest);
        assert(word_runs(t) =~~= seq![w0] + rest);
        assert(seq![w0] + rest =~~= ws);
    }
}

/// Whatever holds of a space and of every character of every word holds of
/// every character of the joined text.
pub proof fn lemma_join_chars(ws: Seq<Seq<char>>, q: spec_fn(char) -> bool)
    requires
        q(' '),
        forall|k: int, m: int|
            0 <= k < ws.len() && 0 <= m < ws[k].len() ==> q(#[trigger] ws[k][m]),
    ensures
        forall|x: int| 0 <= x < join_spaces(ws).len() ==> q(#[trigger] join_spaces(ws)[x]),
    decreases ws.len(),
{
    let t = join_spaces(ws);
    if ws.len() == 0 {
    } else if ws.len() == 1 {
        assert(forall|x: int| 0 <= x < t.len() ==> t[x] == ws[0][x]);
    } else {
        let w0 = ws[0];
        let rest = ws.drop_first();
        let jr = join_spaces(rest);
        let w0l = w0.len() as int;
        assert(forall|k: int, m: int|
            0 <= k < rest.len() && 0 <= m < rest[k].len() ==> q(#[trigger] rest[k][m])) by {
            assert(forall|k: int| 0 <= k < rest.len() ==> rest[k] == ws[k + 1]);
        }
        lemma_join_chars(rest, q);
        assert(forall|x: int| 0 <= x < t.len() ==> q(#[trigger] t[x])) by {
            assert(forall|x: int| 0 <= x < w0l ==> #[trigger] t[x] == w0[x]);
            assert(t[w0l] == ' ');
            assert(forall|x: int| w0l + 1 <= x < t.len() ==> #[trigger] t[x] == jr[x - w0l - 1]);
        }
    }
}

/// Filtering a sequence whose every element passes the predicate changes
/// nothing.
pub proof fn lemma_filter_all<A>(s: Seq<A>, pred: spec_fn(A) -> bool)
    requires
        forall|k: int| 0 <= k < s.len() ==> pred(#[trigger] s[k]),
    ensures
        s.filter(pred) == s,
    decreases s.len(),
{
    reveal(Seq::filter);
    if s.len() == 0 {
        assert(s.filter(pred) =~= s);
    } else {
        lemma_filter_all(s.drop_last(), pred);
        assert(pred(s.last()));
        assert(s.drop_last().push(s.last()) =~= s);
    }
}

} // verus!
