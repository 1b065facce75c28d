//! The link quality filter: scores a candidate link against the query under
//! a configurable set of thresholds and word rules, exactly in this order:
//! a link whose path is absent or strips to no tokens is accepted outright;
//! a short path is accepted by the bypass rule; the required- and
//! excluded-word rules may reject; finally the match/extra ratios decide.

use vstd::prelude::*;

use crate::outside::{lowercase, lowered, strip_all, strip_pattern};
use crate::text::{
    alnum_runs, alnum_tokens, chars_of, contains_chars, contains_seq, find_at, find_from,
    is_upper_c, string_of,
};

verus! {

// ---------------------------------------------------------------------------
// Configuration
// ---------------------------------------------------------------------------

/// An exact rational threshold in place of a floating-point one: the value
/// `num / den`. Comparisons against it are done by cross-multiplication, so
/// no rounding is involved.
#[derive(Clone, Copy, Debug)]
pub struct Ratio {
    pub num: u32,
    pub den: u32,
}

impl Ratio {
    pub open spec fn wf(&self) -> bool {
        self.den > 0
    }

    /// The ratio 0 / 1.
    pub fn zero() -> (r: Ratio)
        ensures
            r.num == 0 && r.den == 1,
    {
        Ratio { num: 0, den: 1 }
    }

    /// The ratio 1 / 1.
    pub fn one() -> (r: Ratio)
        ensures
            r.num == 1 && r.den == 1,
    {
        Ratio { num: 1, den: 1 }
    }
}

/// The tunable settings of the link filter, loaded once and never mutated
/// during a run.
#[derive(Debug)]
pub struct FilterConfig {
    /// The least acceptable ratio of query tokens matched by the path.
    pub match_threshold: Ratio,
    /// The largest acceptable ratio of path tokens matching no query token.
    pub extra_threshold: Ratio,
    /// A path with at most this many tokens (and fewer than the query) is
    /// accepted without scoring.
    pub word_bypass_limit: usize,
    /// How many accepted links an engine may return; `None` is unlimited.
    pub max_links: Option<usize>,
    /// Words that must all occur in the cleaned path, case-insensitively.
    pub required_words: Vec<String>,
    /// Words none of which may occur in the raw path, case-insensitively.
    pub excluded_words: Vec<String>,
    /// Regular expressions whose matches are removed from the path before
    /// tokenization, in this order.
    pub ignored_patterns: Vec<String>,
}

/// The mathematical content of a `FilterConfig`.
pub struct FilterConfigView {
    pub match_num: int,
    pub match_den: int,
    pub extra_num: int,
    pub extra_den: int,
    pub bypass_limit: int,
    pub max_links: Option<int>,
    pub required: Seq<Seq<char>>,
    pub excluded: Seq<Seq<char>>,
    pub ignored: Seq<Seq<char>>,
}

impl View for FilterConfig {
    type V = FilterConfigView;

    open spec fn view(&self) -> FilterConfigView {
        FilterConfigView {
            match_num: self.match_threshold.num as int,
            match_den: self.match_threshold.den as int,
            extra_num: self.extra_threshold.num as int,
            extra_den: self.extra_threshold.den as int,
            bypass_limit: self.word_bypass_limit as int,
            max_links: match self.max_links {
                Some(m) => Some(m as int),
                None => None,
            },
            required: self.required_words.deep_view(),
            excluded: self.excluded_words.deep_view(),
            ignored: self.ignored_patterns.deep_view(),
        }
    }
}

impl FilterConfig {
    pub open spec fn wf(&self) -> bool {
        self.match_threshold.wf() && self.extra_threshold.wf()
    }

    /// The most permissive configuration: no threshold bites, no word rules.
    pub fn permissive() -> (r: FilterConfig)
        ensures
            r.wf(),
            r@.match_num == 0,
            r@.extra_num == r@.extra_den,
            r@.bypass_limit == 0,
            r@.max_links is None,
            r@.required.len() == 0,
            r@.excluded.len() == 0,
            r@.ignored.len() == 0,
    {
        FilterConfig {
            match_threshold: Ratio::zero(),
            extra_threshold: Ratio::one(),
            word_bypass_limit: 0,
            max_links: None,
            required_words: Vec::new(),
            excluded_words: Vec::new(),
            ignored_patterns: Vec::new(),
        }
    }
}

// ---------------------------------------------------------------------------
// Path extraction: everything after the host
// ---------------------------------------------------------------------------

pub open spec fn http_prefix() -> Seq<char> {
    seq!['h', 't', 't', 'p', ':', '/', '/']
}

pub open spec fn https_prefix() -> Seq<char> {
    seq!['h', 't', 't', 'p', 's', ':', '/', '/']
}

/// The position right after the URL scheme, if the link carries one.
pub open spec fn scheme_end(link: Seq<char>) -> Option<int> {
    if link.len() >= 8 && link.subrange(0, 8) == https_prefix() {
        Some(8)
    } else if link.len() >= 7 && link.subrange(0, 7) == http_prefix() {
        Some(7)
    } else {
        None
    }
}

/// The path of a link: everything after the first `/` that follows a
/// non-empty host. `None` when the link has no scheme, no host or an empty
/// path; such a link is accepted outright.
pub open spec fn spec_link_path(link: Seq<char>) -> Option<Seq<char>> {
    match scheme_end(link) {
        None => None,
        Some(se) => match find_at(link, seq!['/'], se) {
            None => None,
            Some(j) => if j == se || j + 1 >= link.len() {
                None
            } else {
                Some(link.skip(j + 1))
            },
        },
    }
}

/// Extracts the path part of a link, as `spec_link_path` describes it.
pub fn link_path(link: &Vec<char>) -> (r: Option<Vec<char>>)
    ensures
        match r {
            Some(p) => spec_link_path(link@) == Some(p@),
            None => spec_link_path(link@) is None,
        },
{
    let https: Vec<char> = vec!['h', 't', 't', 'p', 's', ':', '/', '/'];
    let http: Vec<char> = vec!['h', 't', 't', 'p', ':', '/', '/'];
    assert(https@ =~= https_prefix());
    assert(http@ =~= http_prefix());
    let se: usize;
    if link.len() >= 8 && prefix_eq(link, &https) {
        se = 8;
        assert(scheme_end(link@) == Some(8int));
    } else if link.len() >= 7 && prefix_eq(link, &http) {
        se = 7;
        assert(scheme_end(link@) == Some(7int)) by {
            if link@.len() >= 8 && link@.subrange(0, 8) == https_prefix() {
                assert(link@.subrange(0, 8)[4] == link@[4]);
                assert(link@.subrange(0, 7)[4] == link@[4]);
                assert(https_prefix()[4] == 's');
                assert(http_prefix()[4] == ':');
            }
        }
    } else {
        assert(scheme_end(link@) is None);
        return None;
    }
    let slash: Vec<char> = vec!['/'];
    assert(slash@ =~= seq!['/']);
    match find_from(link, &slash, se) {
        None => None,
        Some(j) => {
            proof {
                crate::text::lemma_find_at_some(link@, slash@, se as int);
            }
            if j == se || j + 1 >= link.len() {
                None
            } else {
                let mut p: Vec<char> = Vec::new();
                crate::text::append_range(&mut p, link, j + 1, link.len());
                assert(p@ =~= link@.skip(j + 1));
                Some(p)
            }
        },
    }
}

/// Does `pre` occur at the very start of `t`?
fn prefix_eq(t: &Vec<char>, pre: &Vec<char>) -> (r: bool)
    requires
        pre@.len() <= t@.len(),
    ensures
        r == (t@.subrange(0, pre@.len() as int) == pre@),
{
    let mut k: usize = 0;
    while k < pre.len()
        invariant
            k <= pre@.len() <= t@.len(),
            forall|m: int| 0 <= m < k ==> t@[m] == pre@[m],
        decreases pre@.len() - k,
    {
        if t[k] != pre[k] {
            assert(t@.subrange(0, pre@.len() as int)[k as int] == t@[k as int]);
            return false;
        }
        k = k + 1;
    }
    assert(t@.subrange(0, pre@.len() as int) =~= pre@);
    true
}

// ---------------------------------------------------------------------------
// Case-insensitive token matching: tokens compare equal up to ASCII case
// ---------------------------------------------------------------------------

/// The code point of `c` with an ASCII capital folded to its lowercase.
pub open spec fn fold_c(c: char) -> int {
    if is_upper_c(c) {
        c as int + 32
    } else {
        c as int
    }
}

/// Two tokens are equal up to ASCII case.
pub open spec fn eq_ci(a: Seq<char>, b: Seq<char>) -> bool {
    a.len() == b.len() && forall|k: int| 0 <= k < a.len() ==> fold_c(a[k]) == fold_c(b[k])
}

fn fold_char(c: char) -> (r: u32)
    ensures
        r as int == fold_c(c),
{
    let u = c as u32;
    if ('A' as u32) <= u && u <= ('Z' as u32) {
        u + 32
    } else {
        u
    }
}

/// Are two tokens equal up to ASCII case?
pub fn chars_eq_ci(a: &Vec<char>, b: &Vec<char>) -> (r: bool)
    ensures
        r == eq_ci(a@, b@),
{
    if a.len() != b.len() {
        return false;
    }
    let mut k: usize = 0;
    while k < a.len()
        invariant
            k <= a@.len() == b@.len(),
            forall|m: int| 0 <= m < k ==> fold_c(a@[m]) == fold_c(b@[m]),
        decreases a@.len() - k,
    {
        if fold_char(a[k]) != fold_char(b[k]) {
            return false;
        }
        k = k + 1;
    }
    true
}

/// Does `tok` match some token of `toks`, case-insensitively?
pub open spec fn has_ci_match(tok: Seq<char>, toks: Seq<Seq<char>>) -> bool {
    exists|j: int| 0 <= j < toks.len() && eq_ci(tok, toks[j])
}

/// How many tokens of `qtoks` have a case-insensitive match in `ptoks`.
pub open spec fn count_matched(qtoks: Seq<Seq<char>>, ptoks: Seq<Seq<char>>) -> int
    decreases qtoks.len(),
{
    if qtoks.len() == 0 {
        0
    } else {
        count_matched(qtoks.drop_last(), ptoks) + if has_ci_match(qtoks.last(), ptoks) {
            1int
        } else {
            0int
        }
    }
}

pub proof fn lemma_count_matched_bounds(qtoks: Seq<Seq<char>>, ptoks: Seq<Seq<char>>)
    ensures
        0 <= count_matched(qtoks, ptoks) <= qtoks.len(),
    decreases qtoks.len(),
{
    if qtoks.len() > 0 {
        lemma_count_matched_bounds(qtoks.drop_last(), ptoks);
    }
}

fn token_has_match(tok: &Vec<char>, toks: &Vec<Vec<char>>) -> (r: bool)
    ensures
        r == has_ci_match(tok@, toks.deep_view()),
{
    let mut j: usize = 0;
    while j < toks.len()
        invariant
            j <= toks@.len(),
            toks.deep_view().len() == toks@.len(),
            forall|m: int| 0 <= m < j ==> !eq_ci(tok@, toks.deep_view()[m]),
        decreases toks@.len() - j,
    {
        assert(toks.deep_view()[j as int] == toks@[j as int]@);
        if chars_eq_ci(tok, &toks[j]) {
            return true;
        }
        j = j + 1;
    }
    false
}

/// Counts the query tokens that match some path token, case-insensitively.
fn count_matches(qtoks: &Vec<Vec<char>>, ptoks: &Vec<Vec<char>>) -> (r: usize)
    ensures
        r as int == count_matched(qtoks.deep_view(), ptoks.deep_view()),
        r <= qtoks@.len(),
{
    let ghost qv = qtoks.deep_view();
    let mut r: usize = 0;
    let mut i: usize = 0;
    proof {
        assert(qv.take(0) =~= Seq::<Seq<char>>::empty());
    }
    while i < qtoks.len()
        invariant
            i <= qtoks@.len(),
            qv == qtoks.deep_view(),
            qv.len() == qtoks@.len(),
            r <= i,
            r as int == count_matched(qv.take(i as int), ptoks.deep_view()),
        decreases qtoks@.len() - i,
    {
        assert(qv[i as int] == qtoks@[i as int]@);
        let m = token_has_match(&qtoks[i], ptoks);
        proof {
            assert(qv.take(i + 1).drop_last() =~= qv.take(i as int));
            assert(qv.take(i + 1).last() == qv[i as int]);
        }
        if m {
            r = r + 1;
        }
        i = i + 1;
    }
    assert(qv.take(qv.len() as int) =~= qv);
    r
}

// ---------------------------------------------------------------------------
// Stripping the ignored patterns, in configured order
// ---------------------------------------------------------------------------

/// `path` with every match of every pattern removed, applying the patterns
/// in order: each one works on the previous one's output.
pub open spec fn strip_seq(patterns: Seq<Seq<char>>, path: Seq<char>) -> Seq<char>
    decreases patterns.len(),
{
    if patterns.len() == 0 {
        path
    } else {
        strip_seq(patterns.drop_first(), strip_all(patterns[0], path))
    }
}

/// Removes every match of every pattern from `path`, in configured order.
fn strip_with_patterns(pats: &Vec<String>, path: &Vec<char>) -> (r: Vec<char>)
    ensures
        r@ == strip_seq(pats.deep_view(), path@),
{
    let ghost pv = pats.deep_view();
    let mut cur: Vec<char> = Vec::new();
    crate::text::append_range(&mut cur, path, 0, path.len());
    assert(cur@ =~= path@);
    assert(pv.skip(0) =~= pv);
    let mut i: usize = 0;
    while i < pats.len()
        invariant
            i <= pats@.len(),
            pv == pats.deep_view(),
            pv.len() == pats@.len(),
            strip_seq(pv, path@) == strip_seq(pv.skip(i as int), cur@),
        decreases pats@.len() - i,
    {
        assert(pv.skip(i as int)[0] == pv[i as int]);
        assert(pv[i as int] == pats@[i as int]@);
        let s = string_of(&cur);
        let stripped = strip_pattern(pats[i].as_str(), s.as_str());
        cur = chars_of(stripped.as_str());
        proof {
            assert(pv.skip(i as int).drop_first() =~= pv.skip(i + 1));
        }
        i = i + 1;
    }
    assert(pv.skip(pv.len() as int) =~= Seq::<Seq<char>>::empty());
    cur
}

// ---------------------------------------------------------------------------
// The acceptance rule
// ---------------------------------------------------------------------------

/// Every required word occurs, case-insensitively, in the cleaned path.
pub open spec fn required_ok(stripped: Seq<char>, required: Seq<Seq<char>>) -> bool {
    forall|k: int|
        0 <= k < required.len() ==> contains_seq(lowered(stripped), lowered(#[trigger] required[k]))
}

/// Some excluded word occurs, case-insensitively, in the raw path.
pub open spec fn excluded_hit(raw: Seq<char>, excluded: Seq<Seq<char>>) -> bool {
    exists|k: int|
        0 <= k < excluded.len() && contains_seq(lowered(raw), lowered(#[trigger] excluded[k]))
}

/// The two threshold comparisons, by exact cross-multiplication.
///
/// With `m` matched query tokens out of `qc`, the match ratio `m / qc` is
/// taken as 1 when every query token matched (also when `qc` is 0), and must
/// reach `match_num / match_den`. The extra ratio `(pc - m) / pc` must not
/// exceed `extra_num / extra_den`; a path whose every token matched the query
/// passes it trivially.
pub open spec fn score_ok(qtoks: Seq<Seq<char>>, ptoks: Seq<Seq<char>>, cfg: FilterConfigView) -> bool {
    let qc = qtoks.len() as int;
    let pc = ptoks.len() as int;
    let m = count_matched(qtoks, ptoks);
    let match_ok = if m == qc {
        cfg.match_num <= cfg.match_den
    } else {
        m * cfg.match_den >= cfg.match_num * qc
    };
    let extra_ok = (pc - m) * cfg.extra_den <= cfg.extra_num * pc;
    match_ok && extra_ok
}

/// Whether the filter accepts `link` for `query` under `cfg`. The checks
/// run in a fixed order — no-path acceptance, the bypass rule, the
/// required-word rule, the excluded-word rule, then the threshold scoring —
/// and the earlier ones short-circuit the later.
pub open spec fn spec_accepts(link: Seq<char>, query: Seq<char>, cfg: FilterConfigView) -> bool {
    match spec_link_path(link) {
        None => true,
        Some(raw) => {
            let stripped = strip_seq(cfg.ignored, raw);
            let ptoks = alnum_runs(stripped);
            let qtoks = alnum_runs(query);
            if ptoks.len() == 0 {
                true
            } else if ptoks.len() <= cfg.bypass_limit && ptoks.len() < qtoks.len() {
                true
            } else if !required_ok(stripped, cfg.required) {
                false
            } else if excluded_hit(raw, cfg.excluded) {
                false
            } else {
                score_ok(qtoks, ptoks, cfg)
            }
        },
    }
}

/// Lowercases the characters through the trusted wrapper.
fn lowered_chars(v: &Vec<char>) -> (r: Vec<char>)
    ensures
        r@ == lowered(v@),
{
    let s = string_of(v);
    let l = lowercase(s.as_str());
    chars_of(l.as_str())
}

/// Does the filter accept this link for this query? Pure: reads nothing but
/// its arguments, and never mutates them.
#[verifier::loop_isolation(false)]
pub fn accepts(link: &str, query: &str, cfg: &FilterConfig) -> (r: bool)
    requires
        cfg.wf(),
    ensures
        r == spec_accepts(link@, query@, cfg@),
{
    let link_cs = chars_of(link);
    let raw = match link_path(&link_cs) {
        None => {
            return true;
        },
        Some(raw) => raw,
    };
    let stripped = strip_with_patterns(&cfg.ignored_patterns, &raw);
    let ptoks = alnum_tokens(&stripped);
    let query_cs = chars_of(query);
    let qtoks = alnum_tokens(&query_cs);
    if ptoks.len() == 0 {
        return true;
    }
    if ptoks.len() <= cfg.word_bypass_limit && ptoks.len() < qtoks.len() {
        return true;
    }
    // Required words must all occur in the cleaned, lowercased path.
    let stripped_lower = lowered_chars(&stripped);
    let ghost req = cfg.required_words.deep_view();
    let mut k: usize = 0;
    while k < cfg.required_words.len()
        invariant
            k <= cfg.required_words@.len(),
            req == cfg.required_words.deep_view(),
            req.len() == cfg.required_words@.len(),
            stripped_lower@ == lowered(stripped@),
            forall|m: int|
                0 <= m < k ==> contains_seq(lowered(stripped@), lowered(#[trigger] req[m])),
        decreases cfg.required_words@.len() - k,
    {
        assert(req[k as int] == cfg.required_words@[k as int]@);
        let w = chars_of(cfg.required_words[k].as_str());
        let wl = lowered_chars(&w);
        if !contains_chars(&stripped_lower, &wl) {
            assert(!required_ok(stripped@, req));
            return false;
        }
        k = k + 1;
    }
    assert(required_ok(stripped@, req));
    // No excluded word may occur in the raw, lowercased path.
    let raw_lower = lowered_chars(&raw);
    let ghost exc = cfg.excluded_words.deep_view();
    let mut k2: usize = 0;
    while k2 < cfg.excluded_words.len()
        invariant
            k2 <= cfg.excluded_words@.len(),
            exc == cfg.excluded_words.deep_view(),
            exc.len() == cfg.excluded_words@.len(),
            raw_lower@ == lowered(raw@),
            forall|m: int|
                0 <= m < k2 ==> !contains_seq(lowered(raw@), lowered(#[trigger] exc[m])),
        decreases cfg.excluded_words@.len() - k2,
    {
        assert(exc[k2 as int] == cfg.excluded_words@[k2 as int]@);
        let w = chars_of(cfg.excluded_words[k2].as_str());
        let wl = lowered_chars(&w);
        if contains_chars(&raw_lower, &wl) {
            assert(excluded_hit(raw@, exc));
            return false;
        }
        k2 = k2 + 1;
    }
    assert(!excluded_hit(raw@, exc));
    // Threshold scoring by exact cross-multiplication.
    let m = count_matches(&qtoks, &ptoks);
    let qc = qtoks.len();
    let pc = ptoks.len();
    let match_ok: bool;
    if m == qc {
        match_ok = cfg.match_threshold.num <= cfg.match_threshold.den;
    } else {
        proof {
            lemma_u64_u32_product_fits(m as int, cfg.match_threshold.den as int);
            lemma_u64_u32_product_fits(qc as int, cfg.match_threshold.num as int);
        }
        let lhs = (m as u128) * (cfg.match_threshold.den as u128);
        let rhs = (cfg.match_threshold.num as u128) * (qc as u128);
        match_ok = lhs >= rhs;
    }
    let extra_ok: bool;
    if m >= pc {
        extra_ok = true;
        proof {
            let mi = m as int;
            let pci = pc as int;
            vstd::arithmetic::mul::lemma_mul_inequality(pci - mi, 0, cfg@.extra_den);
            vstd::arithmetic::mul::lemma_mul_nonnegative(cfg@.extra_num, pci);
        }
    } else {
        proof {
            lemma_u64_u32_product_fits((pc - m) as int, cfg.extra_threshold.den as int);
            lemma_u64_u32_product_fits(pc as int, cfg.extra_threshold.num as int);
        }
        let lhs = ((pc - m) as u128) * (cfg.extra_threshold.den as u128);
        let rhs = (cfg.extra_threshold.num as u128) * (pc as u128);
        extra_ok = lhs <= rhs;
    }
    match_ok && extra_ok
}

/// The product of a value that fits in 64 bits and one that fits in 32 bits
/// fits comfortably in 128 bits.
proof fn lemma_u64_u32_product_fits(a: int, b: int)
    requires
        0 <= a <= 0xffff_ffff_ffff_ffff,
        0 <= b <= 0xffff_ffff,
    ensures
        0 <= a * b <= 0xffff_ffff_ffff_ffff_ffff_ffff_ffff_ffff,
{
    assert(a * b <= 0xffff_ffff_ffff_ffff * 0xffff_ffff && 0 <= a * b) by (nonlinear_arith)
        requires
            0 <= a <= 0xffff_ffff_ffff_ffff,
            0 <= b <= 0xffff_ffff,
    ;
}

// ---------------------------------------------------------------------------
// Laws of the acceptance rule
// ---------------------------------------------------------------------------

/// A link without a path — no scheme, no host, or nothing after the host —
/// is accepted whatever the query and the configuration say.
pub proof fn lemma_accepts_pathless(link: Seq<char>, query: Seq<char>, cfg: FilterConfigView)
    requires
        spec_link_path(link) is None,
    ensures
        spec_accepts(link, query, cfg),
{
}

/// With the thresholds fully open — a match threshold of zero and an extra
/// threshold of one — every link that the required- and excluded-word rules
/// allow is accepted, bypassed or not.
pub proof fn lemma_accepts_permissive(link: Seq<char>, query: Seq<char>, cfg: FilterConfigView)
    requires
        cfg.match_num == 0,
        cfg.match_den >= 0,
        cfg.extra_num == cfg.extra_den,
        cfg.extra_den >= 0,
        match spec_link_path(link) {
            None => true,
            Some(raw) => required_ok(strip_seq(cfg.ignored, raw), cfg.required) && !excluded_hit(
                raw,
                cfg.excluded,
            ),
        },
    ensures
        spec_accepts(link, query, cfg),
{
    match spec_link_path(link) {
        None => {},
        Some(raw) => {
            let stripped = strip_seq(cfg.ignored, raw);
            let ptoks = alnum_runs(stripped);
            let qtoks = alnum_runs(query);
            lemma_count_matched_bounds(qtoks, ptoks);
            let m = count_matched(qtoks, ptoks);
            let qc = qtoks.len() as int;
            let pc = ptoks.len() as int;
            if m != qc {
                vstd::arithmetic::mul::lemma_mul_nonnegative(m, cfg.match_den);
            }
            vstd::arithmetic::mul::lemma_mul_inequality(pc - m, pc, cfg.extra_den);
        },
    }
}

/// Required-word rejection is monotonic: adding one more required word can
/// only shrink the set of accepted links, never turn a rejected link into an
/// accepted one.
pub proof fn lemma_required_word_monotonic(
    link: Seq<char>,
    query: Seq<char>,
    cfg: FilterConfigView,
    cfg2: FilterConfigView,
    w: Seq<char>,
)
    requires
        cfg2.required == cfg.required.push(w),
        cfg2.match_num == cfg.match_num,
        cfg2.match_den == cfg.match_den,
        cfg2.extra_num == cfg.extra_num,
        cfg2.extra_den == cfg.extra_den,
        cfg2.bypass_limit == cfg.bypass_limit,
        cfg2.excluded == cfg.excluded,
        cfg2.ignored == cfg.ignored,
        spec_accepts(link, query, cfg2),
    ensures
        spec_accepts(link, query, cfg),
{
    match spec_link_path(link) {
        None => {},
        Some(raw) => {
            let stripped = strip_seq(cfg.ignored, raw);
            if required_ok(stripped, cfg2.required) {
                assert(forall|k: int| 0 <= k < cfg.required.len() ==> #[trigger] cfg.required[k]
                    == cfg2.required[k]);
                assert(required_ok(stripped, cfg.required));
            }
        },
    }
}

/// Keeps exactly the links that the filter accepts, in order.
pub fn filter_links(links: &mut Vec<String>, query: &str, cfg: &FilterConfig)
    requires
        cfg.wf(),
    ensures
        final(links).deep_view() == old(links).deep_view().filter(
            |l: Seq<char>| spec_accepts(l, query@, cfg@),
        ),
{
    let ghost pred = |l: Seq<char>| spec_accepts(l, query@, cfg@);
    let ghost lv = links.deep_view();
    let mut out: Vec<String> = Vec::new();
    let mut i: usize = 0;
    proof {
        assert(lv.take(0) =~= Seq::<Seq<char>>::empty());
        assert(Seq::<Seq<char>>::empty().filter(pred) =~= Seq::<Seq<char>>::empty());
        assert(out.deep_view() =~= Seq::<Seq<char>>::empty());
    }
    while i < links.len()
        invariant
            i <= links@.len(),
            lv == links.deep_view(),
            lv.len() == links@.len(),
            cfg.wf(),
            pred == (|l: Seq<char>| spec_accepts(l, query@, cfg@)),
            out.deep_view() == lv.take(i as int).filter(pred),
        decreases links@.len() - i,
    {
        assert(lv[i as int] == links@[i as int]@);
        let ghost old_out = out.deep_view();
        let keep = accepts(links[i].as_str(), query, cfg);
        if keep {
            let l = links[i].clone();
            out.push(l);
            assert(out.deep_view() =~~= old_out.push(lv[i as int]));
        }
        proof {
            lv.take(i as int).lemma_filter_push(lv[i as int], pred);
            assert(lv.take(i + 1) =~= lv.take(i as int).push(lv[i as int]));
        }
        i = i + 1;
    }
    assert(lv.take(lv.len() as int) =~= lv);
    *links = out;
}

} // verus!
