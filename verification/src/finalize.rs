//! Finalization of the harvested word list: words outside the configured
//! length bounds go, case-insensitive duplicates go (the first occurrence
//! stays, in order), and words on the blacklist go. Reading blacklist files
//! and writing the result out stay with the caller.

use vstd::prelude::*;

use crate::filter::eq_ci;
use crate::text::chars_of;
use vstd::string::*;

verus! {

/// The suffix `s[i..]` with every word removed that repeats — up to ASCII
/// case — a word standing anywhere before it in `s`.
pub open spec fn dedup_ci(s: Seq<Seq<char>>, i: int) -> Seq<Seq<char>>
    decreases s.len() - i + 1,
{
    if i < 0 || i >= s.len() {
        Seq::empty()
    } else if exists|j: int| 0 <= j < i && eq_ci(s[j], s[i]) {
        dedup_ci(s, i + 1)
    } else {
        seq![s[i]] + dedup_ci(s, i + 1)
    }
}

/// Does `w` repeat, up to ASCII case, some entry of `list`?
pub open spec fn blacklisted(w: Seq<char>, list: Seq<Seq<char>>) -> bool {
    exists|j: int| 0 <= j < list.len() && eq_ci(list[j], w)
}

/// The finalized word list: length bounds first, then case-insensitive
/// deduplication keeping first occurrences, then blacklist removal.
pub open spec fn spec_finished(
    words: Seq<Seq<char>>,
    min: int,
    max: int,
    blacklist: Seq<Seq<char>>,
) -> Seq<Seq<char>> {
    dedup_ci(words.filter(|w: Seq<char>| min <= w.len() && w.len() <= max), 0).filter(
        |w: Seq<char>| !blacklisted(w, blacklist),
    )
}

/// Does `w` repeat, up to ASCII case, some entry of `list`?
fn contains_ci(list: &Vec<String>, w: &Vec<char>) -> (r: bool)
    ensures
        r == blacklisted(w@, list.deep_view()),
{
    let ghost lv = list.deep_view();
    let mut j: usize = 0;
    while j < list.len()
        invariant
            j <= list@.len(),
            lv == list.deep_view(),
            lv.len() == list@.len(),
            forall|m: int| 0 <= m < j ==> !eq_ci(lv[m], w@),
        decreases list@.len() - j,
    {
        assert(lv[j as int] == list@[j as int]@);
        let entry = chars_of(list[j].as_str());
        if crate::filter::chars_eq_ci(&entry, w) {
            return true;
        }
        j = j + 1;
    }
    false
}

/// Keeps the words whose character count lies within the bounds, in order.
fn retain_by_len(words: &Vec<String>, min_len: usize, max_len: usize) -> (r: Vec<String>)
    ensures
        r.deep_view() == words.deep_view().filter(
            |w: Seq<char>| min_len as int <= w.len() && w.len() <= max_len as int,
        ),
{
    let ghost pred = |w: Seq<char>| min_len as int <= w.len() && w.len() <= max_len as int;
    let ghost wv = words.deep_view();
    let mut r: Vec<String> = Vec::new();
    let mut i: usize = 0;
    proof {
        assert(wv.take(0) =~= Seq::<Seq<char>>::empty());
        assert(Seq::<Seq<char>>::empty().filter(pred) =~= Seq::<Seq<char>>::empty());
        assert(r.deep_view() =~~= Seq::<Seq<char>>::empty());
    }
    while i < words.len()
        invariant
            i <= words@.len(),
            wv == words.deep_view(),
            wv.len() == words@.len(),
            pred == (|w: Seq<char>| min_len as int <= w.len() && w.len() <= max_len as int),
            r.deep_view() == wv.take(i as int).filter(pred),
        decreases words@.len() - i,
    {
        assert(wv[i as int] == words@[i as int]@);
        let n = words[i].as_str().unicode_len();
        if min_len <= n && n <= max_len {
            let ghost old_r = r.deep_view();
            let w = words[i].clone();
            r.push(w);
            assert(r.deep_view() =~~= old_r.push(wv[i as int]));
        }
        proof {
            wv.take(i as int).lemma_filter_push(wv[i as int], pred);
            assert(wv.take(i + 1) =~= wv.take(i as int).push(wv[i as int]));
        }
        i = i + 1;
    }
    assert(wv.take(wv.len() as int) =~= wv);
    r
}

/// Does some word before position `i` repeat, up to ASCII case, the word
/// at `i`?
fn has_earlier_ci(words: &Vec<String>, i: usize) -> (r: bool)
    requires
        i < words@.len(),
    ensures
        r == exists|j: int|
            0 <= j < i && eq_ci(words.deep_view()[j], words.deep_view()[i as int]),
{
    let ghost wv = words.deep_view();
    let wc = chars_of(words[i].as_str());
    assert(wc@ == wv[i as int]);
    let mut j: usize = 0;
    while j < i
        invariant
            j <= i < words@.len(),
            wv == words.deep_view(),
            wv.len() == words@.len(),
            wc@ == wv[i as int],
            forall|m: int| 0 <= m < j ==> !eq_ci(wv[m], wv[i as int]),
        decreases i - j,
    {
        assert(wv[j as int] == words@[j as int]@);
        let entry = chars_of(words[j].as_str());
        if crate::filter::chars_eq_ci(&entry, &wc) {
            return true;
        }
        j = j + 1;
    }
    false
}

/// Removes every case-insensitive repetition, keeping first occurrences in
/// order.
fn dedup_words(words: &Vec<String>) -> (r: Vec<String>)
    ensures
        r.deep_view() == dedup_ci(words.deep_view(), 0),
{
    let ghost wv = words.deep_view();
    let mut out: Vec<String> = Vec::new();
    let mut i: usize = 0;
    proof {
        assert(out.deep_view() =~~= Seq::<Seq<char>>::empty());
    }
    while i < words.len()
        invariant
            i <= words@.len(),
            wv == words.deep_view(),
            wv.len() == words@.len(),
            dedup_ci(wv, 0) == out.deep_view() + dedup_ci(wv, i as int),
        decreases words@.len() - i,
    {
        assert(wv[i as int] == words@[i as int]@);
        if has_earlier_ci(words, i) {
            assert(dedup_ci(wv, i as int) == dedup_ci(wv, i + 1));
        } else {
            assert(dedup_ci(wv, i as int) == seq![wv[i as int]] + dedup_ci(wv, i + 1));
            let ghost ov = out.deep_view();
            let w = words[i].clone();
            out.push(w);
            assert(out.deep_view() =~~= ov.push(wv[i as int]));
        }
        i = i + 1;
        assert(dedup_ci(wv, 0) =~~= out.deep_view() + dedup_ci(wv, i as int));
    }
    assert(dedup_ci(wv, wv.len() as int) =~~= Seq::<Seq<char>>::empty());
    assert(out.deep_view() =~~= dedup_ci(wv, 0));
    out
}

/// Removes every word that repeats, up to ASCII case, a blacklist entry.
fn remove_blacklisted(words: &Vec<String>, blacklist: &Vec<String>) -> (r: Vec<String>)
    ensures
        r.deep_view() == words.deep_view().filter(
            |w: Seq<char>| !blacklisted(w, blacklist.deep_view()),
        ),
{
    let ghost pred = |w: Seq<char>| !blacklisted(w, blacklist.deep_view());
    let ghost wv = words.deep_view();
    let mut r: Vec<String> = Vec::new();
    let mut i: usize = 0;
    proof {
        assert(wv.take(0) =~= Seq::<Seq<char>>::empty());
        assert(Seq::<Seq<char>>::empty().filter(pred) =~= Seq::<Seq<char>>::empty());
        assert(r.deep_view() =~~= Seq::<Seq<char>>::empty());
    }
    while i < words.len()
        invariant
            i <= words@.len(),
            wv == words.deep_view(),
            wv.len() == words@.len(),
            pred == (|w: Seq<char>| !blacklisted(w, blacklist.deep_view())),
            r.deep_view() == wv.take(i as int).filter(pred),
        decreases words@.len() - i,
    {
        assert(wv[i as int] == words@[i as int]@);
        let wc = chars_of(words[i].as_str());
        if !contains_ci(blacklist, &wc) {
            let ghost old_r = r.deep_view();
            let w = words[i].clone();
            r.push(w);
            assert(r.deep_view() =~~= old_r.push(wv[i as int]));
        }
        proof {
            wv.take(i as int).lemma_filter_push(wv[i as int], pred);
            assert(wv.take(i + 1) =~= wv.take(i as int).push(wv[i as int]));
        }
        i = i + 1;
    }
    assert(wv.take(wv.len() as int) =~= wv);
    r
}

/// Finalizes the word list in place: length bounds, case-insensitive
/// dedup keeping first occurrences, then blacklist removal, in that order.
/// Lengths are counted in characters.
pub fn finish_wordlist(
    end_list: &mut Vec<String>,
    min_len: usize,
    max_len: usize,
    blacklist: &Vec<String>,
)
    ensures
        final(end_list).deep_view() == spec_finished(
            old(end_list).deep_view(),
            min_len as int,
            max_len as int,
            blacklist.deep_view(),
        ),
{
    let kept = retain_by_len(end_list, min_len, max_len);
    let deduped = dedup_words(&kept);
    let cleaned = remove_blacklisted(&deduped, blacklist);
    *end_list = cleaned;
}

} // verus!
