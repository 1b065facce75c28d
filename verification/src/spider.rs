//! The spider fans a link list out to one fetcher per link and fans every
//! emitted word back into a single list. The concurrent execution — one task
//! per fetcher, a shared channel, a join on every task — belongs to the
//! caller; what is fixed here is what that execution must produce: each
//! link's fetch outcome contributes its words in the fetcher's own order,
//! and a failed fetch contributes nothing.

use vstd::prelude::*;

use crate::fetcher::{fetched_words, Fetcher};

verus! {

/// The words collected from the fetch outcomes of a link list, in link
/// order: every successful page's words, nothing from the failures.
pub open spec fn spec_collected(pages: Seq<Option<Seq<char>>>) -> Seq<Seq<char>>
    decreases pages.len(),
{
    if pages.len() == 0 {
        Seq::empty()
    } else {
        (match pages[0] {
            Some(body) => fetched_words(body),
            None => Seq::empty(),
        }) + spec_collected(pages.drop_first())
    }
}

/// A spider owns the links of one crawl.
#[derive(Debug)]
pub struct Spider {
    link_vector: Vec<String>,
}

impl View for Spider {
    type V = Seq<Seq<char>>;

    closed spec fn view(&self) -> Seq<Seq<char>> {
        self.link_vector.deep_view()
    }
}

impl Spider {
    pub fn new(link_vector: Vec<String>) -> (r: Spider)
        ensures
            r@ == link_vector.deep_view(),
    {
        Spider { link_vector }
    }

    /// How many links this spider manages.
    pub fn link_count(&self) -> (r: usize)
        ensures
            r == self@.len(),
    {
        self.link_vector.len()
    }

    /// One fetcher per link, in link order.
    pub fn build_fetchers(&self) -> (r: Vec<Fetcher>)
        ensures
            r@.len() == self@.len(),
            forall|i: int| 0 <= i < r@.len() ==> (#[trigger] r@[i])@ == self@[i],
    {
        let mut fetchers: Vec<Fetcher> = Vec::new();
        let mut i: usize = 0;
        while i < self.link_vector.len()
            invariant
                i <= self.link_vector@.len(),
                self@.len() == self.link_vector@.len(),
                fetchers@.len() == i,
                forall|k: int| 0 <= k < i ==> (#[trigger] fetchers@[k])@ == self@[k],
            decreases self.link_vector@.len() - i,
        {
            let url = self.link_vector[i].clone();
            assert(self@[i as int] == self.link_vector@[i as int]@);
            fetchers.push(Fetcher::new(url));
            i = i + 1;
        }
        fetchers
    }

    /// The fan-in: given the fetch outcome of every link — a page body for a
    /// success, nothing for a failure — the word list of the whole crawl.
    /// Only the successful fetches contribute, each its mined words in its
    /// own order, and nothing else gets in.
    pub fn collect(&self, pages: &Vec<Option<String>>) -> (r: Vec<String>)
        requires
            pages@.len() == self@.len(),
        ensures
            r.deep_view() == spec_collected(pages.deep_view()),
    {
        let fetchers = self.build_fetchers();
        let ghost pv = pages.deep_view();
        let mut r: Vec<String> = Vec::new();
        let mut i: usize = 0;
        assert(r.deep_view() =~~= Seq::<Seq<char>>::empty());
        assert(pv.skip(0) =~= pv);
        while i < pages.len()
            invariant
                i <= pages@.len(),
                pv == pages.deep_view(),
                pv.len() == pages@.len(),
                fetchers@.len() == pages@.len(),
                spec_collected(pv) == r.deep_view() + spec_collected(pv.skip(i as int)),
            decreases pages@.len() - i,
        {
            assert(pv[i as int] == pages@[i as int].deep_view());
            assert(pv.skip(i as int)[0] == pv[i as int]);
            assert(pv.skip(i as int).drop_first() =~= pv.skip(i + 1));
            match &pages[i] {
                Some(body) => {
                    let words = fetchers[i].process_body(body.as_str());
                    let ghost wd = words.deep_view();
                    let ghost old_r = r.deep_view();
                    let mut w: usize = 0;
                    while w < words.len()
                        invariant
                            w <= words@.len(),
                            wd == words.deep_view(),
                            wd.len() == words@.len(),
                            r.deep_view() == old_r + wd.take(w as int),
                        decreases words@.len() - w,
                    {
                        let ghost before = r.deep_view();
                        let s = words[w].clone();
                        r.push(s);
                        assert(words.deep_view()[w as int] == words@[w as int]@);
                        assert(r.deep_view() =~~= before.push(wd[w as int]));
                        w = w + 1;
                        assert(r.deep_view() =~~= old_r + wd.take(w as int));
                    }
                    assert(wd.take(wd.len() as int) =~= wd);
                    assert(pv[i as int] == Some(body@));
                },
                None => {
                    assert(pv[i as int] is None);
                },
            }
            i = i + 1;
            assert(spec_collected(pv) =~~= r.deep_view() + spec_collected(pv.skip(i as int)));
        }
        assert(spec_collected(pv.skip(pv.len() as int)) =~~= Seq::<Seq<char>>::empty());
        assert(r.deep_view() =~~= spec_collected(pv));
        r
    }
}

/// A crawl whose every fetch failed collects the empty word list — failures
/// never poison the others, and a run of nothing but failures is still a
/// legitimate, empty outcome.
pub proof fn lemma_all_failures_collect_nothing(pages: Seq<Option<Seq<char>>>)
    requires
        forall|i: int| 0 <= i < pages.len() ==> (#[trigger] pages[i]) is None,
    ensures
        spec_collected(pages) == Seq::<Seq<char>>::empty(),
    decreases pages.len(),
{
    if pages.len() > 0 {
        assert(forall|i: int|
            0 <= i < pages.drop_first().len() ==> (#[trigger] pages.drop_first()[i])
                == pages[i + 1]);
        lemma_all_failures_collect_nothing(pages.drop_first());
        assert(spec_collected(pages) =~~= Seq::<Seq<char>>::empty());
    }
}

} // verus!
