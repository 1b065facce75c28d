//! A fetcher owns one target URL, lives for one fetch, and turns the page
//! body into words: the critical-word variants first, then the plain words,
//! in the miner's order. The HTTP GET itself stays with the caller; a failed
//! fetch simply never reaches `process_body`.

use vstd::prelude::*;

use crate::miner::{parse, spec_clean, spec_critical_words, spec_plain_words};

verus! {

/// Every word one successful fetch emits, in emission order: critical
/// variants first, then plain words.
pub open spec fn fetched_words(body: Seq<char>) -> Seq<Seq<char>> {
    spec_critical_words(spec_clean(body)) + spec_plain_words(spec_clean(body))
}

/// One fetch target.
#[derive(Debug)]
pub struct Fetcher {
    url: String,
}

impl View for Fetcher {
    type V = Seq<char>;

    closed spec fn view(&self) -> Seq<char> {
        self.url@
    }
}

impl Fetcher {
    pub fn new(url: String) -> (r: Fetcher)
        ensures
            r@ == url@,
    {
        Fetcher { url }
    }

    /// The URL this fetcher will fetch.
    pub fn url(&self) -> (r: &str)
        ensures
            r@ == self@,
    {
        self.url.as_str()
    }

    /// Turns a fetched page body into the words this fetcher emits:
    /// critical-word variants first, then plain words.
    pub fn process_body(&self, body: &str) -> (r: Vec<String>)
        ensures
            r.deep_view() == fetched_words(body@),
    {
        let mut text = body.to_owned();
        let (critical, plain) = parse(&mut text);
        let ghost cd = critical.deep_view();
        let ghost pd = plain.deep_view();
        let mut r: Vec<String> = critical;
        let mut i: usize = 0;
        assert(r.deep_view() =~~= cd + pd.take(0));
        while i < plain.len()
            invariant
                i <= plain@.len(),
                pd == plain.deep_view(),
                pd.len() == plain@.len(),
                r.deep_view() == cd + pd.take(i as int),
            decreases plain@.len() - i,
        {
            let ghost old_r = r.deep_view();
            let w = plain[i].clone();
            r.push(w);
            assert(plain.deep_view()[i as int] == plain@[i as int]@);
            assert(r.deep_view() =~~= old_r.push(pd[i as int]));
            i = i + 1;
            assert(r.deep_view() =~~= cd + pd.take(i as int));
        }
        assert(pd.take(pd.len() as int) =~= pd);
        assert(r.deep_view() =~~= fetched_words(body@));
        r
    }
}

} // verus!
