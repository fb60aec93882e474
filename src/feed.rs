use vstd::prelude::*;
use crate::watch::VideoWatch;
use crate::tokens::{strs, lower_of, words_of, lowercase, split_words, contains_token, copy_tokens};
use crate::relevance::{gather, flatten, docs_view, push_gathered};
use crate::chain::{SuccessorChain, walk_spec};

verus! {

/// The lowercase terms of one watch.
pub struct WatchTerms {
    pub words: Seq<Seq<char>>,
    pub tags: Seq<Seq<char>>,
    pub liked: bool,
    pub disliked: bool,
}

/// Each tag, lowercased.
pub open spec fn lower_all(tags: Seq<String>) -> Seq<Seq<char>> {
    tags.map_values(|t: String| lower_of(t@))
}

/// The words of the lowercased title, and the lowercased tags, of a watch.
pub open spec fn terms_of(w: VideoWatch) -> WatchTerms {
    WatchTerms {
        words: words_of(lower_of(w.video_name@)),
        tags: lower_all(w.hashtags@),
        liked: w.liked,
        disliked: w.disliked,
    }
}

/// What a feed engine holds: the terms of each watch, oldest first, and the
/// excluded tokens in the order they were added.
pub struct FeedModel {
    pub events: Seq<WatchTerms>,
    pub exclusions: Seq<Seq<char>>,
}

/// The tokens a disliked watch adds to the exclusions: its tags, then its title words.
pub open spec fn excluded_by(t: WatchTerms) -> Seq<Seq<char>> {
    if t.disliked {
        t.tags + t.words
    } else {
        Seq::empty()
    }
}

/// The tokens of `s` that are not in `excl`, in order.
pub open spec fn without(s: Seq<Seq<char>>, excl: Seq<Seq<char>>) -> Seq<Seq<char>>
    decreases s.len(),
{
    if s.len() == 0 {
        Seq::empty()
    } else {
        without(s.drop_last(), excl) + if excl.contains(s.last()) {
            Seq::empty()
        } else {
            seq![s.last()]
        }
    }
}

/// One round of tokens of a watch: title words, tags, and the tags again if liked.
pub open spec fn round_of(t: WatchTerms, excl: Seq<Seq<char>>) -> Seq<Seq<char>> {
    without(t.words, excl) + without(t.tags, excl) + if t.liked {
        without(t.tags, excl)
    } else {
        Seq::empty()
    }
}

/// `r` copies of `s`, one after another.
pub open spec fn repeat(s: Seq<Seq<char>>, r: nat) -> Seq<Seq<char>>
    decreases r,
{
    if r == 0 {
        Seq::empty()
    } else {
        repeat(s, (r - 1) as nat) + s
    }
}

/// Rounds for the watch at position `i` (from 0) of `n`: 3 * (i + 1) / n, rounded up.
pub open spec fn rounds(i: nat, n: nat) -> nat {
    ((3 * (i + 1) + n - 1) / n as int) as nat
}

/// The tokens extracted from the first `k` watches.
pub open spec fn extract_upto(events: Seq<WatchTerms>, excl: Seq<Seq<char>>, k: nat) -> Seq<
    Seq<char>,
>
    decreases k,
{
    if k == 0 || k > events.len() {
        Seq::empty()
    } else {
        let e = events[k - 1];
        extract_upto(events, excl, (k - 1) as nat) + if e.disliked {
            Seq::empty()
        } else {
            repeat(round_of(e, excl), rounds((k - 1) as nat, events.len()))
        }
    }
}

/// The weighted token stream of a history.
pub open spec fn extracted(m: FeedModel) -> Seq<Seq<char>> {
    extract_upto(m.events, m.exclusions, m.events.len())
}

/// The documents of a history: for each watch that is not disliked, its
/// title words followed by its tags.
pub open spec fn docs_of(events: Seq<WatchTerms>) -> Seq<Seq<Seq<char>>>
    decreases events.len(),
{
    if events.len() == 0 {
        Seq::empty()
    } else {
        docs_of(events.drop_last()) + if events.last().disliked {
            Seq::empty()
        } else {
            seq![events.last().words + events.last().tags]
        }
    }
}

/// The tokens that relevance scoring ranks: each token of the documents that
/// is not excluded, once, in order of first occurrence.
pub open spec fn relevance_terms_spec(m: FeedModel) -> Seq<Seq<char>> {
    gather(flatten(docs_of(m.events)), m.exclusions)
}

/// The query returned when there is nothing to go on.
pub open spec fn fallback_query() -> Seq<Seq<char>> {
    seq!["trending"@]
}

/// The query made from a history, given its relevance ranking: the first
/// `word_count / 2` ranked tokens, then the tokens of a walk of as many steps
/// from the first of them (or from the first extracted token), each token
/// once, at most `word_count` of them.
pub open spec fn query_spec(m: FeedModel, ranking: Seq<Seq<char>>, word_count: nat) -> Seq<
    Seq<char>,
> {
    let words = extracted(m);
    if m.events.len() == 0 || words.len() == 0 {
        fallback_query()
    } else {
        let half = word_count / 2;
        let top = if ranking.len() <= half {
            ranking
        } else {
            ranking.take(half as int)
        };
        let start = if top.len() > 0 {
            top[0]
        } else {
            words[0]
        };
        let g = gather(top + walk_spec(words, start, half), Seq::empty());
        if g.len() <= word_count {
            g
        } else {
            g.take(word_count as int)
        }
    }
}

struct Terms {
    words: Vec<String>,
    tags: Vec<String>,
    liked: bool,
    disliked: bool,
}

impl View for Terms {
    type V = WatchTerms;

    closed spec fn view(&self) -> WatchTerms {
        WatchTerms {
            words: strs(self.words@),
            tags: strs(self.tags@),
            liked: self.liked,
            disliked: self.disliked,
        }
    }
}

/// Appends to `out` the tokens of `src` that are not in `excl`.
fn push_kept(out: &mut Vec<String>, src: &Vec<String>, excl: &Vec<String>)
    ensures
        strs(final(out)@) == strs(old(out)@) + without(strs(src@), strs(excl@)),
{
    let ghost s = strs(src@);
    let ghost e = strs(excl@);
    let ghost base = strs(out@);
    let mut j: usize = 0;
    assert(strs(out@) =~= base + without(s.take(0), e));
    while j < src.len()
        invariant
            j <= src@.len(),
            s == strs(src@),
            e == strs(excl@),
            strs(out@) == base + without(s.take(j as int), e),
        decreases src@.len() - j,
    {
        let ghost before = strs(out@);
        assert(s.take(j as int + 1).drop_last() =~= s.take(j as int));
        if !contains_token(excl, &src[j]) {
            out.push(src[j].clone());
            assert(strs(out@) =~= before.push(s[j as int]));
        }
        j = j + 1;
        assert(strs(out@) =~= base + without(s.take(j as int), e));
    }
    assert(s.take(j as int) =~= s);
}

fn lowercase_all(tags: &Vec<String>) -> (r: Vec<String>)
    ensures
        strs(r@) == lower_all(tags@),
{
    let mut r: Vec<String> = Vec::new();
    let mut i: usize = 0;
    while i < tags.len()
        invariant
            i <= tags@.len(),
            strs(r@) =~= lower_all(tags@).take(i as int),
        decreases tags@.len() - i,
    {
        let l = lowercase(tags[i].as_str());
        let ghost before = strs(r@);
        r.push(l);
        assert(strs(r@) =~= before.push(lower_of(tags@[i as int]@)));
        i = i + 1;
        assert(strs(r@) =~= lower_all(tags@).take(i as int));
    }
    r
}

/// Watch history and excluded tokens, from which search terms are made.
pub struct FeedEngine {
    history: Vec<VideoWatch>,
    terms: Vec<Terms>,
    blacklist: Vec<String>,
}

impl View for FeedEngine {
    type V = FeedModel;

    closed spec fn view(&self) -> FeedModel {
        FeedModel { events: self.terms@.map_values(|t: Terms| t@), exclusions: strs(self.blacklist@) }
    }
}

impl FeedEngine {
    pub closed spec fn wf(&self) -> bool {
        &&& self.history@.len() == self.terms@.len()
        &&& forall|i: int|
            0 <= i < self.terms@.len() ==> #[trigger] self.terms@[i]@ == terms_of(self.history@[i])
    }

    /// An engine with no history and no exclusions.
    pub fn new() -> (e: FeedEngine)
        ensures
            e.wf(),
            e@.events.len() == 0,
            e@.exclusions.len() == 0,
    {
        FeedEngine { history: Vec::new(), terms: Vec::new(), blacklist: Vec::new() }
    }

    /// Adds a watch to the history; a disliked watch first adds its tags and
    /// title words, lowercased, to the exclusions.
    pub fn add_watch(&mut self, watch: VideoWatch)
        requires
            old(self).wf(),
        ensures
            final(self).wf(),
            final(self)@.events == old(self)@.events.push(terms_of(watch)),
            final(self)@.exclusions == old(self)@.exclusions + excluded_by(terms_of(watch)),
    {
        let tags = lowercase_all(&watch.hashtags);
        let lower_name = lowercase(watch.video_name.as_str());
        let words = split_words(lower_name.as_str());
        let ghost old_excl = strs(self.blacklist@);
        if watch.disliked {
            let empty: Vec<String> = Vec::new();
            push_kept(&mut self.blacklist, &tags, &empty);
            push_kept(&mut self.blacklist, &words, &empty);
            proof {
                lemma_without_nothing(strs(tags@));
                lemma_without_nothing(strs(words@));
                assert(strs(empty@) =~= Seq::<Seq<char>>::empty());
            }
        }
        assert(strs(self.blacklist@) =~= old_excl + excluded_by(terms_of(watch)));
        let t = Terms { words, tags, liked: watch.liked, disliked: watch.disliked };
        let ghost old_terms = self.terms@;
        self.terms.push(t);
        self.history.push(watch);
        assert(self.terms@.map_values(|t: Terms| t@) =~= old_terms.map_values(|t: Terms| t@).push(
            terms_of(watch),
        ));
    }

    /// Number of watches in the history.
    pub fn history_len(&self) -> (r: usize)
        requires
            self.wf(),
        ensures
            r == self@.events.len(),
    {
        self.history.len()
    }

    /// The excluded tokens, in the order they were added.
    pub fn exclusions(&self) -> (r: &Vec<String>)
        ensures
            strs(r@) == self@.exclusions,
    {
        &self.blacklist
    }

    /// The weighted token stream: for each watch that is not disliked, in
    /// order, its round of tokens repeated by recency (once for the oldest,
    /// three times for the newest), leaving out excluded tokens.
    pub fn extract_words(&self) -> (r: Vec<String>)
        ensures
            strs(r@) == extracted(self@),
    {
        let n = self.terms.len();
        let ghost m = self@;
        let mut out: Vec<String> = Vec::new();
        let mut k: usize = 0;
        while k < n
            invariant
                n == self.terms@.len(),
                m == self@,
                k <= n,
                strs(out@) == extract_upto(m.events, m.exclusions, k as nat),
            decreases n - k,
        {
            let t = &self.terms[k];
            assert(m.events[k as int] == t@);
            if !t.disliked {
                let reps = rounds_exec(k, n);
                let ghost base = strs(out@);
                let ghost round = round_of(t@, m.exclusions);
                let mut r: usize = 0;
                assert(strs(out@) =~= base + repeat(round, 0));
                while r < reps
                    invariant
                        r <= reps,
                        strs(out@) == base + repeat(round, r as nat),
                        round == round_of(t@, m.exclusions),
                        m.exclusions == strs(self.blacklist@),
                    decreases reps - r,
                {
                    let ghost before = strs(out@);
                    push_kept(&mut out, &t.words, &self.blacklist);
                    push_kept(&mut out, &t.tags, &self.blacklist);
                    if t.liked {
                        push_kept(&mut out, &t.tags, &self.blacklist);
                    }
                    assert(strs(out@) =~= before + round);
                    r = r + 1;
                    assert(strs(out@) =~= base + repeat(round, r as nat));
                }
            }
            k = k + 1;
            assert(strs(out@) =~= extract_upto(m.events, m.exclusions, k as nat));
        }
        out
    }

    /// The documents that relevance scoring reads: for each watch that is not
    /// disliked, in order, its title words followed by its tags.
    pub fn documents(&self) -> (r: Vec<Vec<String>>)
        ensures
            docs_view(r@) == docs_of(self@.events),
    {
        let n = self.terms.len();
        let ghost ev = self@.events;
        let mut out: Vec<Vec<String>> = Vec::new();
        let mut k: usize = 0;
        assert(ev.take(0) =~= Seq::<WatchTerms>::empty());
        assert(docs_view(out@) =~= docs_of(ev.take(0)));
        while k < n
            invariant
                n == self.terms@.len(),
                ev == self@.events,
                k <= n,
                docs_view(out@) == docs_of(ev.take(k as int)),
            decreases n - k,
        {
            let t = &self.terms[k];
            assert(ev[k as int] == t@);
            assert(ev.take(k as int + 1).drop_last() =~= ev.take(k as int));
            let ghost before = docs_view(out@);
            if !t.disliked {
                let mut doc = copy_tokens(&t.words);
                let empty: Vec<String> = Vec::new();
                push_kept(&mut doc, &t.tags, &empty);
                proof {
                    assert(strs(empty@) =~= Seq::<Seq<char>>::empty());
                    lemma_without_nothing(strs(t.tags@));
                }
                out.push(doc);
                assert(docs_view(out@) =~= before.push(t@.words + t@.tags));
            }
            k = k + 1;
            assert(docs_view(out@) =~= docs_of(ev.take(k as int)));
        }
        assert(ev.take(n as int) =~= ev);
        out
    }

    /// The tokens that relevance scoring ranks: each token of the documents
    /// that is not excluded, once, in order of first occurrence.
    pub fn relevance_terms(&self) -> (r: Vec<String>)
        ensures
            strs(r@) == relevance_terms_spec(self@),
    {
        let docs = self.documents();
        let ghost d = docs_view(docs@);
        let mut out: Vec<String> = Vec::new();
        let mut j: usize = 0;
        assert(d.take(0) =~= Seq::<Seq<Seq<char>>>::empty());
        while j < docs.len()
            invariant
                j <= docs@.len(),
                d == docs_view(docs@),
                strs(self.blacklist@) == self@.exclusions,
                strs(out@) == gather(flatten(d.take(j as int)), self@.exclusions),
            decreases docs@.len() - j,
        {
            assert(d.take(j as int + 1).drop_last() =~= d.take(j as int));
            assert(d[j as int] == strs(docs@[j as int]@));
            push_gathered(&mut out, &docs[j], &self.blacklist, Ghost(flatten(d.take(j as int))));
            j = j + 1;
        }
        assert(d.take(j as int) =~= d);
        out
    }

    /// Search terms for the next fetch, given the relevance ranking of
    /// `relevance_terms`: the first `word_count / 2` ranked tokens, then the
    /// tokens of a walk of as many steps over the extracted token stream,
    /// from the first ranked token (or the first extracted one), each token
    /// once, at most `word_count` of them; `["trending"]` when the history is
    /// empty or yields no token.
    pub fn generate_query(&self, ranking: &Vec<String>, word_count: usize) -> (r: Vec<String>)
        requires
            self.wf(),
        ensures
            strs(r@) == query_spec(self@, strs(ranking@), word_count as nat),
    {
        if self.history.len() == 0 {
            let r = vec!["trending".to_owned()];
            assert(strs(r@) =~= fallback_query());
            return r;
        }
        let words = self.extract_words();
        if words.len() == 0 {
            let r = vec!["trending".to_owned()];
            assert(strs(r@) =~= fallback_query());
            return r;
        }
        let half = word_count / 2;
        let mut top = copy_tokens(ranking);
        let ghost ranked = strs(ranking@);
        let ghost before = top@;
        top.truncate(half);
        assert(strs(top@) =~= if ranked.len() <= half as nat {
            ranked
        } else {
            ranked.take(half as int)
        });
        let chain = SuccessorChain::build(&words);
        let walked = if top.len() > 0 {
            chain.walk(&top[0], half)
        } else {
            chain.walk(&words[0], half)
        };
        let empty: Vec<String> = Vec::new();
        let mut merged: Vec<String> = Vec::new();
        assert(strs(merged@) =~= gather(Seq::empty(), strs(empty@)));
        push_gathered(&mut merged, &top, &empty, Ghost(Seq::empty()));
        assert(Seq::<Seq<char>>::empty() + strs(top@) =~= strs(top@));
        push_gathered(&mut merged, &walked, &empty, Ghost(strs(top@)));
        assert(strs(empty@) =~= Seq::<Seq<char>>::empty());
        let ghost g = strs(merged@);
        merged.truncate(word_count);
        assert(strs(merged@) =~= if g.len() <= word_count as nat {
            g
        } else {
            g.take(word_count as int)
        });
        merged
    }
}

proof fn lemma_without_nothing(s: Seq<Seq<char>>)
    ensures
        without(s, Seq::empty()) == s,
    decreases s.len(),
{
    if s.len() > 0 {
        lemma_without_nothing(s.drop_last());
        assert(without(s, Seq::empty()) =~= s);
    }
}

fn rounds_exec(i: usize, n: usize) -> (r: usize)
    requires
        i < n,
    ensures
        r == rounds(i as nat, n as nat),
{
    let num: u128 = 3 * (i as u128 + 1) + n as u128 - 1;
    let q: u128 = num / (n as u128);
    assert(q <= 3) by (nonlinear_arith)
        requires q == num / (n as u128), num < 4 * (n as u128), n > 0;
    q as usize
}

} // verus!
