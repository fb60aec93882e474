use vstd::prelude::*;
use crate::feed::{
    FeedModel, WatchTerms, without, round_of, repeat, extract_upto, extracted, docs_of,
    relevance_terms_spec, query_spec, rounds,
};
use crate::chain::{succ, walk_from, walk_spec, rotation};
use crate::relevance::{gather, flatten, top_ranked, lemma_ranked_from_terms};

verus! {

/// No token of `s` is in `e`.
pub open spec fn avoids(s: Seq<Seq<char>>, e: Seq<Seq<char>>) -> bool {
    forall|i: int| 0 <= i < s.len() ==> !e.contains(#[trigger] s[i])
}

proof fn lemma_concat_avoids(a: Seq<Seq<char>>, b: Seq<Seq<char>>, e: Seq<Seq<char>>)
    requires
        avoids(a, e),
        avoids(b, e),
    ensures
        avoids(a + b, e),
{
    assert forall|i: int| 0 <= i < (a + b).len() implies !e.contains(#[trigger] (a + b)[i]) by {
        if i >= a.len() {
            assert((a + b)[i] == b[i - a.len()]);
        }
    }
}

proof fn lemma_without_avoids(s: Seq<Seq<char>>, e: Seq<Seq<char>>)
    ensures
        avoids(without(s, e), e),
    decreases s.len(),
{
    if s.len() > 0 {
        lemma_without_avoids(s.drop_last(), e);
        lemma_concat_avoids(
            without(s.drop_last(), e),
            if e.contains(s.last()) {
                Seq::empty()
            } else {
                seq![s.last()]
            },
            e,
        );
    }
}

proof fn lemma_repeat_avoids(s: Seq<Seq<char>>, r: nat, e: Seq<Seq<char>>)
    requires
        avoids(s, e),
    ensures
        avoids(repeat(s, r), e),
    decreases r,
{
    if r > 0 {
        lemma_repeat_avoids(s, (r - 1) as nat, e);
        lemma_concat_avoids(repeat(s, (r - 1) as nat), s, e);
    }
}

proof fn lemma_round_avoids(t: WatchTerms, e: Seq<Seq<char>>)
    ensures
        avoids(round_of(t, e), e),
{
    lemma_without_avoids(t.words, e);
    lemma_without_avoids(t.tags, e);
    lemma_concat_avoids(without(t.words, e), without(t.tags, e), e);
    assert(avoids(Seq::<Seq<char>>::empty(), e));
    lemma_concat_avoids(
        without(t.words, e) + without(t.tags, e),
        if t.liked {
            without(t.tags, e)
        } else {
            Seq::empty()
        },
        e,
    );
}

proof fn lemma_extract_avoids(events: Seq<WatchTerms>, e: Seq<Seq<char>>, k: nat)
    ensures
        avoids(extract_upto(events, e, k), e),
    decreases k,
{
    if k > 0 && k <= events.len() {
        let t = events[k - 1];
        lemma_extract_avoids(events, e, (k - 1) as nat);
        lemma_round_avoids(t, e);
        lemma_repeat_avoids(round_of(t, e), rounds((k - 1) as nat, events.len()), e);
        assert(avoids(Seq::<Seq<char>>::empty(), e));
        lemma_concat_avoids(
            extract_upto(events, e, (k - 1) as nat),
            if t.disliked {
                Seq::empty()
            } else {
                repeat(round_of(t, e), rounds((k - 1) as nat, events.len()))
            },
            e,
        );
    }
}

proof fn lemma_gather_avoids(s: Seq<Seq<char>>, e: Seq<Seq<char>>)
    ensures
        avoids(gather(s, e), e),
    decreases s.len(),
{
    if s.len() > 0 {
        lemma_gather_avoids(s.drop_last(), e);
    }
}

/// An excluded token is never emitted, neither in the extracted token stream
/// nor among the tokens that relevance scoring ranks, whatever watches came
/// after the one that excluded it.
pub proof fn lemma_excluded_never_emitted(m: FeedModel)
    ensures
        avoids(extracted(m), m.exclusions),
        avoids(relevance_terms_spec(m), m.exclusions),
{
    lemma_extract_avoids(m.events, m.exclusions, m.events.len());
    lemma_gather_avoids(flatten(docs_of(m.events)), m.exclusions);
}


proof fn lemma_gather_unique_within(s: Seq<Seq<char>>, e: Seq<Seq<char>>)
    ensures
        gather(s, e).no_duplicates(),
        forall|i: int| 0 <= i < gather(s, e).len() ==> s.contains(#[trigger] gather(s, e)[i]),
    decreases s.len(),
{
    if s.len() > 0 {
        let p = s.drop_last();
        lemma_gather_unique_within(p, e);
        let g = gather(p, e);
        assert forall|i: int| 0 <= i < g.len() implies s.contains(#[trigger] g[i]) by {
            let w = choose|w: int| 0 <= w < p.len() && p[w] == g[i];
            assert(s[w] == g[i]);
        }
        assert(s[s.len() - 1] == s.last());
        if !(e.contains(s.last()) || g.contains(s.last())) {
            let n = g.push(s.last());
            assert forall|a: int, b: int|
                0 <= a < n.len() && 0 <= b < n.len() && a != b implies n[a] != n[b] by {
                if a == g.len() {
                    assert(g.contains(n[b]));
                } else if b == g.len() {
                    assert(g.contains(n[a]));
                }
            }
        }
    }
}

proof fn lemma_succ_within(s: Seq<Seq<char>>, t: Seq<char>)
    ensures
        forall|i: int| 0 <= i < succ(s, t).len() ==> s.contains(#[trigger] succ(s, t)[i]),
    decreases s.len(),
{
    if s.len() >= 2 {
        let p = s.drop_last();
        lemma_succ_within(p, t);
        assert forall|i: int| 0 <= i < succ(s, t).len() implies s.contains(#[trigger] succ(s, t)[i]) by {
            if i < succ(p, t).len() {
                assert(succ(s, t)[i] == succ(p, t)[i]);
                let w = choose|w: int| 0 <= w < p.len() && p[w] == succ(p, t)[i];
                assert(s[w] == succ(s, t)[i]);
            } else {
                assert(succ(s, t)[i] == s.last());
                assert(s[s.len() - 1] == s.last());
            }
        }
    }
}

proof fn lemma_walk_within(
    src: Seq<Seq<char>>,
    choice: spec_fn(nat) -> nat,
    cur: Seq<char>,
    res: Seq<Seq<char>>,
    i: nat,
    steps: nat,
)
    ensures
        forall|k: int|
            0 <= k < walk_from(src, choice, cur, res, i, steps).len() ==> res.contains(
                #[trigger] walk_from(src, choice, cur, res, i, steps)[k],
            ) || src.contains(walk_from(src, choice, cur, res, i, steps)[k]),
    decreases steps - i,
{
    if i < steps {
        let n = succ(src, cur);
        if n.len() > 0 {
            let pick = n[(choice(i) % n.len()) as int];
            let next = if res.contains(pick) {
                res
            } else {
                res.push(pick)
            };
            lemma_succ_within(src, cur);
            assert(src.contains(pick));
            lemma_walk_within(src, choice, pick, next, (i + 1) as nat, steps);
            let w = walk_from(src, choice, cur, res, i, steps);
            assert(w == walk_from(src, choice, pick, next, (i + 1) as nat, steps));
            assert forall|k: int| 0 <= k < w.len() implies res.contains(#[trigger] w[k]) || src.contains(w[k]) by {
                if next.contains(w[k]) && !res.contains(w[k]) {
                    let j = choose|j: int| 0 <= j < next.len() && next[j] == w[k];
                    if j < res.len() {
                        assert(res[j] == w[k]);
                    } else {
                        assert(w[k] == pick);
                    }
                }
            }
        }
    }
}

/// A query never holds a token twice; past the fallback it holds at most
/// `word_count` tokens, and none that is excluded where the ranking it was
/// given holds none.
pub proof fn lemma_query_shape(m: FeedModel, ranking: Seq<Seq<char>>, word_count: nat)
    ensures
        query_spec(m, ranking, word_count).no_duplicates(),
        m.events.len() > 0 && extracted(m).len() > 0 ==> query_spec(m, ranking, word_count).len()
            <= word_count,
        m.events.len() > 0 && extracted(m).len() > 0 && avoids(ranking, m.exclusions) ==> avoids(
            query_spec(m, ranking, word_count),
            m.exclusions,
        ),
{
    let words = extracted(m);
    if m.events.len() == 0 || words.len() == 0 {
        assert(seq!["trending"@].no_duplicates());
    } else {
        let half = word_count / 2;
        let top = if ranking.len() <= half {
            ranking
        } else {
            ranking.take(half as int)
        };
        let start = if top.len() > 0 {
            top[0]
        } else {
            words[0]
        };
        let walked = walk_spec(words, start, half);
        let all = top + walked;
        let g = gather(all, Seq::empty());
        lemma_gather_unique_within(all, Seq::empty());
        let q = query_spec(m, ranking, word_count);
        assert(q == if g.len() <= word_count { g } else { g.take(word_count as int) });
        assert forall|a: int, b: int| 0 <= a < q.len() && 0 <= b < q.len() && a != b implies q[a] != q[b] by {
            assert(q[a] == g[a] && q[b] == g[b]);
        }
        if avoids(ranking, m.exclusions) {
            let e = m.exclusions;
            lemma_extract_avoids(m.events, e, m.events.len());
            lemma_walk_within(words, rotation(), start, seq![start], 0, half);
            assert(!e.contains(start)) by {
                if top.len() > 0 {
                    assert(top[0] == ranking[0]);
                } else {
                    assert(words[0] == words[0]);
                }
            }
            assert forall|k: int| 0 <= k < all.len() implies !e.contains(#[trigger] all[k]) by {
                if k < top.len() {
                    assert(all[k] == ranking[k]);
                } else {
                    let x = walked[k - top.len()];
                    assert(all[k] == x);
                    if seq![start].contains(x) {
                        assert(seq![start][0] == x);
                    } else {
                        let j = choose|j: int| 0 <= j < words.len() && words[j] == x;
                    }
                }
            }
            assert forall|k: int| 0 <= k < q.len() implies !e.contains(#[trigger] q[k]) by {
                assert(q[k] == g[k]);
                assert(all.contains(g[k]));
                let j = choose|j: int| 0 <= j < all.len() && all[j] == g[k];
            }
        }
    }
}

/// A query made from a ranking of the relevance terms, whatever their scores,
/// holds no excluded token (past the fallback), no token twice, and at most
/// `word_count` tokens.
pub proof fn lemma_ranked_query_clean(m: FeedModel, keys: Seq<u64>, n: nat, word_count: nat)
    ensures
        ({
            let q = query_spec(m, top_ranked(relevance_terms_spec(m), keys, n), word_count);
            &&& q.no_duplicates()
            &&& m.events.len() > 0 && extracted(m).len() > 0 ==> q.len() <= word_count && avoids(
                q,
                m.exclusions,
            )
        }),
{
    let terms = relevance_terms_spec(m);
    let ranking = top_ranked(terms, keys, n);
    lemma_excluded_never_emitted(m);
    lemma_ranked_from_terms(terms, keys, n);
    assert forall|i: int| 0 <= i < ranking.len() implies !m.exclusions.contains(#[trigger] ranking[i]) by {
        let j = choose|j: int| 0 <= j < terms.len() && terms[j] == ranking[i];
    }
    lemma_query_shape(m, ranking, word_count);
}

} // verus!
