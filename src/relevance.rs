use vstd::prelude::*;
use crate::tokens::{strs, contains_token};

verus! {

/// The tokens of `s` that are not in `excl`, each once, in order of first occurrence.
pub open spec fn gather(s: Seq<Seq<char>>, excl: Seq<Seq<char>>) -> Seq<Seq<char>>
    decreases s.len(),
{
    if s.len() == 0 {
        Seq::empty()
    } else {
        let g = gather(s.drop_last(), excl);
        if excl.contains(s.last()) || g.contains(s.last()) {
            g
        } else {
            g.push(s.last())
        }
    }
}

/// The documents of `d`, one after another.
pub open spec fn flatten(d: Seq<Seq<Seq<char>>>) -> Seq<Seq<char>>
    decreases d.len(),
{
    if d.len() == 0 {
        Seq::empty()
    } else {
        flatten(d.drop_last()) + d.last()
    }
}

/// How often `t` occurs in `s`.
pub open spec fn count_of(s: Seq<Seq<char>>, t: Seq<char>) -> nat
    decreases s.len(),
{
    if s.len() == 0 {
        0
    } else {
        count_of(s.drop_last(), t) + if s.last() == t {
            1nat
        } else {
            0nat
        }
    }
}

/// How many documents of `d` hold `t`.
pub open spec fn doc_freq(d: Seq<Seq<Seq<char>>>, t: Seq<char>) -> nat
    decreases d.len(),
{
    if d.len() == 0 {
        0
    } else {
        doc_freq(d.drop_last(), t) + if d.last().contains(t) {
            1nat
        } else {
            0nat
        }
    }
}

/// The documents held in `v`.
pub open spec fn docs_view(v: Seq<Vec<String>>) -> Seq<Seq<Seq<char>>> {
    v.map_values(|d: Vec<String>| strs(d@))
}

/// Tokens gathered from `acc` so far are extended by those of `src`.
pub(crate) fn push_gathered(
    out: &mut Vec<String>,
    src: &Vec<String>,
    excl: &Vec<String>,
    Ghost(acc): Ghost<Seq<Seq<char>>>,
)
    requires
        strs(old(out)@) == gather(acc, strs(excl@)),
    ensures
        strs(final(out)@) == gather(acc + strs(src@), strs(excl@)),
{
    let ghost s = strs(src@);
    let ghost e = strs(excl@);
    let mut j: usize = 0;
    assert(acc + s.take(0) =~= acc);
    while j < src.len()
        invariant
            j <= src@.len(),
            s == strs(src@),
            e == strs(excl@),
            strs(out@) == gather(acc + s.take(j as int), e),
        decreases src@.len() - j,
    {
        let ghost before = strs(out@);
        assert((acc + s.take(j as int + 1)).drop_last() =~= acc + s.take(j as int));
        assert((acc + s.take(j as int + 1)).last() == s[j as int]);
        if !contains_token(excl, &src[j]) && !contains_token(out, &src[j]) {
            out.push(src[j].clone());
            assert(strs(out@) =~= before.push(s[j as int]));
        }
        j = j + 1;
    }
    assert(s.take(j as int) =~= s);
}

/// How often `t` occurs in `doc`.
pub fn term_count(doc: &Vec<String>, t: &String) -> (r: usize)
    ensures
        r == count_of(strs(doc@), t@),
{
    let ghost s = strs(doc@);
    let mut c: usize = 0;
    let mut j: usize = 0;
    while j < doc.len()
        invariant
            j <= doc@.len(),
            s == strs(doc@),
            c == count_of(s.take(j as int), t@),
            c <= j,
        decreases doc@.len() - j,
    {
        assert(s.take(j as int + 1).drop_last() =~= s.take(j as int));
        if doc[j] == *t {
            c = c + 1;
        }
        j = j + 1;
    }
    assert(s.take(j as int) =~= s);
    c
}

/// How many documents of `docs` hold `t`.
pub fn document_frequency(docs: &Vec<Vec<String>>, t: &String) -> (r: usize)
    ensures
        r == doc_freq(docs_view(docs@), t@),
{
    let ghost d = docs_view(docs@);
    let mut c: usize = 0;
    let mut j: usize = 0;
    while j < docs.len()
        invariant
            j <= docs@.len(),
            d == docs_view(docs@),
            c == doc_freq(d.take(j as int), t@),
            c <= j,
        decreases docs@.len() - j,
    {
        assert(d.take(j as int + 1).drop_last() =~= d.take(j as int));
        assert(d[j as int] == strs(docs@[j as int]@));
        if contains_token(&docs[j], t) {
            c = c + 1;
        }
        j = j + 1;
    }
    assert(d.take(j as int) =~= d);
    c
}

/// `i` placed into the ranking `r`: after every index whose key is at least
/// its own, before the first whose key is lower.
pub open spec fn insert_ranked(r: Seq<int>, keys: Seq<u64>, i: int) -> Seq<int>
    decreases r.len(),
{
    if r.len() == 0 {
        seq![i]
    } else if keys[r[0]] < keys[i] {
        seq![i] + r
    } else {
        seq![r[0]] + insert_ranked(r.drop_first(), keys, i)
    }
}

/// The indices `0 .. k` ordered by key, highest first; equal keys keep their order.
pub open spec fn ranking_upto(keys: Seq<u64>, k: nat) -> Seq<int>
    decreases k,
{
    if k == 0 {
        Seq::empty()
    } else {
        insert_ranked(ranking_upto(keys, (k - 1) as nat), keys, k - 1)
    }
}

/// The first `n` terms in order of key, highest first, equal keys in their
/// order in `terms`.
pub open spec fn top_ranked(terms: Seq<Seq<char>>, keys: Seq<u64>, n: nat) -> Seq<Seq<char>> {
    let order = ranking_upto(keys, terms.len());
    let all = order.map_values(|j: int| terms[j]);
    if all.len() <= n {
        all
    } else {
        all.take(n as int)
    }
}

proof fn lemma_insert_at(r: Seq<int>, keys: Seq<u64>, i: int, p: int)
    requires
        0 <= p <= r.len(),
        forall|j: int| 0 <= j < p ==> !(keys[#[trigger] r[j]] < keys[i]),
        p < r.len() ==> keys[r[p]] < keys[i],
    ensures
        insert_ranked(r, keys, i) == r.insert(p, i),
    decreases r.len(),
{
    if r.len() == 0 {
        assert(r.insert(p, i) =~= seq![i]);
    } else if p == 0 {
        assert(r.insert(p, i) =~= seq![i] + r);
    } else {
        let t = r.drop_first();
        assert forall|j: int| 0 <= j < p - 1 implies !(keys[#[trigger] t[j]] < keys[i]) by {
            assert(t[j] == r[j + 1]);
        }
        if p < r.len() {
            assert(t[p - 1] == r[p]);
        }
        lemma_insert_at(t, keys, i, p - 1);
        assert(!(keys[r[0]] < keys[i]));
        assert(r.insert(p, i) =~= seq![r[0]] + t.insert(p - 1, i));
    }
}

proof fn lemma_insert_bounded(r: Seq<int>, keys: Seq<u64>, i: int, k: int)
    requires
        0 <= i < k,
        forall|j: int| 0 <= j < r.len() ==> 0 <= #[trigger] r[j] < k,
    ensures
        insert_ranked(r, keys, i).len() == r.len() + 1,
        forall|j: int|
            0 <= j < insert_ranked(r, keys, i).len() ==> 0 <= #[trigger] insert_ranked(r, keys, i)[j]
                < k,
    decreases r.len(),
{
    if r.len() > 0 && !(keys[r[0]] < keys[i]) {
        let t = r.drop_first();
        assert forall|j: int| 0 <= j < t.len() implies 0 <= #[trigger] t[j] < k by {
            assert(t[j] == r[j + 1]);
        }
        lemma_insert_bounded(t, keys, i, k);
        let s = insert_ranked(r, keys, i);
        assert forall|j: int| 0 <= j < s.len() implies 0 <= #[trigger] s[j] < k by {
            if j > 0 {
                assert(s[j] == insert_ranked(t, keys, i)[j - 1]);
            }
        }
    }
}

proof fn lemma_ranking_bounded(keys: Seq<u64>, k: nat)
    ensures
        ranking_upto(keys, k).len() == k,
        forall|j: int| 0 <= j < k ==> 0 <= #[trigger] ranking_upto(keys, k)[j] < k,
    decreases k,
{
    if k > 0 {
        lemma_ranking_bounded(keys, (k - 1) as nat);
        let r = ranking_upto(keys, (k - 1) as nat);
        assert forall|j: int| 0 <= j < r.len() implies 0 <= #[trigger] r[j] < k as int by {}
        lemma_insert_bounded(r, keys, k - 1, k as int);
    }
}

/// Every ranked term is one of the terms that were ranked.
pub proof fn lemma_ranked_from_terms(terms: Seq<Seq<char>>, keys: Seq<u64>, n: nat)
    ensures
        forall|i: int|
            0 <= i < top_ranked(terms, keys, n).len() ==> terms.contains(
                #[trigger] top_ranked(terms, keys, n)[i],
            ),
{
    lemma_ranking_bounded(keys, terms.len());
    let order = ranking_upto(keys, terms.len());
    let all = order.map_values(|j: int| terms[j]);
    assert forall|i: int| 0 <= i < top_ranked(terms, keys, n).len() implies terms.contains(
        #[trigger] top_ranked(terms, keys, n)[i],
    ) by {
        assert(top_ranked(terms, keys, n)[i] == all[i]);
        assert(0 <= order[i] < terms.len());
        assert(terms[order[i]] == all[i]);
    }
}

/// The first `n` of `terms` by `scores`, highest first; equal scores keep the
/// order of `terms`.
pub fn rank_terms(terms: &Vec<String>, scores: &Vec<u64>, n: usize) -> (r: Vec<String>)
    requires
        terms@.len() == scores@.len(),
    ensures
        strs(r@) == top_ranked(strs(terms@), scores@, n as nat),
{
    let ghost keys = scores@;
    let len = terms.len();
    let mut order: Vec<usize> = Vec::new();
    let mut k: usize = 0;
    while k < len
        invariant
            len == terms@.len(),
            len == keys.len(),
            keys == scores@,
            k <= len,
            order@.map_values(|j: usize| j as int) == ranking_upto(keys, k as nat),
        decreases len - k,
    {
        proof {
            lemma_ranking_bounded(keys, k as nat);
        }
        let ghost ro = order@.map_values(|j: usize| j as int);
        assert forall|j: int| 0 <= j < order@.len() implies (#[trigger] order@[j] as int) < len by {
            assert(ro[j] == order@[j] as int);
        }
        let mut p: usize = 0;
        while p < order.len() && !(scores[order[p]] < scores[k])
            invariant
                len == keys.len(),
                keys == scores@,
                k < len,
                ro == order@.map_values(|j: usize| j as int),
                ro.len() == k,
                forall|j: int| 0 <= j < k ==> 0 <= #[trigger] ro[j] < k,
                p <= order@.len(),
                forall|j: int| 0 <= j < p ==> !(keys[#[trigger] ro[j]] < keys[k as int]),
                forall|j: int| 0 <= j < order@.len() ==> (#[trigger] order@[j] as int) < len,
            decreases order@.len() - p,
        {
            assert(ro[p as int] == order@[p as int] as int);
            p = p + 1;
        }
        if p < order.len() {
            assert(ro[p as int] == order@[p as int] as int);
        }
        proof {
            lemma_insert_at(ro, keys, k as int, p as int);
        }
        order.insert(p, k);
        assert(order@.map_values(|j: usize| j as int) =~= ro.insert(p as int, k as int));
        k = k + 1;
    }
    proof {
        lemma_ranking_bounded(keys, len as nat);
    }
    let ghost ro = order@.map_values(|j: usize| j as int);
    let ghost all = ro.map_values(|j: int| strs(terms@)[j]);
    let mut out: Vec<String> = Vec::new();
    let mut q: usize = 0;
    while q < order.len() && q < n
        invariant
            ro == order@.map_values(|j: usize| j as int),
            ro == ranking_upto(keys, len as nat),
            ro.len() == len,
            len == terms@.len(),
            forall|j: int| 0 <= j < len ==> 0 <= #[trigger] ro[j] < len,
            all == ro.map_values(|j: int| strs(terms@)[j]),
            q <= order@.len(),
            q <= n,
            strs(out@) == all.take(q as int),
        decreases order@.len() - q,
    {
        assert(ro[q as int] == order@[q as int] as int);
        let c = terms[order[q]].clone();
        let ghost before = strs(out@);
        out.push(c);
        assert(strs(out@) =~= before.push(all[q as int]));
        q = q + 1;
        assert(strs(out@) =~= all.take(q as int));
    }
    assert(strs(terms@).len() == len);
    assert(all.len() == len);
    assert(all.len() <= n ==> all.take(q as int) =~= all);
    assert(all == ranking_upto(scores@, strs(terms@).len()).map_values(|j: int| strs(terms@)[j]));
    out
}

} // verus!
