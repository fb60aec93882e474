use vstd::prelude::*;
use crate::tokens::{strs, contains_token, copy_tokens};

verus! {

/// The tokens that follow `t` in `s`, one for each adjacent pair that starts
/// with `t`, in the order in which the pairs occur.
pub open spec fn succ(s: Seq<Seq<char>>, t: Seq<char>) -> Seq<Seq<char>>
    decreases s.len(),
{
    if s.len() < 2 {
        Seq::empty()
    } else {
        succ(s.drop_last(), t) + if s[s.len() - 2] == t {
            seq![s.last()]
        } else {
            Seq::empty()
        }
    }
}

/// The walk from step `i` on, standing at `cur` with `res` gathered so far:
/// at step `i` it moves to successor `choice(i) mod k` of `cur` (of its `k`
/// successors), and gathers it unless gathered already; it stops after step
/// `steps - 1`, or at a token without successors.
pub open spec fn walk_from(
    src: Seq<Seq<char>>,
    choice: spec_fn(nat) -> nat,
    cur: Seq<char>,
    res: Seq<Seq<char>>,
    i: nat,
    steps: nat,
) -> Seq<Seq<char>>
    decreases steps - i,
{
    if i >= steps {
        res
    } else {
        let n = succ(src, cur);
        if n.len() == 0 {
            res
        } else {
            let pick = n[(choice(i) % n.len()) as int];
            walk_from(
                src,
                choice,
                pick,
                if res.contains(pick) {
                    res
                } else {
                    res.push(pick)
                },
                (i + 1) as nat,
                steps,
            )
        }
    }
}

/// The choice that rotates through the successors: `i` at step `i`.
pub open spec fn rotation() -> spec_fn(nat) -> nat {
    |i: nat| i
}

/// The choices held in `c`, step by step.
pub open spec fn choices_of(c: Seq<usize>) -> spec_fn(nat) -> nat {
    |i: nat|
        if i < c.len() {
            c[i as int] as nat
        } else {
            0
        }
}

/// The tokens gathered by a rotating walk of `steps` steps from `start`, `start` first.
pub open spec fn walk_spec(src: Seq<Seq<char>>, start: Seq<char>, steps: nat) -> Seq<Seq<char>> {
    walk_from(src, rotation(), start, seq![start], 0, steps)
}

proof fn lemma_walk_same_choices(
    src: Seq<Seq<char>>,
    f: spec_fn(nat) -> nat,
    g: spec_fn(nat) -> nat,
    cur: Seq<char>,
    res: Seq<Seq<char>>,
    i: nat,
    steps: nat,
)
    requires
        forall|j: nat| i <= j < steps ==> #[trigger] f(j) == g(j),
    ensures
        walk_from(src, f, cur, res, i, steps) == walk_from(src, g, cur, res, i, steps),
    decreases steps - i,
{
    if i < steps {
        let n = succ(src, cur);
        if n.len() > 0 {
            let pick = n[(f(i) % n.len()) as int];
            let next = if res.contains(pick) {
                res
            } else {
                res.push(pick)
            };
            lemma_walk_same_choices(src, f, g, pick, next, (i + 1) as nat, steps);
        }
    }
}

proof fn lemma_succ_absent(s: Seq<Seq<char>>, t: Seq<char>)
    requires
        forall|k: int| 0 <= k < s.len() - 1 ==> s[k] != t,
    ensures
        succ(s, t).len() == 0,
    decreases s.len(),
{
    if s.len() >= 2 {
        lemma_succ_absent(s.drop_last(), t);
    }
}

proof fn lemma_succ_present(s: Seq<Seq<char>>, t: Seq<char>, k: int)
    requires
        0 <= k < s.len() - 1,
        s[k] == t,
    ensures
        succ(s, t).len() > 0,
    decreases s.len(),
{
    if k < s.len() - 2 {
        lemma_succ_present(s.drop_last(), t, k);
    }
}

proof fn lemma_walk_from_unique(
    src: Seq<Seq<char>>,
    choice: spec_fn(nat) -> nat,
    cur: Seq<char>,
    res: Seq<Seq<char>>,
    i: nat,
    steps: nat,
)
    requires
        res.no_duplicates(),
    ensures
        walk_from(src, choice, cur, res, i, steps).no_duplicates(),
    decreases steps - i,
{
    if i < steps {
        let n = succ(src, cur);
        if n.len() > 0 {
            let pick = n[(choice(i) % n.len()) as int];
            let next = if res.contains(pick) {
                res
            } else {
                res.push(pick)
            };
            if !res.contains(pick) {
                assert forall|a: int, b: int|
                    0 <= a < next.len() && 0 <= b < next.len() && a != b implies next[a]
                    != next[b] by {
                    if a == res.len() {
                        assert(res.contains(next[b]));
                    } else if b == res.len() {
                        assert(res.contains(next[a]));
                    }
                }
            }
            lemma_walk_from_unique(src, choice, pick, next, (i + 1) as nat, steps);
        }
    }
}

/// A walk never gathers the same token twice, whatever its choices, even
/// where it passes through a token more than once.
pub proof fn lemma_walk_unique(
    src: Seq<Seq<char>>,
    choice: spec_fn(nat) -> nat,
    start: Seq<char>,
    steps: nat,
)
    ensures
        walk_from(src, choice, start, seq![start], 0, steps).no_duplicates(),
        walk_spec(src, start, steps).no_duplicates(),
{
    lemma_walk_from_unique(src, choice, start, seq![start], 0, steps);
    lemma_walk_from_unique(src, rotation(), start, seq![start], 0, steps);
}

/// The successors of `t` in `tokens`, in order.
pub fn successors_in(tokens: &Vec<String>, t: &String) -> (r: Vec<String>)
    ensures
        strs(r@) == succ(strs(tokens@), t@),
{
    let ghost s = strs(tokens@);
    let mut r: Vec<String> = Vec::new();
    let n = tokens.len();
    if n < 2 {
        return r;
    }
    let mut k: usize = 0;
    assert(s.take(1).len() < 2);
    assert(strs(r@) =~= succ(s.take(1), t@));
    while k + 1 < n
        invariant
            n == tokens@.len(),
            n >= 2,
            s == strs(tokens@),
            k + 1 <= n,
            strs(r@) == succ(s.take(k as int + 1), t@),
        decreases n - k,
    {
        let ghost before = r@;
        assert(s.take(k as int + 2).drop_last() =~= s.take(k as int + 1));
        if tokens[k] == *t {
            let c = tokens[k + 1].clone();
            r.push(c);
            assert(strs(r@) =~= strs(before).push(s[k as int + 1]));
        }
        k = k + 1;
        assert(strs(r@) =~= succ(s.take(k as int + 1), t@));
    }
    assert(s.take(n as int) =~= s);
    r
}

/// For each token of a sequence, the tokens that follow it there.
pub struct SuccessorChain {
    keys: Vec<String>,
    nexts: Vec<Vec<String>>,
    source: Ghost<Seq<Seq<char>>>,
}

impl View for SuccessorChain {
    type V = Seq<Seq<char>>;

    /// The token sequence the chain was built from.
    closed spec fn view(&self) -> Seq<Seq<char>> {
        self.source@
    }
}

impl SuccessorChain {
    pub closed spec fn wf(&self) -> bool {
        &&& self.keys@.len() == self.nexts@.len()
        &&& forall|i: int|
            0 <= i < self.keys@.len() ==> #[trigger] strs(self.nexts@[i]@) == succ(
                self.source@,
                self.keys@[i]@,
            ) && self.nexts@[i]@.len() > 0
        &&& forall|t: Seq<char>|
            !strs(self.keys@).contains(t) ==> #[trigger] succ(self.source@, t).len() == 0
    }

    /// Links each token of `tokens` to the tokens seen right after it.
    pub fn build(tokens: &Vec<String>) -> (c: SuccessorChain)
        ensures
            c.wf(),
            c@ == strs(tokens@),
    {
        let ghost s = strs(tokens@);
        let mut keys: Vec<String> = Vec::new();
        let mut nexts: Vec<Vec<String>> = Vec::new();
        let n = tokens.len();
        let mut k: usize = 0;
        while k + 1 < n
            invariant
                n == tokens@.len(),
                s == strs(tokens@),
                k == 0 || k < n,
                keys@.len() == nexts@.len(),
                forall|i: int|
                    0 <= i < keys@.len() ==> #[trigger] strs(nexts@[i]@) == succ(s, keys@[i]@),
                forall|i: int| 0 <= i < keys@.len() ==> (#[trigger] nexts@[i])@.len() > 0,
                forall|j: int| 0 <= j < k ==> strs(keys@).contains(#[trigger] s[j]),
            decreases n - k,
        {
            let ghost old_keys = keys@;
            if !contains_token(&keys, &tokens[k]) {
                let nx = successors_in(tokens, &tokens[k]);
                proof {
                    lemma_succ_present(s, s[k as int], k as int);
                    assert(strs(nx@).len() == nx@.len());
                }
                let ghost old_nexts = nexts@;
                let ghost nxv = nx@;
                assert(strs(nxv) == succ(s, s[k as int]));
                assert(strs(nxv).len() == nxv.len());
                keys.push(tokens[k].clone());
                nexts.push(nx);
                assert forall|i: int| 0 <= i < keys@.len() implies strs(#[trigger] nexts@[i]@)
                    == succ(s, keys@[i]@) && nexts@[i]@.len() > 0 by {
                    if i < old_keys.len() {
                        assert(nexts@[i] == old_nexts[i]);
                        assert(keys@[i] == old_keys[i]);
                        assert(strs(old_nexts[i]@) == succ(s, old_keys[i]@));
                    } else {
                        assert(keys@[i]@ == s[k as int]);
                        assert(nexts@[i]@ == nxv);
                        assert(succ(s, s[k as int]).len() > 0);
                    }
                }
                assert(strs(keys@) =~= strs(old_keys).push(s[k as int]));
            }
            assert forall|j: int| 0 <= j < k + 1 implies strs(keys@).contains(#[trigger] s[j]) by {
                if j < k {
                    let w = choose|w: int| 0 <= w < strs(old_keys).len() && strs(old_keys)[w] == s[j];
                    assert(strs(keys@)[w] == s[j]);
                } else {
                    if strs(old_keys).contains(s[j]) {
                        let w = choose|w: int| 0 <= w < strs(old_keys).len() && strs(old_keys)[w] == s[j];
                        assert(strs(keys@)[w] == s[j]);
                    } else {
                        assert(strs(keys@)[keys@.len() - 1] == s[j]);
                    }
                }
            }
            k = k + 1;
        }
        let c = SuccessorChain { keys, nexts, source: Ghost(s) };
        assert forall|t: Seq<char>| !strs(c.keys@).contains(t) implies #[trigger] succ(s, t).len() == 0 by {
            assert forall|j: int| 0 <= j < s.len() - 1 implies s[j] != t by {
                assert(strs(c.keys@).contains(s[j]));
            }
            lemma_succ_absent(s, t);
        }
        c
    }

    /// The tokens that follow `t` in the source sequence.
    pub fn successors(&self, t: &String) -> (r: Option<&Vec<String>>)
        requires
            self.wf(),
        ensures
            r.is_some() == (succ(self@, t@).len() > 0),
            match r {
                Some(v) => strs(v@) == succ(self@, t@),
                None => succ(self@, t@).len() == 0,
            },
    {
        let mut i: usize = 0;
        while i < self.keys.len()
            invariant
                self.wf(),
                i <= self.keys@.len(),
                forall|j: int| 0 <= j < i ==> self.keys@[j]@ != t@,
            decreases self.keys@.len() - i,
        {
            if self.keys[i] == *t {
                assert(strs(self.nexts@[i as int]@) == succ(self@, self.keys@[i as int]@));
                return Some(&self.nexts[i]);
            }
            i = i + 1;
        }
        assert(!strs(self.keys@).contains(t@)) by {
            if strs(self.keys@).contains(t@) {
                let j = choose|j: int| 0 <= j < strs(self.keys@).len() && strs(self.keys@)[j] == t@;
                assert(self.keys@[j]@ == t@);
            }
        }
        None
    }

    /// Walks the chain for `steps` steps from `start`, taking at step `i` the
    /// successor at position `choices[i] mod k` among the `k` successors of
    /// the current token; gathers each token reached, once, after `start`.
    pub fn walk_with(&self, start: &String, steps: usize, choices: &Vec<usize>) -> (r: Vec<String>)
        requires
            self.wf(),
            choices@.len() >= steps,
        ensures
            strs(r@) == walk_from(self@, choices_of(choices@), start@, seq![start@], 0, steps as nat),
    {
        let ghost choice = choices_of(choices@);
        let mut result: Vec<String> = Vec::new();
        result.push(start.clone());
        assert(strs(result@) =~= seq![start@]);
        let mut current = start.clone();
        let mut i: usize = 0;
        let mut done = false;
        while i < steps && !done
            invariant
                self.wf(),
                i <= steps,
                steps <= choices@.len(),
                choice == choices_of(choices@),
                walk_from(self@, choice, current@, strs(result@), i as nat, steps as nat)
                    == walk_from(self@, choice, start@, seq![start@], 0, steps as nat),
                done ==> i < steps && succ(self@, current@).len() == 0,
            decreases 2 * (steps - i) + if done { 0int } else { 1int },
        {
            match self.successors(&current) {
                None => {
                    done = true;
                },
                Some(nexts) => {
                    let c = choices[i];
                    assert(choice(i as nat) == c as nat);
                    let pick = nexts[c % nexts.len()].clone();
                    assert(pick@ == succ(self@, current@)[(c as int) % (nexts@.len() as int)]);
                    let ghost before = result@;
                    current = pick.clone();
                    if !contains_token(&result, &pick) {
                        result.push(pick);
                        assert(strs(result@) =~= strs(before).push(current@));
                    }
                    i = i + 1;
                },
            }
        }
        result
    }

    /// Walks the chain for `steps` steps from `start`, rotating through the
    /// successors: at step `i` it takes the successor at position `i mod k`
    /// among the `k` successors of the current token.
    pub fn walk(&self, start: &String, steps: usize) -> (r: Vec<String>)
        requires
            self.wf(),
        ensures
            strs(r@) == walk_spec(self@, start@, steps as nat),
    {
        let mut choices: Vec<usize> = Vec::new();
        let mut j: usize = 0;
        while j < steps
            invariant
                j <= steps,
                choices@.len() == j,
                forall|k: int| 0 <= k < j ==> choices@[k] == k,
            decreases steps - j,
        {
            choices.push(j);
            j = j + 1;
        }
        let r = self.walk_with(start, steps, &choices);
        proof {
            assert forall|k: nat| 0 <= k < steps implies #[trigger] choices_of(choices@)(k) == rotation()(k) by {
                assert(choices@[k as int] == k);
            }
            lemma_walk_same_choices(
                self@,
                choices_of(choices@),
                rotation(),
                start@,
                seq![start@],
                0,
                steps as nat,
            );
        }
        r
    }
}

} // verus!
