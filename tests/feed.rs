use feedloop::chain::SuccessorChain;
use feedloop::feed::FeedEngine;
use feedloop::relevance::{document_frequency, rank_terms, term_count};
use feedloop::watch::VideoWatch;

fn event(name: &str, tags: &[&str], liked: bool, disliked: bool, at: u64) -> VideoWatch {
    VideoWatch {
        watch_ms: 100_000,
        video_ms: 120_000,
        video_name: String::from(name),
        hashtags: tags.iter().map(|t| String::from(*t)).collect(),
        liked,
        disliked,
        watched_at: at,
    }
}

fn strings(v: &[&str]) -> Vec<String> {
    v.iter().map(|s| String::from(*s)).collect()
}

fn tfidf_ranking(e: &FeedEngine) -> Vec<String> {
    let docs = e.documents();
    let total = docs.len() as f64;
    let terms = e.relevance_terms();
    let keys: Vec<u64> = terms
        .iter()
        .map(|t| {
            let idf = (total / document_frequency(&docs, t) as f64).ln();
            let score: f64 = docs
                .iter()
                .map(|d| term_count(d, t) as f64 / d.len() as f64 * idf)
                .sum();
            score.to_bits()
        })
        .collect();
    rank_terms(&terms, &keys, terms.len())
}

fn sample_engine() -> FeedEngine {
    let mut e = FeedEngine::new();
    e.add_watch(event("How to make pasta carbonara", &["cooking", "pasta", "italian"], true, false, 1));
    e.add_watch(event("Italian cooking secrets from grandma", &["cooking", "italian", "recipes"], false, false, 2));
    e.add_watch(event("Best pasta shapes ranked by an italian chef", &["pasta", "italian", "food"], true, false, 3));
    e.add_watch(event("Clickbait garbage you wont believe", &["shocking", "viral"], false, true, 4));
    e
}

const BLOCKED: [&str; 6] = ["shocking", "viral", "clickbait", "garbage", "wont", "believe"];

#[test]
fn empty_engine_queries_trending() {
    let e = FeedEngine::new();
    assert_eq!(e.generate_query(&vec![], 8), strings(&["trending"]));
    assert_eq!(e.generate_query(&strings(&["pasta"]), 0), strings(&["trending"]));
}

#[test]
fn only_disliked_history_queries_trending() {
    let mut e = FeedEngine::new();
    e.add_watch(event("Clickbait garbage", &["viral"], false, true, 1));
    assert!(e.extract_words().is_empty());
    assert_eq!(e.generate_query(&vec![], 8), strings(&["trending"]));
}

#[test]
fn disliked_watch_fills_exclusions() {
    let mut e = FeedEngine::new();
    e.add_watch(event("Clickbait garbage you wont believe", &["Shocking", "viral"], false, true, 1));
    assert_eq!(
        e.exclusions(),
        &strings(&["shocking", "viral", "clickbait", "garbage", "you", "wont", "believe"])
    );
    assert_eq!(e.history_len(), 1);
}

#[test]
fn excluded_tokens_never_come_back() {
    let mut e = FeedEngine::new();
    e.add_watch(event("Clickbait garbage you wont believe", &["shocking", "viral"], false, true, 1));
    e.add_watch(event("Viral pasta you love", &["viral", "Pasta"], true, false, 2));
    let words = e.extract_words();
    let terms = e.relevance_terms();
    for t in BLOCKED.iter().chain(["you"].iter()) {
        assert!(!words.iter().any(|w| w == t));
        assert!(!terms.iter().any(|w| w == t));
    }
    assert_eq!(terms, strings(&["pasta", "love"]));
}

#[test]
fn extraction_weights_recency_and_likes() {
    let mut e = FeedEngine::new();
    e.add_watch(event("Hi There", &["X"], true, false, 1));
    e.add_watch(event("B", &[], false, false, 2));
    assert_eq!(
        e.extract_words(),
        strings(&["hi", "there", "x", "x", "hi", "there", "x", "x", "b", "b", "b"])
    );
}

#[test]
fn extraction_of_three_watches() {
    let mut e = FeedEngine::new();
    e.add_watch(event("a", &[], false, false, 1));
    e.add_watch(event("b", &[], false, false, 2));
    e.add_watch(event("c", &["t"], false, false, 3));
    assert_eq!(e.extract_words(), strings(&["a", "b", "b", "c", "t", "c", "t", "c", "t"]));
}

#[test]
fn documents_hold_words_then_tags() {
    let e = sample_engine();
    let docs = e.documents();
    assert_eq!(docs.len(), 3);
    assert_eq!(docs[0], strings(&["how", "to", "make", "pasta", "carbonara", "cooking", "pasta", "italian"]));
    assert_eq!(term_count(&docs[0], &String::from("pasta")), 2);
    assert_eq!(term_count(&docs[1], &String::from("pasta")), 0);
    assert_eq!(document_frequency(&docs, &String::from("italian")), 3);
    assert_eq!(document_frequency(&docs, &String::from("pasta")), 2);
    assert_eq!(document_frequency(&docs, &String::from("grandma")), 1);
}

#[test]
fn relevance_terms_are_distinct_in_first_seen_order() {
    let e = sample_engine();
    let terms = e.relevance_terms();
    assert_eq!(terms[0], "how");
    assert_eq!(terms.len(), 18);
    for (i, t) in terms.iter().enumerate() {
        assert!(!terms[i + 1..].contains(t));
    }
}

#[test]
fn relevance_ranking_is_stable_across_runs() {
    let e = sample_engine();
    let first = tfidf_ranking(&e);
    let second = tfidf_ranking(&e);
    assert_eq!(first, second);
    assert_eq!(e.relevance_terms(), e.relevance_terms());
}

#[test]
fn sample_query_is_clean() {
    let e = sample_engine();
    let q = e.generate_query(&tfidf_ranking(&e), 8);
    assert!(!q.is_empty());
    assert!(q.len() <= 8);
    for (i, t) in q.iter().enumerate() {
        assert_eq!(t, &t.to_lowercase());
        assert!(!BLOCKED.contains(&t.as_str()));
        assert!(!q[i + 1..].contains(t));
    }
}

#[test]
fn query_merges_ranking_and_walk() {
    let mut e = FeedEngine::new();
    e.add_watch(event("Pasta night", &["food"], false, false, 1));
    let ranking = strings(&["food", "night"]);
    assert_eq!(e.generate_query(&ranking, 4), strings(&["food", "night", "pasta"]));
    assert_eq!(e.generate_query(&ranking, 2), strings(&["food", "pasta"]));
    assert_eq!(e.generate_query(&vec![], 4), strings(&["pasta", "night", "food"]));
    assert_eq!(e.generate_query(&ranking, 1), strings(&["pasta"]));
}

#[test]
fn chain_lists_successors_in_order() {
    let c = SuccessorChain::build(&strings(&["a", "b", "a", "c", "d"]));
    assert_eq!(c.successors(&String::from("a")), Some(&strings(&["b", "c"])));
    assert_eq!(c.successors(&String::from("d")), None);
    assert_eq!(c.successors(&String::from("z")), None);
}

#[test]
fn walk_rotates_and_stops_at_dead_end() {
    let c = SuccessorChain::build(&strings(&["a", "b", "a", "c", "d"]));
    assert_eq!(c.walk(&String::from("b"), 10), strings(&["b", "a", "c", "d"]));
    assert_eq!(c.walk(&String::from("b"), 2), strings(&["b", "a", "c"]));
    assert_eq!(c.walk(&String::from("z"), 3), strings(&["z"]));
}

#[test]
fn walk_gathers_revisited_tokens_once() {
    let c = SuccessorChain::build(&strings(&["a", "b", "a", "b", "a"]));
    assert_eq!(c.walk(&String::from("a"), 6), strings(&["a", "b"]));
}

#[test]
fn ranking_is_stable_and_descending() {
    let terms = strings(&["a", "b", "c", "d"]);
    let scores = vec![5, 9, 5, 9];
    assert_eq!(rank_terms(&terms, &scores, 3), strings(&["b", "d", "a"]));
    assert_eq!(rank_terms(&terms, &scores, 10), strings(&["b", "d", "a", "c"]));
    assert_eq!(rank_terms(&terms, &scores, 0), Vec::<String>::new());
    assert_eq!(rank_terms(&vec![], &vec![], 4), Vec::<String>::new());
}

#[test]
fn sample_ranking_puts_distinctive_terms_first() {
    let e = sample_engine();
    let ranking = tfidf_ranking(&e);
    assert_eq!(ranking.len(), 18);
    assert_eq!(ranking.last().map(|s| s.as_str()), Some("italian"));
    assert_eq!(&ranking[..4], &strings(&["pasta", "cooking", "how", "to"])[..]);
}

#[test]
fn walk_follows_given_choices() {
    let c = SuccessorChain::build(&strings(&["a", "b", "a", "c", "d"]));
    assert_eq!(c.walk_with(&String::from("b"), 3, &vec![0, 0, 0]), strings(&["b", "a"]));
    assert_eq!(c.walk_with(&String::from("b"), 3, &vec![0, 1, 0]), strings(&["b", "a", "c", "d"]));
    assert_eq!(c.walk_with(&String::from("b"), 2, &vec![7, 5, 9]), strings(&["b", "a", "c"]));
}

#[test]
fn chain_of_one_token_is_empty() {
    let c = SuccessorChain::build(&strings(&["a"]));
    assert_eq!(c.successors(&String::from("a")), None);
    let c = SuccessorChain::build(&strings(&["a", "b", "a", "c"]));
    assert_eq!(c.successors(&String::from("c")), None);
    assert_eq!(c.successors(&String::from("b")), Some(&strings(&["a"])));
}
