use docueyes::corpus::{Corpus, Page};
use docueyes::engine::{Engine, ResolvedMatch};
use docueyes::score::{is_strictly_negative, score_at_least};
use docueyes::selfcheck::all_names_known;

fn page(id: i64, name: &str) -> Page {
    Page {
        id,
        name: name.to_string(),
        body: format!("body of {}", name),
        link: format!("https://example.org/{}", id),
    }
}

fn engine_with(names: &[&str]) -> Engine {
    let pages: Vec<Page> = names.iter().enumerate().map(|(i, n)| page(i as i64, n)).collect();
    Engine::new(Corpus { pages })
}

fn bits(values: &[f32]) -> Vec<u32> {
    values.iter().map(|v| v.to_bits()).collect()
}

#[test]
fn window_bounds_positions_scanned() {
    let engine = engine_with(&["a", "b", "c", "d"]);
    let r = engine.resolve(bits(&[0.9, 0.9, 0.9, 0.9]), 0.5f32.to_bits(), 2);
    assert_eq!(r.len(), 2);
    assert_eq!(r[0].page.id, 0);
    assert_eq!(r[1].page.id, 1);
    assert_eq!(r[0].similarity, 0.9f32.to_bits());
}

#[test]
fn all_negative_scores_resolve_to_nothing() {
    let engine = engine_with(&["a", "b", "c"]);
    let scores = bits(&[-0.2, -1e-30, -1.0, -f32::INFINITY]);
    let engine4 = engine_with(&["a", "b", "c", "d"]);
    assert!(engine.all_are_negative(&scores));
    for threshold in [-5.0f32, -0.5, 0.0, 0.9] {
        for window in [0usize, 1, 3, 100] {
            assert!(engine4.resolve(scores.clone(), threshold.to_bits(), window).is_empty());
        }
    }
}

#[test]
fn negative_zero_is_not_strictly_negative() {
    let engine = engine_with(&["a"]);
    let scores = bits(&[-0.0]);
    assert!(!engine.all_are_negative(&scores));
    let r = engine.resolve(scores, 0.0f32.to_bits(), 1);
    assert_eq!(r.len(), 1);
    assert_eq!(r[0].page.id, 0);
    assert_eq!(r[0].similarity, (-0.0f32).to_bits());
}

#[test]
fn sign_bit_nan_is_not_strictly_negative() {
    let engine = engine_with(&["a", "b"]);
    let scores = vec![(-f32::NAN).to_bits(), (-0.5f32).to_bits()];
    assert!(!engine.all_are_negative(&scores));
    let r = engine.resolve(scores, (-1.0f32).to_bits(), 2);
    assert_eq!(r.len(), 1);
    assert_eq!(r[0].page.id, 1);
}

#[test]
fn more_scores_than_documents_within_window() {
    let engine = engine_with(&["a", "b"]);
    let r = engine.resolve(bits(&[0.9, 0.1, 0.9, 0.9]), 0.5f32.to_bits(), 2);
    assert_eq!(r.len(), 1);
    assert_eq!(r[0].page.id, 0);
}

#[test]
fn one_non_negative_score_disables_fast_path() {
    let engine = engine_with(&["a", "b"]);
    let scores = bits(&[-0.2, 0.0]);
    assert!(!engine.all_are_negative(&scores));
    let r = engine.resolve(scores, (-0.5f32).to_bits(), 10);
    assert_eq!(r.len(), 2);
}

#[test]
fn resolving_twice_gives_the_same_matches() {
    let engine = engine_with(&["a", "b", "c", "d", "e"]);
    let scores = bits(&[0.1, 0.6, -0.2, 0.35, 0.8]);
    let first: Vec<ResolvedMatch> = engine.resolve(scores.clone(), 0.34f32.to_bits(), 10);
    let second: Vec<ResolvedMatch> = engine.resolve(scores, 0.34f32.to_bits(), 10);
    assert_eq!(first, second);
    let ids: Vec<i64> = first.iter().map(|m| m.page.id).collect();
    assert_eq!(ids, vec![1, 3, 4]);
}

#[test]
fn threshold_above_every_score_gives_nothing() {
    let engine = engine_with(&["a", "b", "c"]);
    let r = engine.resolve(bits(&[0.1, 0.2, 0.3]), 0.9f32.to_bits(), 10);
    assert!(r.is_empty());
}

#[test]
fn empty_score_set_gives_nothing() {
    let engine = engine_with(&["a"]);
    assert!(engine.resolve(Vec::new(), 0.0f32.to_bits(), 10).is_empty());
    let empty = Engine::new(Corpus { pages: Vec::new() });
    assert!(empty.resolve(Vec::new(), 0.0f32.to_bits(), 10).is_empty());
}

#[test]
fn results_keep_corpus_order_not_score_order() {
    let engine = engine_with(&["a", "b", "c"]);
    let r = engine.resolve(bits(&[0.5, 0.9, 0.7]), 0.4f32.to_bits(), 3);
    let ids: Vec<i64> = r.iter().map(|m| m.page.id).collect();
    assert_eq!(ids, vec![0, 1, 2]);
    assert_eq!(r[1].page, page(1, "b"));
}

#[test]
fn nan_score_never_matches() {
    let engine = engine_with(&["a", "b"]);
    let r = engine.resolve(vec![f32::NAN.to_bits(), 0.5f32.to_bits()], (-1.0f32).to_bits(), 2);
    assert_eq!(r.len(), 1);
    assert_eq!(r[0].page.id, 1);
}

#[test]
fn score_comparison_matches_float_comparison() {
    let values = [
        -f32::INFINITY,
        -1.0,
        -0.34,
        -0.0,
        0.0,
        1e-30,
        0.34,
        0.9,
        1.0,
        f32::INFINITY,
        f32::NAN,
        -f32::NAN,
    ];
    for a in values {
        for b in values {
            assert_eq!(score_at_least(a.to_bits(), b.to_bits()), a >= b, "{} >= {}", a, b);
        }
        assert_eq!(is_strictly_negative(a.to_bits()), a < 0.0, "{} < 0", a);
    }
}

#[test]
fn salesforce_query_resolves_within_known_titles() {
    let titles = [
        "Salesforce is cloud-based",
        "CRM stands for Customer Relationship Management",
        "Salesforce automates workflows",
        "AppExchange is like an app store",
        "Einstein AI powers insights",
        "Trailhead teaches Salesforce",
    ];
    let engine = engine_with(&titles);
    let scores = bits(&[0.41, 0.12, 0.38, 0.05, 0.62, 0.36]);
    let r = engine.resolve(scores, 0.34f32.to_bits(), 10);
    assert_eq!(r.len(), 4);
    let names: Vec<String> = titles.iter().map(|t| t.to_string()).collect();
    assert!(all_names_known(&r, &names));
    let fewer: Vec<String> = names[..4].to_vec();
    assert!(!all_names_known(&r, &fewer));
}
