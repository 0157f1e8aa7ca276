use docueyes::corpus::{Corpus, Page};
use docueyes::engine::Engine;
use docueyes::logg::Logg;
use docueyes::server::{
    extract_query, normalize_query, plan_query, query_length_accepted, respond, Backoff,
    ServerConfig, SuccessCode,
};

fn engine(n: usize) -> Engine {
    let pages = (0..n)
        .map(|i| Page {
            id: i as i64,
            name: format!("page {}", i),
            body: String::new(),
            link: String::new(),
        })
        .collect();
    Engine::new(Corpus { pages })
}

#[test]
fn query_is_read_after_search_prefix() {
    assert_eq!(extract_query(b"/search?q=hello%20world"), b"hello%20world".to_vec());
    assert_eq!(extract_query(b"/search?q="), Vec::<u8>::new());
    assert_eq!(extract_query(b"/other?q=x"), Vec::<u8>::new());
    assert_eq!(extract_query(b"/search"), Vec::<u8>::new());
}

#[test]
fn only_encoded_spaces_are_decoded() {
    assert_eq!(normalize_query(b"hello%20world"), b"hello world".to_vec());
    assert_eq!(normalize_query(b"%20%20"), b"  ".to_vec());
    assert_eq!(normalize_query(b"%%20"), b"% ".to_vec());
    assert_eq!(normalize_query(b"a%2"), b"a%2".to_vec());
    assert_eq!(normalize_query(b"a%41"), b"a%41".to_vec());
}

#[test]
fn standard_config_values() {
    let c = ServerConfig::standard();
    assert_eq!(c.temperature, 0.34f32.to_bits());
    assert_eq!(c.max_results, 10);
    assert_eq!(c.bind_delay_cap, 60);
}

#[test]
fn lenient_length_check_accepts_any_length() {
    let c = ServerConfig::standard();
    for len in [0usize, 1, 256, 257, 100_000] {
        assert!(query_length_accepted(len, &c));
    }
}

#[test]
fn strict_length_check_is_a_range() {
    let mut c = ServerConfig::standard();
    c.strict_length_check = true;
    assert!(!query_length_accepted(0, &c));
    assert!(query_length_accepted(1, &c));
    assert!(query_length_accepted(256, &c));
    assert!(!query_length_accepted(257, &c));
}

#[test]
fn plan_reads_raw_and_normalised_query() {
    let mut c = ServerConfig::standard();
    c.strict_length_check = true;
    let plan = plan_query(b"/search?q=Salesforce%20use%20AI", &c);
    assert_eq!(plan.raw_query, b"Salesforce%20use%20AI".to_vec());
    assert_eq!(plan.query, b"Salesforce use AI".to_vec());
    assert!(plan.accepted);
    let empty = plan_query(b"/", &c);
    assert!(!empty.accepted);
}

#[test]
fn refused_query_is_answered_with_success_and_no_match() {
    let mut c = ServerConfig::standard();
    c.strict_length_check = true;
    let e = engine(2);
    let r = respond(&e, plan_query(b"/nothing", &c), None, &c);
    assert_eq!(r.code, SuccessCode::Success);
    assert!(r.resolved.is_empty());
    assert!(r.query.is_empty());
}

#[test]
fn provider_failure_is_answered_with_failed() {
    let c = ServerConfig::standard();
    let e = engine(2);
    let r = respond(&e, plan_query(b"/search?q=a%20b", &c), None, &c);
    assert_eq!(r.code, SuccessCode::Failed);
    assert!(r.resolved.is_empty());
    assert_eq!(r.query, b"a%20b".to_vec());
}

#[test]
fn scores_are_resolved_with_configured_threshold() {
    let c = ServerConfig::standard();
    let e = engine(3);
    let scores = vec![0.2f32.to_bits(), 0.34f32.to_bits(), 0.9f32.to_bits()];
    let r = respond(&e, plan_query(b"/search?q=x", &c), Some(scores), &c);
    assert_eq!(r.code, SuccessCode::Success);
    let ids: Vec<i64> = r.resolved.iter().map(|m| m.page.id).collect();
    assert_eq!(ids, vec![1, 2]);
}

#[test]
fn more_scores_than_documents_is_failed() {
    let c = ServerConfig::standard();
    let e = engine(1);
    let scores = vec![0.9f32.to_bits(), 0.9f32.to_bits()];
    let r = respond(&e, plan_query(b"/search?q=x", &c), Some(scores), &c);
    assert_eq!(r.code, SuccessCode::Failed);
    assert!(r.resolved.is_empty());
}

#[test]
fn extra_scores_beyond_the_window_are_not_failed() {
    let mut c = ServerConfig::standard();
    c.max_results = 1;
    let e = engine(1);
    let scores = vec![0.9f32.to_bits(), 0.9f32.to_bits()];
    let r = respond(&e, plan_query(b"/search?q=x", &c), Some(scores), &c);
    assert_eq!(r.code, SuccessCode::Success);
    assert_eq!(r.resolved.len(), 1);
}

#[test]
fn bind_waits_double_up_to_the_cap() {
    let mut b = Backoff::new(1, 60);
    let waits: Vec<u64> = (0..9).map(|_| b.on_bind_failure()).collect();
    assert_eq!(waits, vec![1, 2, 4, 8, 16, 32, 60, 60, 60]);
}

#[test]
fn bind_wait_above_cap_falls_to_cap() {
    let mut b = Backoff::new(100, 60);
    assert_eq!(b.on_bind_failure(), 100);
    assert_eq!(b.on_bind_failure(), 60);
    let mut huge = Backoff::new(u64::MAX, u64::MAX);
    assert_eq!(huge.on_bind_failure(), u64::MAX);
    assert_eq!(huge.on_bind_failure(), u64::MAX);
}

#[test]
fn logging_without_a_logger_is_harmless() {
    Logg::info("started".to_string());
    Logg::warn("careful".to_string());
    Logg::error("failed".to_string());
}
