use docueyes::cache::{decode_image, encode_image, image_fits};
use docueyes::corpus::{Corpus, CorpusError, Page};
use docueyes::engine::{Engine, EngineError};

fn corpus(n: usize) -> Corpus {
    let pages = (0..n)
        .map(|i| Page {
            id: i as i64,
            name: format!("page {}", i),
            body: format!("body {}", i),
            link: format!("link {}", i),
        })
        .collect();
    Corpus { pages }
}

fn embedding(values: &[f32]) -> Vec<u32> {
    values.iter().map(|v| v.to_bits()).collect()
}

#[test]
fn corpus_needs_a_page() {
    assert_eq!(Corpus::from_pages(Vec::new()).err(), Some(CorpusError::NoPages));
    assert_eq!(Corpus::from_pages(corpus(2).pages).unwrap().pages.len(), 2);
}

#[test]
fn build_collects_one_embedding_per_document() {
    let mut engine = Engine::new(corpus(3));
    let mut build = engine.start_build();
    let mut asked = Vec::new();
    while let Some(i) = build.next_document() {
        asked.push(i);
        build.record(Some(embedding(&[i as f32, 0.5])));
    }
    assert_eq!(asked, vec![0, 1, 2]);
    assert_eq!(engine.build_embeddings(build), Ok(()));
    assert_eq!(engine.embeddings().len(), 3);
    assert_eq!(engine.embeddings()[2], embedding(&[2.0, 0.5]));
}

#[test]
fn provider_failure_fails_the_build_and_leaves_store_empty() {
    let mut engine = Engine::new(corpus(3));
    let mut build = engine.start_build();
    assert_eq!(build.next_document(), Some(0));
    build.record(Some(embedding(&[1.0])));
    build.record(None);
    assert_eq!(build.next_document(), None);
    assert_eq!(engine.build_embeddings(build), Err(EngineError::EmbeddingGeneration));
    assert!(engine.embeddings().is_empty());
}

#[test]
fn empty_embedding_is_a_data_integrity_error() {
    let mut engine = Engine::new(corpus(2));
    let mut build = engine.start_build();
    build.record(Some(embedding(&[1.0])));
    build.record(Some(Vec::new()));
    assert_eq!(engine.build_embeddings(build), Err(EngineError::DataIntegrity));
    assert!(engine.embeddings().is_empty());
}

#[test]
fn short_pass_is_a_data_integrity_error() {
    let mut engine = Engine::new(corpus(2));
    let mut build = engine.start_build();
    build.record(Some(embedding(&[1.0])));
    assert_eq!(build.next_document(), Some(1));
    assert_eq!(engine.build_embeddings(build), Err(EngineError::DataIntegrity));
}

#[test]
fn cache_image_has_the_documented_layout() {
    let rows = vec![embedding(&[1.0])];
    let image = encode_image(&rows);
    assert_eq!(image, vec![1, 0, 0, 0, 1, 0, 0, 0, 0, 0, 0x80, 0x3f]);
    assert_eq!(encode_image(&Vec::new()), vec![0, 0, 0, 0]);
}

#[test]
fn persisted_store_loads_back_bit_for_bit() {
    let mut engine = Engine::new(corpus(3));
    let mut build = engine.start_build();
    build.record(Some(vec![f32::NAN.to_bits() | 1, (-0.0f32).to_bits(), 0x7f7f_ffff]));
    build.record(Some(embedding(&[0.1, 0.2, 0.3, f32::INFINITY])));
    build.record(Some(embedding(&[-1.5])));
    engine.build_embeddings(build).unwrap();
    assert!(engine.cacheable());
    let image = engine.cache_embeddings();
    let stored = engine.embeddings().clone();

    let mut other = Engine::new(corpus(3));
    assert_eq!(other.load_embeddings(&image), Ok(()));
    assert_eq!(other.embeddings(), &stored);
}

#[test]
fn malformed_images_are_format_errors() {
    let good = encode_image(&vec![embedding(&[1.0, 2.0]), embedding(&[3.0])]);
    assert!(decode_image(&good).is_some());
    let mut cases: Vec<Vec<u8>> = Vec::new();
    cases.push(Vec::new());
    cases.push(good[..good.len() - 1].to_vec());
    cases.push(good[..good.len() - 4].to_vec());
    let mut trailing = good.clone();
    trailing.extend_from_slice(&[0, 0, 0, 0]);
    cases.push(trailing);
    let mut too_long = good.clone();
    too_long[4] = 9;
    cases.push(too_long);
    for bytes in cases {
        assert!(decode_image(&bytes).is_none());
        let mut engine = Engine::new(corpus(2));
        let mut build = engine.start_build();
        build.record(Some(embedding(&[1.0])));
        build.record(Some(embedding(&[2.0])));
        engine.build_embeddings(build).unwrap();
        assert_eq!(engine.load_embeddings(&bytes), Err(EngineError::Format));
        assert!(engine.embeddings().is_empty());
    }
}

#[test]
fn load_does_not_check_count_against_corpus() {
    let image = encode_image(&vec![embedding(&[1.0])]);
    let mut engine = Engine::new(corpus(3));
    assert_eq!(engine.load_embeddings(&image), Ok(()));
    assert_eq!(engine.embeddings().len(), 1);
}

#[test]
fn clear_empties_the_store() {
    let mut engine = Engine::new(corpus(1));
    let mut build = engine.start_build();
    build.record(Some(embedding(&[1.0])));
    engine.build_embeddings(build).unwrap();
    assert_eq!(engine.clear_embeddings(), Ok(()));
    assert!(engine.embeddings().is_empty());
    assert_eq!(engine.documents().len(), 1);
    assert!(image_fits(&Vec::new()));
}
