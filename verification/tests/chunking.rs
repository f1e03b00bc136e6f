use translator_core::chunker::{chunk, Chunk};
use translator_core::config::{ConfigError, PipelineConfig};
use translator_core::segment::split_into_sentences;

fn sentences(n: usize) -> Vec<String> {
    (0..n).map(|i| format!("s{}.", i)).collect()
}

fn ranges(chunks: &[Chunk]) -> Vec<(usize, usize)> {
    chunks.iter().map(|c| (c.start, c.end)).collect()
}

#[test]
fn three_sentences_make_two_chunks() {
    let s = split_into_sentences("Bonjour. Comment ça va? Très bien!");
    let chunks = chunk(&s, 2, 0).unwrap();
    let got: Vec<(usize, &str)> = chunks.iter().map(|c| (c.index, c.text.as_str())).collect();
    assert_eq!(got, vec![(0, "Bonjour. Comment ça va?"), (1, "Très bien!")]);
    assert_eq!(ranges(&chunks), vec![(0, 2), (2, 3)]);
}

#[test]
fn short_input_is_a_single_chunk() {
    let chunks = chunk(&sentences(3), 3, 1).unwrap();
    assert_eq!(chunks.len(), 1);
    assert_eq!(chunks[0], Chunk { index: 0, text: "s0. s1. s2.".to_string(), start: 0, end: 3 });
    let none = chunk(&sentences(0), 4, 0).unwrap();
    assert_eq!(ranges(&none), vec![(0, 0)]);
    assert_eq!(none[0].text, "");
}

#[test]
fn windows_slide_by_size_minus_overlap() {
    assert_eq!(ranges(&chunk(&sentences(7), 3, 1).unwrap()), vec![(0, 3), (2, 5), (4, 7)]);
    assert_eq!(ranges(&chunk(&sentences(5), 3, 1).unwrap()), vec![(0, 3), (2, 5)]);
    assert_eq!(ranges(&chunk(&sentences(6), 3, 1).unwrap()), vec![(0, 3), (2, 5), (4, 6)]);
    assert_eq!(ranges(&chunk(&sentences(5), 2, 0).unwrap()), vec![(0, 2), (2, 4), (4, 5)]);
    assert_eq!(ranges(&chunk(&sentences(4), 1, 0).unwrap()), vec![(0, 1), (1, 2), (2, 3), (3, 4)]);
}

#[test]
fn overlapping_chunks_repeat_sentences() {
    let chunks = chunk(&sentences(5), 3, 2).unwrap();
    let texts: Vec<&str> = chunks.iter().map(|c| c.text.as_str()).collect();
    assert_eq!(texts, vec!["s0. s1. s2.", "s1. s2. s3.", "s2. s3. s4."]);
}

#[test]
fn overlap_not_below_size_is_rejected() {
    assert_eq!(chunk(&sentences(5), 2, 2), Err(ConfigError::OverlapNotBelowMax));
    assert_eq!(chunk(&sentences(5), 2, 7), Err(ConfigError::OverlapNotBelowMax));
    assert_eq!(chunk(&sentences(5), 0, 0), Err(ConfigError::OverlapNotBelowMax));
    assert_eq!(chunk(&sentences(0), 0, 0), Err(ConfigError::OverlapNotBelowMax));
}

#[test]
fn chunks_cover_every_sentence() {
    for n in 0..40usize {
        for max_size in 1..8usize {
            for overlap in 0..max_size {
                let chunks = chunk(&sentences(n), max_size, overlap).unwrap();
                for (k, c) in chunks.iter().enumerate() {
                    assert_eq!(c.index, k);
                    assert!(c.start <= c.end && c.end <= n);
                    assert!(c.end - c.start <= max_size);
                    assert_eq!(c.start, k * (max_size - overlap));
                }
                assert_eq!(chunks.last().unwrap().end, n);
                for j in 0..n {
                    assert!(chunks.iter().any(|c| c.start <= j && j < c.end));
                }
            }
        }
    }
}

#[test]
fn huge_sizes_do_not_overflow() {
    let chunks = chunk(&sentences(3), usize::MAX, usize::MAX - 1).unwrap();
    assert_eq!(ranges(&chunks), vec![(0, 3)]);
}

#[test]
fn configuration_is_validated_in_order() {
    let good = PipelineConfig::new();
    assert_eq!((good.max_chunk_size, good.overlap, good.batch_size, good.max_in_flight), (32, 8, 4, 1));
    assert_eq!(good.validate(), Ok(()));
    let c = PipelineConfig { overlap: 32, ..good };
    assert_eq!(c.validate(), Err(ConfigError::OverlapNotBelowMax));
    let c = PipelineConfig { batch_size: 0, ..good };
    assert_eq!(c.validate(), Err(ConfigError::ZeroBatchSize));
    let c = PipelineConfig { max_in_flight: 0, ..good };
    assert_eq!(c.validate(), Err(ConfigError::ZeroConcurrency));
    let c = PipelineConfig { max_chunk_size: 0, overlap: 0, batch_size: 0, max_in_flight: 0 };
    assert_eq!(c.validate(), Err(ConfigError::OverlapNotBelowMax));
    let c = PipelineConfig { batch_size: 0, max_in_flight: 0, ..good };
    assert_eq!(c.validate(), Err(ConfigError::ZeroBatchSize));
}
