use std::cell::RefCell;
use translator_core::cache::ContentCache;
use translator_core::chunker::{chunk, Chunk};
use translator_core::config::ConfigError;
use translator_core::error::EngineError;
use translator_core::key::cache_key;
use translator_core::merger::{merge, merge_parts, MergeError};
use translator_core::orchestrator::{
    accept_reply, batch_inputs, chunk_keys, plan_batches, run, scan, settle_batch, JobStatus,
    ProcessingReport,
};
use translator_core::segment::split_into_sentences;

fn chunks_of(texts: &[&str]) -> Vec<Chunk> {
    texts
        .iter()
        .enumerate()
        .map(|(i, t)| Chunk { index: i, text: t.to_string(), start: i, end: i + 1 })
        .collect()
}

fn upper(inputs: Vec<String>) -> Result<Vec<String>, EngineError> {
    Ok(inputs.iter().map(|s| s.to_uppercase()).collect())
}

fn failure() -> EngineError {
    EngineError { message: "engine down".to_string() }
}

#[test]
fn cached_outputs_merge_in_index_order() {
    let sentences = split_into_sentences("Bonjour. Comment ça va? Très bien!");
    let chunks = chunk(&sentences, 2, 0).unwrap();
    let mut cache = ContentCache::new();
    cache.write(&cache_key(&chunks[1].text), "Very well!").unwrap();
    cache.write(&cache_key(&chunks[0].text), "Hello. How are you?").unwrap();
    assert_eq!(merge(&cache, &chunks, " ", true), Ok("Hello. How are you? Very well!".to_string()));
    assert_eq!(merge(&cache, &chunks, " ", false), Ok("Hello. How are you? Very well!".to_string()));
    assert_eq!(merge(&cache, &chunks, " ", true), Ok("Hello. How are you? Very well!".to_string()));
}

#[test]
fn a_rerun_calls_the_engine_for_the_missing_chunk_only() {
    let sentences = split_into_sentences("Bonjour. Comment ça va? Très bien!");
    let chunks = chunk(&sentences, 2, 0).unwrap();
    let mut cache = ContentCache::new();
    cache.write(&cache_key(&chunks[0].text), "Hello. How are you?").unwrap();
    let calls: RefCell<Vec<Vec<String>>> = RefCell::new(Vec::new());
    let report = run(&chunks, 4, &mut cache, |inputs: Vec<String>| {
        calls.borrow_mut().push(inputs.clone());
        Ok(inputs.iter().map(|_| "Very well!".to_string()).collect())
    })
    .unwrap();
    assert_eq!(*calls.borrow(), vec![vec!["Très bien!".to_string()]]);
    assert_eq!(report.jobs, vec![JobStatus::Cached, JobStatus::Completed]);
    assert_eq!((report.total(), report.completed()), (2, 2));
    assert_eq!(merge(&cache, &chunks, " ", true), Ok("Hello. How are you? Very well!".to_string()));
}

#[test]
fn a_second_run_calls_the_engine_for_nothing() {
    let chunks = chunks_of(&["a", "b", "c", "d", "e"]);
    let mut cache = ContentCache::new();
    let first = run(&chunks, 2, &mut cache, upper).unwrap();
    assert_eq!(first.jobs, vec![JobStatus::Completed; 5]);
    assert_eq!(cache.len(), 5);
    let calls = RefCell::new(0usize);
    let second = run(&chunks, 2, &mut cache, |inputs: Vec<String>| {
        *calls.borrow_mut() += 1;
        upper(inputs)
    })
    .unwrap();
    assert_eq!(*calls.borrow(), 0);
    assert_eq!(second.jobs, vec![JobStatus::Cached; 5]);
    assert_eq!(cache.len(), 5);
    assert_eq!(merge(&cache, &chunks, "|", true), Ok("A|B|C|D|E".to_string()));
}

#[test]
fn a_failed_batch_fails_alone_and_is_retried() {
    let chunks = chunks_of(&["a", "b", "c", "d", "e"]);
    let mut cache = ContentCache::new();
    let report = run(&chunks, 2, &mut cache, |inputs: Vec<String>| {
        if inputs.contains(&"c".to_string()) {
            Err(failure())
        } else {
            upper(inputs)
        }
    })
    .unwrap();
    assert_eq!(
        report.jobs,
        vec![
            JobStatus::Completed,
            JobStatus::Completed,
            JobStatus::EngineFailed,
            JobStatus::EngineFailed,
            JobStatus::Completed
        ]
    );
    assert_eq!(report.failed(), vec![2, 3]);
    assert_eq!((report.total(), report.completed()), (5, 3));
    assert!(report.pending().is_empty());
    assert_eq!(scan(&cache, &chunk_keys(&chunks)), vec![true, true, false, false, true]);
    assert_eq!(merge(&cache, &chunks, " ", true), Err(MergeError::IncompleteOutput(2)));
    assert_eq!(
        merge(&cache, &chunks, " ", false),
        Ok("A B [missing chunk 2] [missing chunk 3] E".to_string())
    );
    let calls: RefCell<Vec<Vec<String>>> = RefCell::new(Vec::new());
    let again = run(&chunks, 2, &mut cache, |inputs: Vec<String>| {
        calls.borrow_mut().push(inputs.clone());
        upper(inputs)
    })
    .unwrap();
    assert_eq!(*calls.borrow(), vec![vec!["c".to_string(), "d".to_string()]]);
    assert_eq!(
        again.jobs,
        vec![
            JobStatus::Cached,
            JobStatus::Cached,
            JobStatus::Completed,
            JobStatus::Completed,
            JobStatus::Cached
        ]
    );
    assert_eq!(merge(&cache, &chunks, " ", true), Ok("A B C D E".to_string()));
}

#[test]
fn a_reply_of_the_wrong_length_fails_the_batch() {
    let chunks = chunks_of(&["a", "b", "c"]);
    let mut cache = ContentCache::new();
    let report = run(&chunks, 2, &mut cache, |inputs: Vec<String>| {
        if inputs.len() == 2 {
            Ok(vec!["only one".to_string()])
        } else {
            upper(inputs)
        }
    })
    .unwrap();
    assert_eq!(report.jobs, vec![JobStatus::EngineFailed, JobStatus::EngineFailed, JobStatus::Completed]);
    assert_eq!(cache.len(), 1);
    assert_eq!(accept_reply(Ok(vec!["x".to_string()]), 1), Some(vec!["x".to_string()]));
    assert_eq!(accept_reply(Ok(vec!["x".to_string()]), 2), None);
    assert_eq!(accept_reply(Ok(vec![]), 0), Some(vec![]));
    assert_eq!(accept_reply(Err(failure()), 1), None);
}

#[test]
fn a_refused_write_fails_that_chunk_alone() {
    let chunks = chunks_of(&["a", "b", "c", "d"]);
    let mut cache = ContentCache::bounded(2);
    let report = run(&chunks, 3, &mut cache, upper).unwrap();
    assert_eq!(
        report.jobs,
        vec![JobStatus::Completed, JobStatus::Completed, JobStatus::WriteFailed, JobStatus::WriteFailed]
    );
    assert_eq!(report.failed(), vec![2, 3]);
    assert_eq!(report.completed(), 2);
    assert_eq!(cache.len(), 2);
}

#[test]
fn chunks_with_equal_text_share_an_entry() {
    let chunks = chunks_of(&["same", "other", "same"]);
    let mut cache = ContentCache::bounded(2);
    let report = run(&chunks, 1, &mut cache, upper).unwrap();
    assert_eq!(report.jobs, vec![JobStatus::Completed; 3]);
    assert_eq!(cache.len(), 2);
    assert_eq!(merge(&cache, &chunks, " ", true), Ok("SAME OTHER SAME".to_string()));
}

#[test]
fn a_batch_size_of_zero_is_rejected_before_any_work() {
    let chunks = chunks_of(&["a"]);
    let mut cache = ContentCache::new();
    let calls = RefCell::new(0usize);
    let r = run(&chunks, 0, &mut cache, |inputs: Vec<String>| {
        *calls.borrow_mut() += 1;
        upper(inputs)
    });
    assert_eq!(r, Err(ConfigError::ZeroBatchSize));
    assert_eq!(*calls.borrow(), 0);
    assert_eq!(cache.len(), 0);
    assert_eq!(plan_batches(&vec![1, 2], 0), Err(ConfigError::ZeroBatchSize));
}

#[test]
fn batches_are_consecutive_and_bounded() {
    assert_eq!(plan_batches(&vec![0, 2, 3, 7, 9], 2), Ok(vec![vec![0, 2], vec![3, 7], vec![9]]));
    assert_eq!(plan_batches(&vec![0, 2, 3, 7], 2), Ok(vec![vec![0, 2], vec![3, 7]]));
    assert_eq!(plan_batches(&vec![4], 3), Ok(vec![vec![4]]));
    assert_eq!(plan_batches(&vec![], 3), Ok(vec![]));
    assert_eq!(plan_batches(&vec![1, 2, 3], usize::MAX), Ok(vec![vec![1, 2, 3]]));
    assert_eq!(plan_batches(&vec![1, 2, 3], 1), Ok(vec![vec![1], vec![2], vec![3]]));
}

#[test]
fn each_batch_is_one_call_in_input_order() {
    let chunks = chunks_of(&["a", "b", "c", "d", "e"]);
    let mut cache = ContentCache::new();
    cache.write(&cache_key("b"), "cached").unwrap();
    let calls: RefCell<Vec<Vec<String>>> = RefCell::new(Vec::new());
    run(&chunks, 3, &mut cache, |inputs: Vec<String>| {
        calls.borrow_mut().push(inputs.clone());
        upper(inputs)
    })
    .unwrap();
    let to = |v: &[&str]| v.iter().map(|s| s.to_string()).collect::<Vec<String>>();
    assert_eq!(*calls.borrow(), vec![to(&["a", "c", "d"]), to(&["e"])]);
    assert_eq!(batch_inputs(&chunks, &vec![4, 0]), to(&["e", "a"]));
    assert_eq!(merge(&cache, &chunks, "", true), Ok("AcachedCDE".to_string()));
}

#[test]
fn the_report_follows_each_job() {
    let mut report = ProcessingReport::begin(&vec![true, false, false, false]);
    assert_eq!(
        report.jobs,
        vec![JobStatus::Cached, JobStatus::Pending, JobStatus::Pending, JobStatus::Pending]
    );
    assert_eq!(report.pending(), vec![1, 2, 3]);
    assert_eq!(report.completed(), 1);
    report.record_written(1);
    assert_eq!(report.status(1), Some(JobStatus::Pending));
    report.submit(&vec![0, 1, 2, 9]);
    assert_eq!(
        report.jobs,
        vec![JobStatus::Cached, JobStatus::Submitted, JobStatus::Submitted, JobStatus::Pending]
    );
    report.record_written(1);
    report.record_write_failure(2);
    report.record_write_failure(1);
    report.record_written(0);
    report.record_written(17);
    assert_eq!(
        report.jobs,
        vec![JobStatus::Cached, JobStatus::Completed, JobStatus::WriteFailed, JobStatus::Pending]
    );
    report.record_engine_failure(&vec![1, 2, 3]);
    assert_eq!(report.status(3), Some(JobStatus::Pending));
    report.submit(&vec![3]);
    report.record_engine_failure(&vec![3, 3]);
    assert_eq!(report.status(3), Some(JobStatus::EngineFailed));
    assert_eq!(report.status(4), None);
    assert_eq!((report.total(), report.completed()), (4, 2));
    assert_eq!(report.failed(), vec![2, 3]);
    assert!(report.pending().is_empty());
}

#[test]
fn the_order_of_completion_does_not_show_in_the_merge() {
    let chunks = chunks_of(&["a", "b", "c", "d", "e"]);
    let keys = chunk_keys(&chunks);
    let plan = plan_batches(&vec![0, 1, 2, 3, 4], 2).unwrap();
    let mut merged = Vec::new();
    for order in [[0usize, 1, 2], [2, 1, 0], [1, 2, 0], [1, 0, 2]] {
        let mut cache = ContentCache::new();
        let mut report = ProcessingReport::begin(&scan(&cache, &keys));
        for b in order {
            let inputs = batch_inputs(&chunks, &plan[b]);
            report.submit(&plan[b]);
            settle_batch(&mut cache, &mut report, &keys, &plan[b], upper(inputs));
        }
        assert_eq!(report.jobs, vec![JobStatus::Completed; 5]);
        merged.push(merge(&cache, &chunks, "\n\n", true));
    }
    assert_eq!(merged[0], Ok("A\n\nB\n\nC\n\nD\n\nE".to_string()));
    assert!(merged.iter().all(|m| *m == merged[0]));
}

#[test]
fn merging_reports_the_first_problem() {
    let chunks = chunks_of(&["a", "b", "c"]);
    let mut cache = ContentCache::new();
    assert_eq!(merge(&cache, &chunks, " ", true), Err(MergeError::IncompleteOutput(0)));
    cache.write(&cache_key("a"), "A").unwrap();
    cache.write_bytes(&cache_key("b"), vec![0xff]).unwrap();
    assert_eq!(merge(&cache, &chunks, " ", true), Err(MergeError::CorruptEntry(1)));
    assert_eq!(merge(&cache, &chunks, " ", false), Ok("A [missing chunk 1] [missing chunk 2]".to_string()));
    assert_eq!(merge(&cache, &chunks_of(&[]), " ", true), Ok(String::new()));
}

#[test]
fn parts_merge_with_the_joiner_between() {
    let parts = vec![Some("one".to_string()), Some("two".to_string()), Some("three".to_string())];
    assert_eq!(merge_parts(&parts, "\n\n", true), Ok("one\n\ntwo\n\nthree".to_string()));
    assert_eq!(merge_parts(&parts, "", false), Ok("onetwothree".to_string()));
    assert_eq!(merge_parts(&vec![Some("solo".to_string())], ", ", true), Ok("solo".to_string()));
    assert_eq!(merge_parts(&vec![], ", ", true), Ok(String::new()));
    let mut gaps: Vec<Option<String>> = vec![None; 12];
    gaps[0] = Some("x".to_string());
    assert_eq!(merge_parts(&gaps, " ", true), Err(MergeError::IncompleteOutput(1)));
    let best = merge_parts(&gaps, " ", false).unwrap();
    assert!(best.starts_with("x [missing chunk 1] [missing chunk 2] "));
    assert!(best.ends_with(" [missing chunk 10] [missing chunk 11]"));
}
