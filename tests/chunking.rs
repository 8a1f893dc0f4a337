use embed_anything::boundary::{find_split_indices, SCORE_SCALE};
use embed_anything::assemble::split_documents;
use embed_anything::chunker::{ChunkError, StatisticalChunker};
use embed_anything::config::ImageEmbedConfig;
use embed_anything::run::{ChunkRun, RunPhase};
use embed_anything::span::Span;
use embed_anything::text::join_span;
use embed_anything::threshold::{find_optimal_threshold, SearchBounds};
use embed_anything::tokens::count_tokens;

fn fixed(threshold: i64, min: usize, max: usize) -> StatisticalChunker {
    StatisticalChunker::new(threshold, 10_000, false, 5, min, max, 0, 100).unwrap()
}

fn strings(v: &[&str]) -> Vec<String> {
    v.iter().map(|s| s.to_string()).collect()
}

fn sp(start: usize, end: usize) -> Span {
    Span { start, end }
}

#[test]
fn scenario_cut_after_third_split() {
    let parts = strings(&["A.", "B.", "C.", "D."]);
    let chunker = fixed(SCORE_SCALE / 2, 1, 100);
    let mut run = ChunkRun::new(parts.len(), 4);
    assert_eq!(run.batch_texts(&parts), parts);
    let scores = vec![Some(950_000), Some(950_000), Some(400_000)];
    let r = run.step(&chunker, &vec![1, 1, 1, 1], &scores, 0, 0);
    assert_eq!(r, Ok((500_000, true)));
    assert_eq!(run.phase(), RunPhase::AwaitingCarryMerge);
    assert!(run.input_consumed());
    run.finish();
    assert_eq!(run.phase(), RunPhase::Flushed);
    assert_eq!(run.chunk_texts(&parts), strings(&["A. B. C.", "D."]));
}

#[test]
fn empty_input_gives_no_chunk() {
    let mut run = ChunkRun::new(0, 3);
    assert_eq!(run.phase(), RunPhase::Idle);
    assert!(run.input_consumed());
    run.finish();
    assert_eq!(run.chunk_texts(&vec![]), Vec::<String>::new());
}

#[test]
fn single_split_is_one_chunk() {
    let parts = strings(&["Only one sentence here."]);
    let chunker = StatisticalChunker::default();
    let mut run = ChunkRun::new(1, 8);
    assert_eq!(run.batch_elements(), vec![sp(0, 1)]);
    assert!(run.step(&chunker, &vec![5], &vec![], 0, 0).is_ok());
    run.finish();
    assert_eq!(run.chunk_texts(&parts), parts);
}

#[test]
fn batches_carry_the_last_chunk() {
    // Five splits, two per batch; every score is low, so each element ends a
    // candidate chunk, and each element fits the bounds on its own.
    let parts = strings(&["a", "b", "c", "d", "e"]);
    let chunker = fixed(SCORE_SCALE / 2, 1, 1);
    let mut run = ChunkRun::new(5, 2);
    assert_eq!(run.batch_elements(), vec![sp(0, 1), sp(1, 2)]);
    assert!(run.step(&chunker, &vec![1, 1], &vec![Some(0)], 0, 0).is_ok());
    assert_eq!(run.done, vec![sp(0, 1)]);
    assert_eq!(run.carry, Some(sp(1, 2)));
    // The held-back chunk leads the next batch.
    assert_eq!(run.batch_elements(), vec![sp(1, 2), sp(2, 3), sp(3, 4)]);
    assert_eq!(run.batch_texts(&parts), strings(&["b", "c", "d"]));
    assert!(run.step(&chunker, &vec![1, 1, 1], &vec![Some(0), Some(0)], 0, 0).is_ok());
    assert_eq!(run.batch_elements(), vec![sp(3, 4), sp(4, 5)]);
    assert!(run.step(&chunker, &vec![1, 1], &vec![Some(0)], 0, 0).is_ok());
    assert!(run.input_consumed());
    run.finish();
    assert_eq!(run.done, vec![sp(0, 1), sp(1, 2), sp(2, 3), sp(3, 4), sp(4, 5)]);
    assert_eq!(run.chunk_texts(&parts), parts);
}

#[test]
fn one_chunk_batch_is_held_back_whole() {
    let parts = strings(&["x", "y", "z"]);
    let chunker = fixed(SCORE_SCALE / 2, 1, 100);
    let mut run = ChunkRun::new(3, 2);
    assert!(run.step(&chunker, &vec![2, 2], &vec![Some(900_000)], 0, 0).is_ok());
    assert!(run.done.is_empty());
    assert_eq!(run.carry, Some(sp(0, 2)));
    assert_eq!(run.batch_texts(&parts), strings(&["x y", "z"]));
    assert!(run.step(&chunker, &vec![3, 2], &vec![Some(900_000)], 0, 0).is_ok());
    run.finish();
    assert_eq!(run.chunk_texts(&parts), strings(&["x y z"]));
}

#[test]
fn coverage_over_many_batches() {
    let n = 23;
    let parts: Vec<String> = (0..n).map(|i| format!("s{}", i)).collect();
    let chunker = fixed(SCORE_SCALE / 2, 3, 6);
    let mut run = ChunkRun::new(n, 4);
    let mut round = 0;
    while !run.input_consumed() {
        let elements = run.batch_elements();
        let counts: Vec<usize> = elements.iter().map(|s| s.end - s.start).collect();
        let scores: Vec<Option<i64>> = (1..elements.len())
            .map(|k| if (k + round) % 3 == 0 { None } else { Some(800_000) })
            .collect();
        assert!(run.step(&chunker, &counts, &scores, 0, 0).is_ok());
        round += 1;
    }
    run.finish();
    let mut expect = 0;
    for s in &run.done {
        assert_eq!(s.start, expect);
        assert!(s.start < s.end);
        expect = s.end;
    }
    assert_eq!(expect, n);
    let joined = run.chunk_texts(&parts).join(" ");
    assert_eq!(joined, parts.join(" "));
}

#[test]
fn fixed_mode_is_deterministic() {
    let chunker = fixed(SCORE_SCALE / 2, 1, 4);
    let counts = vec![1, 2, 3, 1, 1];
    let scores = vec![Some(100_000), Some(900_000), None, Some(700_000)];
    let a = chunker.chunk_batch(&counts, &scores, 0, 0);
    let b = chunker.chunk_batch(&counts, &scores, 300_000, 90_000);
    assert_eq!(a.spans, b.spans);
    assert_eq!(a.threshold, b.threshold);
    assert!(a.converged);
}

#[test]
fn split_indices_follow_low_scores() {
    let scores = vec![Some(950_000), None, Some(400_000), Some(500_000)];
    assert_eq!(find_split_indices(&scores, 500_000), vec![2, 3]);
    assert_eq!(find_split_indices(&scores, 960_000), vec![1, 2, 3, 4]);
    assert_eq!(find_split_indices(&vec![], 500_000), Vec::<usize>::new());
}

#[test]
fn assembly_honours_token_bounds() {
    // A candidate cut whose element would overflow the bounds is flushed
    // without it; that element opens the next chunk.
    assert_eq!(split_documents(&vec![3, 3, 5, 1], &vec![2], 4, 5), vec![sp(0, 1), sp(1, 3), sp(3, 4)]);
    assert_eq!(split_documents(&vec![3, 3, 5, 1], &vec![2], 4, 6), vec![sp(0, 2), sp(2, 4)]);
    // Past `max` a chunk that has reached `min` is closed.
    assert_eq!(split_documents(&vec![4, 4, 4], &vec![], 4, 6), vec![sp(0, 1), sp(1, 2), sp(2, 3)]);
    // Below `min` the accumulator keeps growing past `max`.
    assert_eq!(split_documents(&vec![2, 9, 1], &vec![], 5, 6), vec![sp(0, 2), sp(2, 3)]);
    assert_eq!(split_documents(&vec![], &vec![], 1, 2), Vec::<Span>::new());
}

fn bounds(min: usize, max: usize, tol: usize, adj: u32, iters: usize) -> SearchBounds {
    SearchBounds { min_tokens: min, max_tokens: max, tolerance: tol, adjustment: adj, max_iterations: iters }
}

#[test]
fn search_accepts_first_probe_in_band() {
    let counts = vec![10, 10, 10, 10];
    let scores = vec![Some(900_000), Some(100_000), Some(900_000)];
    let r = find_optimal_threshold(&counts, &scores, &bounds(15, 30, 0, 10_000, 50), 500_000, 500_000);
    assert_eq!((r.threshold, r.converged, r.iterations), (500_000, true, 1));
}

#[test]
fn search_lowers_threshold_when_chunks_are_small() {
    let counts = vec![10, 10, 10, 10];
    let scores = vec![Some(900_000), Some(100_000), Some(900_000)];
    let r = find_optimal_threshold(&counts, &scores, &bounds(35, 50, 0, 10_000, 50), 500_000, 500_000);
    assert_eq!((r.threshold, r.converged, r.iterations), (53_750, true, 4));
}

#[test]
fn search_uses_median_of_two_middle_sizes() {
    // Sizes 10 and 30: only their mean, 20, is in the band.
    let r = find_optimal_threshold(&vec![10, 30], &vec![Some(0)], &bounds(20, 20, 0, 1, 5), 500_000, 0);
    assert_eq!((r.threshold, r.converged, r.iterations), (500_000, true, 1));
}

#[test]
fn search_stops_after_max_iterations() {
    let counts = vec![10, 10];
    let scores = vec![Some(100_000)];
    let r = find_optimal_threshold(&counts, &scores, &bounds(100, 200, 0, 0, 3), 500_000, 100_000);
    assert!(!r.converged);
    assert_eq!(r.iterations, 3);
    // An empty interval makes no probe at all.
    let r = find_optimal_threshold(&counts, &scores, &bounds(100, 200, 0, 0, 3), 2 * SCORE_SCALE, 0);
    assert_eq!((r.threshold, r.converged, r.iterations), (0, false, 0));
    // Extreme statistics still terminate.
    let r = find_optimal_threshold(&counts, &scores, &bounds(100, 200, 0, 1, 1000), i64::MIN, i64::MAX);
    assert!(r.iterations <= 1000);
}

#[test]
fn dynamic_batch_uses_searched_threshold() {
    let chunker = StatisticalChunker::new(900_000, 10_000, true, 5, 15, 30, 0, 50).unwrap();
    let counts = vec![10, 10, 10, 10];
    let scores = vec![Some(900_000), Some(100_000), Some(900_000)];
    let b = chunker.chunk_batch(&counts, &scores, 500_000, 500_000);
    assert_eq!(b.threshold, 500_000);
    assert!(b.converged);
    assert_eq!(b.spans, vec![sp(0, 2), sp(2, 4)]);
}

#[test]
fn configuration_errors() {
    assert_eq!(StatisticalChunker::new(500_000, 1, false, 5, 10, 9, 0, 10).err(), Some(ChunkError::Configuration));
    assert_eq!(StatisticalChunker::new(500_000, 1, false, 0, 1, 9, 0, 10).err(), Some(ChunkError::Configuration));
    assert_eq!(StatisticalChunker::new(500_000, 1, true, 5, 1, 9, 0, 0).err(), Some(ChunkError::Configuration));
    let c = StatisticalChunker::new(500_000, 1, false, 1, 9, 9, 0, 10).unwrap();
    assert_eq!(c.min_split_tokens, 9);
}

#[test]
fn mismatched_batch_is_an_encoding_error() {
    let chunker = fixed(SCORE_SCALE / 2, 1, 10);
    let mut run = ChunkRun::new(3, 2);
    assert_eq!(run.step(&chunker, &vec![1, 1, 1], &vec![Some(0), Some(0)], 0, 0), Err(ChunkError::Encoding));
    assert_eq!(run.step(&chunker, &vec![1, 1], &vec![], 0, 0), Err(ChunkError::Encoding));
    assert_eq!(run.next, 0);
    assert!(run.done.is_empty());
}

#[test]
fn defaults() {
    let c = StatisticalChunker::default();
    assert_eq!(c.score_threshold, 900_000);
    assert_eq!(c.threshold_adjustment, 10_000);
    assert!(c.dynamic_threshold);
    assert_eq!((c.window_size, c.min_split_tokens, c.max_split_tokens, c.split_token_tolerance), (5, 200, 400, 10));
    assert_eq!(ImageEmbedConfig::default().buffer_size, Some(100));
    assert_eq!(ImageEmbedConfig::new(Some(7)).buffer_size, Some(7));
    assert_eq!(ImageEmbedConfig::new(None).buffer_size, None);
}

#[test]
fn joins_with_single_spaces() {
    let parts = strings(&["one", "two", "three"]);
    assert_eq!(join_span(&parts, sp(0, 3)), "one two three");
    assert_eq!(join_span(&parts, sp(1, 2)), "two");
    assert_eq!(join_span(&parts, sp(2, 2)), "");
}

#[test]
fn counts_tokens_with_a_tokenizer() {
    let json = r#"{"version":"1.0","truncation":null,"padding":null,"added_tokens":[],"normalizer":null,"pre_tokenizer":{"type":"WhitespaceSplit"},"post_processor":null,"decoder":null,"model":{"type":"WordLevel","vocab":{"[UNK]":0,"a":1,"b":2},"unk_token":"[UNK]"}}"#;
    let tokenizer: tokenizers::Tokenizer = json.parse().unwrap();
    let counts = count_tokens(&tokenizer, &strings(&["a b a", "b", "c d e f"])).unwrap();
    assert_eq!(counts, vec![3, 1, 4]);
}

#[test]
fn search_probes_stay_in_initial_interval() {
    // Three elements, two scores of 0.5, deviation zero: the interval is the
    // single point 0.5, and the search must probe it even when rejected.
    let counts = vec![5, 5, 5];
    let scores = vec![Some(500_000), Some(500_000)];
    let r = find_optimal_threshold(&counts, &scores, &bounds(100, 200, 0, 10_000, 1), 500_000, 0);
    assert_eq!((r.threshold, r.converged, r.iterations), (500_000, false, 1));
    let r = find_optimal_threshold(&counts, &scores, &bounds(100, 200, 0, 10_000, 20), 300_000, 100_000);
    assert!(!r.converged);
    assert!(200_000 <= r.threshold && r.threshold <= 400_000);
}

#[test]
fn step_reports_non_convergence() {
    let chunker = StatisticalChunker::new(500_000, 10_000, true, 5, 100, 200, 0, 2).unwrap();
    let mut run = ChunkRun::new(2, 2);
    let r = run.step(&chunker, &vec![5, 5], &vec![Some(900_000)], 500_000, 0);
    assert_eq!(r, Ok((500_000, false)));
}

#[test]
fn dynamic_mode_bounds_the_median_not_each_chunk() {
    // The search accepts: segment sizes 15, 30, 15 have median 15, inside
    // 10..=20. The middle chunk still holds 30 tokens.
    let chunker = StatisticalChunker::new(900_000, 10_000, true, 5, 10, 20, 0, 10).unwrap();
    let b = chunker.chunk_batch(&vec![15, 30, 15], &vec![Some(0), Some(0)], 500_000, 0);
    assert!(b.converged);
    assert_eq!(b.threshold, 500_000);
    assert_eq!(b.spans, vec![sp(0, 1), sp(1, 2), sp(2, 3)]);
}
