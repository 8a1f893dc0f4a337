use vstd::prelude::*;
use crate::assemble::{assembly, split_documents, total};
use crate::boundary::{cuts, find_split_indices, SCORE_SCALE};
use crate::span::{Span, tiles};
use crate::threshold::{find_optimal_threshold, in_band, median_at, search_start, SearchBounds};

verus! {

/// Why a chunking run could not go on.
#[derive(Clone, Copy, Debug, PartialEq, Eq, Structural)]
pub enum ChunkError {
    /// The settings are inconsistent: `min_split_tokens > max_split_tokens`,
    /// a window of zero elements, or a search allowed no probe.
    Configuration,
    /// A collaborator (embedding backend or tokenizer) failed on a batch.
    Encoding,
}

/// Settings of the statistical chunker. Scores and thresholds are fixed-point
/// integers in millionths (`SCORE_SCALE` is 1.0).
#[derive(Clone, Copy, Debug)]
pub struct StatisticalChunker {
    /// The cut threshold used when `dynamic_threshold` is off.
    pub score_threshold: i64,
    /// How far past a rejected probe the threshold search moves.
    pub threshold_adjustment: u32,
    /// Calibrate the threshold per batch instead of using `score_threshold`.
    pub dynamic_threshold: bool,
    /// How many preceding elements form the context of a score.
    pub window_size: usize,
    pub min_split_tokens: usize,
    pub max_split_tokens: usize,
    pub split_token_tolerance: usize,
    /// The most thresholds the search tries on one batch.
    pub max_iterations: usize,
}

/// The chunks of one batch and the threshold that produced them.
pub struct BatchChunks {
    /// The chunks, as spans of element positions in the batch.
    pub spans: Vec<Span>,
    pub threshold: i64,
    /// False only when the threshold search ran out without acceptance.
    pub converged: bool,
}

impl StatisticalChunker {
    pub open spec fn wf(self) -> bool {
        &&& self.min_split_tokens <= self.max_split_tokens
        &&& self.window_size >= 1
        &&& self.max_iterations >= 1
    }

    pub open spec fn bounds(self) -> SearchBounds {
        SearchBounds {
            min_tokens: self.min_split_tokens,
            max_tokens: self.max_split_tokens,
            tolerance: self.split_token_tolerance,
            adjustment: self.threshold_adjustment,
            max_iterations: self.max_iterations,
        }
    }

    /// The threshold applied to a batch: the fixed one, or the one the
    /// search settles on.
    pub open spec fn threshold_for(
        self,
        counts: Seq<usize>,
        scores: Seq<Option<i64>>,
        median: i64,
        std_dev: i64,
    ) -> int {
        if self.dynamic_threshold {
            search_start(counts, scores, self.bounds(), median, std_dev).0
        } else {
            self.score_threshold as int
        }
    }

    /// The chunks of a batch: cuts at the batch's threshold, then assembly
    /// under the token bounds.
    pub open spec fn batch_chunks(
        self,
        counts: Seq<usize>,
        scores: Seq<Option<i64>>,
        median: i64,
        std_dev: i64,
    ) -> Seq<Span> {
        assembly(
            counts,
            cuts(scores, self.threshold_for(counts, scores, median, std_dev) as i64),
            self.min_split_tokens,
            self.max_split_tokens,
        )
    }

    /// Checks the settings: the token bounds must be ordered, the window
    /// must hold at least one element, and the search may make at least one
    /// probe.
    pub fn new(
        score_threshold: i64,
        threshold_adjustment: u32,
        dynamic_threshold: bool,
        window_size: usize,
        min_split_tokens: usize,
        max_split_tokens: usize,
        split_token_tolerance: usize,
        max_iterations: usize,
    ) -> (r: Result<Self, ChunkError>)
        ensures
            r is Err <==> (min_split_tokens > max_split_tokens || window_size == 0
                || max_iterations == 0),
            r is Err ==> r == Err::<Self, ChunkError>(ChunkError::Configuration),
            r matches Ok(c) ==> c.wf() && c.score_threshold == score_threshold
                && c.threshold_adjustment == threshold_adjustment && c.dynamic_threshold
                == dynamic_threshold && c.window_size == window_size && c.min_split_tokens
                == min_split_tokens && c.max_split_tokens == max_split_tokens
                && c.split_token_tolerance == split_token_tolerance && c.max_iterations
                == max_iterations,
    {
        if min_split_tokens > max_split_tokens || window_size == 0 || max_iterations == 0 {
            return Err(ChunkError::Configuration);
        }
        Ok(
            StatisticalChunker {
                score_threshold,
                threshold_adjustment,
                dynamic_threshold,
                window_size,
                min_split_tokens,
                max_split_tokens,
                split_token_tolerance,
                max_iterations,
            },
        )
    }

    /// Chunks one batch of elements, given each element's token count and the
    /// score of each element after the first (`None` where it could not be
    /// computed). `median` and `std_dev` describe the batch's scores and seed
    /// the threshold search in dynamic mode.
    pub fn chunk_batch(
        &self,
        counts: &Vec<usize>,
        scores: &Vec<Option<i64>>,
        median: i64,
        std_dev: i64,
    ) -> (r: BatchChunks)
        requires
            self.wf(),
            counts@.len() == scores@.len() + 1,
            total(counts@) <= usize::MAX,
        ensures
            r.threshold == self.threshold_for(counts@, scores@, median, std_dev),
            r.spans@ == self.batch_chunks(counts@, scores@, median, std_dev),
            tiles(r.spans@, 0, counts@.len() as int),
            r.converged == (!self.dynamic_threshold || search_start(
                counts@,
                scores@,
                self.bounds(),
                median,
                std_dev,
            ).1),
            self.dynamic_threshold ==> 0 <= r.threshold <= SCORE_SCALE,
            self.dynamic_threshold && r.converged ==> in_band(
                median_at(counts@, scores@, r.threshold as int),
                self.min_split_tokens,
                self.max_split_tokens,
                self.split_token_tolerance,
            ),
    {
        let (threshold, converged) = if self.dynamic_threshold {
            let b = SearchBounds {
                min_tokens: self.min_split_tokens,
                max_tokens: self.max_split_tokens,
                tolerance: self.split_token_tolerance,
                adjustment: self.threshold_adjustment,
                max_iterations: self.max_iterations,
            };
            let choice = find_optimal_threshold(counts, scores, &b, median, std_dev);
            (choice.threshold, choice.converged)
        } else {
            (self.score_threshold, true)
        };
        let cut_at = find_split_indices(scores, threshold);
        let spans = split_documents(counts, &cut_at, self.min_split_tokens, self.max_split_tokens);
        BatchChunks { spans, threshold, converged }
    }
}

/// With a fixed threshold, the chunks of a batch are fixed by the settings,
/// the token counts and the scores alone: the same inputs always give the
/// same chunks, whatever score statistics come with them.
pub proof fn lemma_fixed_threshold_deterministic(
    c: StatisticalChunker,
    counts: Seq<usize>,
    scores: Seq<Option<i64>>,
    median_a: i64,
    std_dev_a: i64,
    median_b: i64,
    std_dev_b: i64,
)
    requires
        !c.dynamic_threshold,
    ensures
        c.threshold_for(counts, scores, median_a, std_dev_a) == c.score_threshold,
        c.batch_chunks(counts, scores, median_a, std_dev_a) == c.batch_chunks(
            counts,
            scores,
            median_b,
            std_dev_b,
        ),
{
}

impl Default for StatisticalChunker {
    /// A threshold of 0.9 adjusted in steps of 0.01, searched dynamically;
    /// windows of five elements; chunks of 200 to 400 tokens, give or take
    /// ten; at most 100 probes.
    fn default() -> (r: Self)
        ensures
            r.wf(),
            r.score_threshold == 900_000,
            r.threshold_adjustment == 10_000,
            r.dynamic_threshold,
            r.window_size == 5,
            r.min_split_tokens == 200,
            r.max_split_tokens == 400,
            r.split_token_tolerance == 10,
            r.max_iterations == 100,
    {
        StatisticalChunker {
            score_threshold: SCORE_SCALE / 10 * 9,
            threshold_adjustment: 10_000,
            dynamic_threshold: true,
            window_size: 5,
            min_split_tokens: 200,
            max_split_tokens: 400,
            split_token_tolerance: 10,
            max_iterations: 100,
        }
    }
}

} // verus!
