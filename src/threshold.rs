use vstd::prelude::*;
use crate::assemble::{total, lemma_total_split, lemma_total_part};
use crate::boundary::{cuts, find_split_indices, strictly_ascending, SCORE_SCALE};

verus! {

/// The median of a non-empty sequence of counts: the middle element in
/// ascending order, or the mean of the two middle elements, rounded down.
pub open spec fn median_value(s: Seq<usize>) -> int {
    let t = s.sort_by(|a: usize, b: usize| a <= b);
    let m = s.len() as int / 2;
    if s.len() % 2 == 1 {
        t[m] as int
    } else {
        (t[m] + t[m - 1]) / 2
    }
}

/// Relies on statistical::median: it sorts a copy of the input and returns
/// the middle element, or the two middle elements' sum halved by integer
/// division. It asserts that the input is non-empty.
#[verifier::external_body]
fn median_count(v: &Vec<usize>) -> (r: usize)
    requires
        v@.len() > 0,
        total(v@) <= usize::MAX,
    ensures
        r == median_value(v@),
{
    statistical::median(v.as_slice())
}

/// Chunk boundaries for cut positions over `n` elements: the start, each cut,
/// and the end.
pub open spec fn edges(cut_at: Seq<usize>, n: nat) -> Seq<usize> {
    seq![0usize] + cut_at + seq![n as usize]
}

/// Token totals of the stretches between consecutive edges.
pub open spec fn segment_totals(counts: Seq<usize>, cut_at: Seq<usize>) -> Seq<usize> {
    let e = edges(cut_at, counts.len());
    Seq::new(
        cut_at.len() + 1,
        |k: int| total(counts.subrange(e[k] as int, e[k + 1] as int)) as usize,
    )
}

/// Cut positions fit a run of `n` elements: ascending and inside `1..n`.
pub open spec fn cuts_fit(cut_at: Seq<usize>, n: nat) -> bool {
    &&& strictly_ascending(cut_at)
    &&& forall|k: int| 0 <= k < cut_at.len() ==> 1 <= #[trigger] cut_at[k] < n
}

/// Token totals per stretch between cuts, computed from running sums.
fn chunk_token_totals(counts: &Vec<usize>, cut_at: &Vec<usize>) -> (r: Vec<usize>)
    requires
        total(counts@) <= usize::MAX,
        cuts_fit(cut_at@, counts@.len()),
        cut_at@.len() < counts@.len(),
    ensures
        r@ == segment_totals(counts@, cut_at@),
        total(r@) == total(counts@),
{
    let n = counts.len();
    let mut running: Vec<usize> = Vec::new();
    running.push(0);
    let mut sum: usize = 0;
    let mut j: usize = 0;
    assert(counts@.subrange(0, 0).len() == 0);
    while j < n
        invariant
            n == counts@.len(),
            j <= n,
            total(counts@) <= usize::MAX,
            running@.len() == j + 1,
            sum == total(counts@.subrange(0, j as int)),
            forall|q: int| 0 <= q <= j ==> #[trigger] running@[q] == total(counts@.subrange(0, q)),
        decreases n - j,
    {
        proof {
            lemma_total_part(counts@, 0, j + 1);
            assert(counts@.subrange(0, j + 1).drop_last() == counts@.subrange(0, j as int));
        }
        sum = sum + counts[j];
        running.push(sum);
        j = j + 1;
    }
    let e: Ghost<Seq<usize>> = Ghost(edges(cut_at@, counts@.len()));
    let mut r: Vec<usize> = Vec::new();
    let mut k: usize = 0;
    let mut lo: usize = 0;
    while k <= cut_at.len()
        invariant
            n == counts@.len(),
            running@.len() == n + 1,
            forall|q: int| 0 <= q <= n ==> #[trigger] running@[q] == total(counts@.subrange(0, q)),
            total(counts@) <= usize::MAX,
            cuts_fit(cut_at@, n as nat),
            e@ == edges(cut_at@, n as nat),
            k <= cut_at@.len() + 1,
            r@.len() == k,
            k <= cut_at@.len() ==> lo == e@[k as int],
            k == cut_at@.len() + 1 ==> lo == n,
            cut_at@.len() < n,
            lo <= n,
            forall|q: int|
                0 <= q < k ==> #[trigger] r@[q] == segment_totals(counts@, cut_at@)[q],
            total(r@) == total(counts@.subrange(0, lo as int)),
        decreases cut_at@.len() + 1 - k,
    {
        let hi = if k < cut_at.len() {
            cut_at[k]
        } else {
            n
        };
        proof {
            assert(e@[k + 1] == hi);
            if k > 0 {
                assert(e@[k as int] == cut_at@[k - 1]);
                if k < cut_at@.len() {
                    assert(cut_at@[k - 1] < cut_at@[k as int]);
                }
            } else {
                assert(e@[0] == 0);
            }
            lemma_total_split(counts@, 0, lo as int);
            lemma_total_split(counts@, lo as int, hi as int);
            lemma_total_split(counts@, 0, hi as int);
            assert(running@[hi as int] == total(counts@.subrange(0, hi as int)));
            assert(running@[lo as int] == total(counts@.subrange(0, lo as int)));
        }
        let size = running[hi] - running[lo];
        proof {
            assert(r@.push(size).drop_last() == r@);
        }
        r.push(size);
        lo = hi;
        k = k + 1;
    }
    proof {
        assert(r@ =~= segment_totals(counts@, cut_at@));
        assert(counts@.subrange(0, n as int) == counts@);
    }
    r
}

/// The band of acceptable median chunk sizes: `min - tol ..= max + tol`.
pub open spec fn in_band(m: int, min: usize, max: usize, tol: usize) -> bool {
    min - tol <= m <= max + tol
}

/// Settings of the threshold search, in the units of the chunker.
pub struct SearchBounds {
    pub min_tokens: usize,
    pub max_tokens: usize,
    pub tolerance: usize,
    pub adjustment: u32,
    pub max_iterations: usize,
}

/// The median chunk size that a threshold produces on a batch.
pub open spec fn median_at(counts: Seq<usize>, scores: Seq<Option<i64>>, t: int) -> int {
    median_value(segment_totals(counts, cuts(scores, t as i64)))
}

/// The bisection on the threshold, from the interval `low..=high`, after
/// `iter` probes, `last` being the most recent probe: each probe takes the
/// midpoint, accepts it when the median chunk size lies in the band, and
/// otherwise moves the interval past it by the adjustment, down when the
/// chunks are too small and up when they are too large. It stops without
/// acceptance when the interval is empty or the probes are used up.
/// Yields the threshold, whether it was accepted, and the probes made.
pub open spec fn search(
    counts: Seq<usize>,
    scores: Seq<Option<i64>>,
    b: SearchBounds,
    low: int,
    high: int,
    last: int,
    iter: nat,
) -> (int, bool, nat)
    decreases b.max_iterations - iter,
{
    if iter < b.max_iterations && low <= high {
        let mid = (low + high) / 2;
        let m = median_at(counts, scores, mid);
        if in_band(m, b.min_tokens, b.max_tokens, b.tolerance) {
            (mid, true, iter + 1)
        } else if m < b.min_tokens {
            search(counts, scores, b, low, mid - b.adjustment, mid, iter + 1)
        } else {
            search(counts, scores, b, mid + b.adjustment, high, mid, iter + 1)
        }
    } else {
        (last, false, iter)
    }
}

/// The lower end of the initial interval: one standard deviation below the
/// median score, and not below zero.
pub open spec fn start_low(median: i64, std_dev: i64) -> int {
    if median - std_dev > 0 {
        median - std_dev
    } else {
        0
    }
}

/// The upper end of the initial interval: one standard deviation above the
/// median score, and not above `SCORE_SCALE`.
pub open spec fn start_high(median: i64, std_dev: i64) -> int {
    if median + std_dev < SCORE_SCALE {
        median + std_dev
    } else {
        SCORE_SCALE as int
    }
}

/// Where the search starts: one standard deviation either side of the
/// median score, clipped to `0..=SCORE_SCALE`.
pub open spec fn search_start(
    counts: Seq<usize>,
    scores: Seq<Option<i64>>,
    b: SearchBounds,
    median: i64,
    std_dev: i64,
) -> (int, bool, nat) {
    search(counts, scores, b, start_low(median, std_dev), start_high(median, std_dev), 0, 0)
}

/// Whatever the counts, scores and statistics, the search makes at most
/// `max_iterations` probes.
pub proof fn lemma_search_terminates(
    counts: Seq<usize>,
    scores: Seq<Option<i64>>,
    b: SearchBounds,
    median: i64,
    std_dev: i64,
)
    ensures
        search_start(counts, scores, b, median, std_dev).2 <= b.max_iterations,
{
    lemma_search_bounded(
        counts,
        scores,
        b,
        start_low(median, std_dev),
        start_high(median, std_dev),
        0,
        0,
    );
}

proof fn lemma_search_bounded(
    counts: Seq<usize>,
    scores: Seq<Option<i64>>,
    b: SearchBounds,
    low: int,
    high: int,
    last: int,
    iter: nat,
)
    requires
        iter <= b.max_iterations,
    ensures
        search(counts, scores, b, low, high, last, iter).2 <= b.max_iterations,
    decreases b.max_iterations - iter,
{
    if iter < b.max_iterations && low <= high {
        let mid = (low + high) / 2;
        lemma_search_bounded(counts, scores, b, low, mid - b.adjustment, mid, iter + 1);
        lemma_search_bounded(counts, scores, b, mid + b.adjustment, high, mid, iter + 1);
    }
}

/// The outcome of the threshold search.
#[derive(Clone, Copy, Debug, PartialEq, Eq, Structural)]
pub struct ThresholdChoice {
    /// The threshold chosen, in millionths.
    pub threshold: i64,
    /// Whether the median chunk size at `threshold` lies in the band.
    pub converged: bool,
    /// How many thresholds were tried.
    pub iterations: usize,
}

/// Calibrates a threshold so that the median chunk size of the batch falls in
/// `min_tokens - tolerance ..= max_tokens + tolerance`, by bisection from one
/// standard deviation around the median score, with at most `max_iterations`
/// probes. When no probe is accepted, the last probe (or zero, when the
/// initial interval is empty) is returned with `converged` false. Every probe
/// lies in the initial interval.
pub fn find_optimal_threshold(
    counts: &Vec<usize>,
    scores: &Vec<Option<i64>>,
    b: &SearchBounds,
    median: i64,
    std_dev: i64,
) -> (r: ThresholdChoice)
    requires
        counts@.len() == scores@.len() + 1,
        total(counts@) <= usize::MAX,
        b.max_iterations >= 1,
    ensures
        (r.threshold as int, r.converged, r.iterations as nat) == search_start(
            counts@,
            scores@,
            *b,
            median,
            std_dev,
        ),
        r.iterations <= b.max_iterations,
        r.converged ==> in_band(
            median_at(counts@, scores@, r.threshold as int),
            b.min_tokens,
            b.max_tokens,
            b.tolerance,
        ),
        0 <= r.threshold <= SCORE_SCALE,
        start_low(median, std_dev) <= start_high(median, std_dev) ==> start_low(median, std_dev)
            <= r.threshold <= start_high(median, std_dev),
        start_low(median, std_dev) > start_high(median, std_dev) ==> r.threshold == 0
            && !r.converged && r.iterations == 0,
{
    let lo0: i128 = median as i128 - std_dev as i128;
    let hi0: i128 = median as i128 + std_dev as i128;
    let mut low: i128 = if lo0 > 0 {
        lo0
    } else {
        0
    };
    let mut high: i128 = if hi0 < SCORE_SCALE as i128 {
        hi0
    } else {
        SCORE_SCALE as i128
    };
    let mut last: i64 = 0;
    let mut iter: usize = 0;
    while iter < b.max_iterations && low <= high
        invariant
            counts@.len() == scores@.len() + 1,
            total(counts@) <= usize::MAX,
            iter <= b.max_iterations,
            0 <= low,
            high <= SCORE_SCALE,
            low <= SCORE_SCALE + u32::MAX + 1 || high < low,
            low <= 0x2_0000_0000_0000_0000,
            high >= -0x2_0000_0000_0000_0000,
            search_start(counts@, scores@, *b, median, std_dev) == search(
                counts@,
                scores@,
                *b,
                low as int,
                high as int,
                last as int,
                iter as nat,
            ),
            0 <= last <= SCORE_SCALE,
            start_low(median, std_dev) <= low,
            high <= start_high(median, std_dev),
            iter == 0 ==> low == start_low(median, std_dev) && high == start_high(median, std_dev)
                && last == 0,
            iter > 0 ==> start_low(median, std_dev) <= last <= start_high(median, std_dev),
            b.max_iterations >= 1,
        decreases b.max_iterations - iter,
    {
        let mid: i128 = (low + high) / 2;
        let t = mid as i64;
        let cut_at = find_split_indices(scores, t);
        proof {
            assert forall|k: int| 0 <= k < cut_at@.len() implies 1 <= #[trigger] cut_at@[k]
                < counts@.len() by {
                assert(cut_at@.contains(cut_at@[k]));
            }
        }
        let sizes = chunk_token_totals(counts, &cut_at);
        let m = median_count(&sizes);
        iter = iter + 1;
        last = t;
        if (m as u128) + (b.tolerance as u128) >= b.min_tokens as u128 && (m as u128) <= (
        b.max_tokens as u128) + (b.tolerance as u128) {
            return ThresholdChoice { threshold: t, converged: true, iterations: iter };
        } else if m < b.min_tokens {
            high = mid - b.adjustment as i128;
        } else {
            low = mid + b.adjustment as i128;
        }
    }
    ThresholdChoice { threshold: last, converged: false, iterations: iter }
}

} // verus!
