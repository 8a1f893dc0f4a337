use vstd::prelude::*;

verus! {

/// A similarity score of exactly 1.0, in fixed point: scores and thresholds
/// are integers counting millionths.
pub const SCORE_SCALE: i64 = 1_000_000;

/// A score falls below a threshold when it is smaller, or when it could not be
/// computed (a zero-norm vector): an undefined score always forces a cut.
pub open spec fn below(score: Option<i64>, threshold: i64) -> bool {
    match score {
        None => true,
        Some(v) => v < threshold,
    }
}

/// Cut positions for a run of elements whose `k`-th score compares element
/// `k + 1` with the context before it: position `k + 1` starts a new candidate
/// chunk whenever that score is below the threshold. Ascending.
pub open spec fn cuts(scores: Seq<Option<i64>>, threshold: i64) -> Seq<usize>
    decreases scores.len(),
{
    if scores.len() == 0 {
        Seq::empty()
    } else {
        let rest = cuts(scores.drop_last(), threshold);
        if below(scores.last(), threshold) {
            rest.push(scores.len() as usize)
        } else {
            rest
        }
    }
}

pub open spec fn strictly_ascending(s: Seq<usize>) -> bool {
    forall|i: int, j: int| 0 <= i < j < s.len() ==> s[i] < s[j]
}

/// Every member of `cuts` is a position in `1..=len` whose score is below.
pub proof fn lemma_cuts_shape(scores: Seq<Option<i64>>, threshold: i64)
    requires
        scores.len() <= usize::MAX,
    ensures
        strictly_ascending(cuts(scores, threshold)),
        cuts(scores, threshold).len() <= scores.len(),
        forall|b: usize|
            cuts(scores, threshold).contains(b) <==> (1 <= b <= scores.len() && below(
                scores[b - 1],
                threshold,
            )),
    decreases scores.len(),
{
    if scores.len() > 0 {
        let init = scores.drop_last();
        lemma_cuts_shape(init, threshold);
        let rest = cuts(init, threshold);
        assert forall|b: usize|
            cuts(scores, threshold).contains(b) <==> (1 <= b <= scores.len() && below(
                scores[b - 1],
                threshold,
            )) by {
            if b < scores.len() && 1 <= b {
                assert(init[b - 1] == scores[b - 1]);
            }
            if rest.contains(b) {
                let k = choose|k: int| 0 <= k < rest.len() && rest[k] == b;
                assert(cuts(scores, threshold)[k] == b);
            }
            if cuts(scores, threshold).contains(b) && below(scores.last(), threshold) {
                let k = choose|k: int|
                    0 <= k < cuts(scores, threshold).len() && cuts(scores, threshold)[k] == b;
                if k < rest.len() {
                    assert(rest[k] == b);
                }
            }
            if b == scores.len() && below(scores.last(), threshold) {
                assert(cuts(scores, threshold)[rest.len() as int] == b);
            }
        }
        if below(scores.last(), threshold) {
            assert forall|k: int| 0 <= k < rest.len() implies rest[k] < scores.len() by {
                assert(rest.contains(rest[k]));
            }
        }
    }
}

/// The context that the score of element `i` compares it with: the up to
/// `window_size` elements just before it.
pub fn context_window(i: usize, window_size: usize) -> (r: (usize, usize))
    ensures
        r.1 == i,
        r.0 == (if i > window_size { i - window_size } else { 0 }),
{
    if i > window_size {
        (i - window_size, i)
    } else {
        (0, i)
    }
}

/// The candidate cut positions of a batch: ascending, without repeats, each
/// the index of an element whose score is below `threshold`.
pub fn find_split_indices(scores: &Vec<Option<i64>>, threshold: i64) -> (r: Vec<usize>)
    ensures
        r@ == cuts(scores@, threshold),
        r@.len() <= scores@.len(),
        strictly_ascending(r@),
        forall|b: usize| r@.contains(b) <==> (1 <= b <= scores@.len() && below(
            scores@[b - 1],
            threshold,
        )),
{
    let mut r: Vec<usize> = Vec::new();
    let mut i: usize = 0;
    while i < scores.len()
        invariant
            i <= scores@.len(),
            r@ == cuts(scores@.subrange(0, i as int), threshold),
        decreases scores@.len() - i,
    {
        let low = match scores[i] {
            None => true,
            Some(v) => v < threshold,
        };
        assert(scores@.subrange(0, i + 1).drop_last() == scores@.subrange(0, i as int));
        if low {
            r.push(i + 1);
        }
        i = i + 1;
    }
    assert(scores@.subrange(0, scores@.len() as int) == scores@);
    proof {
        lemma_cuts_shape(scores@, threshold);
    }
    r
}

} // verus!
