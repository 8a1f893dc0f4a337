use vstd::prelude::*;
use crate::span::{Span, tiles, lemma_tiles_push};

verus! {

/// The sum of a sequence of token counts.
pub open spec fn total(s: Seq<usize>) -> int
    decreases s.len(),
{
    if s.len() == 0 {
        0
    } else {
        total(s.drop_last()) + s.last()
    }
}

pub proof fn lemma_total_split(s: Seq<usize>, a: int, b: int)
    requires
        0 <= a <= b <= s.len(),
    ensures
        total(s.subrange(0, a)) + total(s.subrange(a, b)) == total(s.subrange(0, b)),
        0 <= total(s.subrange(a, b)),
    decreases b - a,
{
    if a < b {
        lemma_total_split(s, a, b - 1);
        assert(s.subrange(a, b).drop_last() == s.subrange(a, b - 1));
        assert(s.subrange(0, b).drop_last() == s.subrange(0, b - 1));
    } else {
        assert(s.subrange(a, b).len() == 0);
    }
}

/// The total of a stretch is at most the total of the whole.
pub proof fn lemma_total_part(s: Seq<usize>, a: int, b: int)
    requires
        0 <= a <= b <= s.len(),
    ensures
        0 <= total(s.subrange(a, b)) <= total(s),
{
    lemma_total_split(s, 0, a);
    lemma_total_split(s, a, b);
    lemma_total_split(s, 0, b);
    lemma_total_split(s, b, s.len() as int);
    lemma_total_split(s, 0, s.len() as int);
    assert(s.subrange(0, s.len() as int) == s);
    assert(s.subrange(0, 0).len() == 0);
}

/// Assembly after the first `i` elements: the spans emitted so far, where the
/// open accumulator starts, and how many tokens it holds.
///
/// Element `k` with `k + 1` in `cut_at` ends a candidate chunk: it joins the
/// accumulator if the total then lies in `min..=max`, and the accumulator is
/// emitted; otherwise the accumulator is emitted without it and it opens the
/// next one. Elsewhere an element that would push the accumulator past `max`
/// opens a new one, but only once the accumulator holds at least `min`.
pub open spec fn assembly_after(
    counts: Seq<usize>,
    cut_at: Seq<usize>,
    min: usize,
    max: usize,
    i: nat,
) -> (Seq<Span>, int, int)
    decreases i,
{
    if i == 0 {
        (Seq::empty(), 0, 0)
    } else {
        let (done, start, acc) = assembly_after(counts, cut_at, min, max, (i - 1) as nat);
        let k = i - 1;
        let c = counts[k] as int;
        if cut_at.contains(i as usize) {
            if min <= acc + c && acc + c <= max {
                (done.push(Span { start: start as usize, end: i as usize }), i as int, 0)
            } else if start < k {
                (done.push(Span { start: start as usize, end: k as usize }), k, c)
            } else {
                (done, start, acc + c)
            }
        } else if acc + c > max && acc >= min && start < k {
            (done.push(Span { start: start as usize, end: k as usize }), k, c)
        } else {
            (done, start, acc + c)
        }
    }
}

/// The chunks of a batch, as spans of element positions: the spans emitted
/// during the walk, then whatever the accumulator holds at the end.
pub open spec fn assembly(counts: Seq<usize>, cut_at: Seq<usize>, min: usize, max: usize) -> Seq<
    Span,
> {
    let (done, start, _acc) = assembly_after(counts, cut_at, min, max, counts.len());
    if start < counts.len() {
        done.push(Span { start: start as usize, end: counts.len() as usize })
    } else {
        done
    }
}

proof fn lemma_assembly_after_tiles(
    counts: Seq<usize>,
    cut_at: Seq<usize>,
    min: usize,
    max: usize,
    i: nat,
)
    requires
        i <= counts.len() <= usize::MAX,
    ensures
        tiles(assembly_after(counts, cut_at, min, max, i).0, 0, assembly_after(counts, cut_at, min, max, i).1),
        0 <= assembly_after(counts, cut_at, min, max, i).1 <= i,
    decreases i,
{
    if i > 0 {
        lemma_assembly_after_tiles(counts, cut_at, min, max, (i - 1) as nat);
        let (done, start, acc) = assembly_after(counts, cut_at, min, max, (i - 1) as nat);
        let k = i - 1;
        lemma_tiles_push(done, 0, start, Span { start: start as usize, end: i as usize });
        if start < k {
            lemma_tiles_push(done, 0, start, Span { start: start as usize, end: k as usize });
        }
    }
}

/// The chunks of a batch cover its elements exactly once, in order.
pub proof fn lemma_assembly_tiles(counts: Seq<usize>, cut_at: Seq<usize>, min: usize, max: usize)
    requires
        counts.len() <= usize::MAX,
    ensures
        tiles(assembly(counts, cut_at, min, max), 0, counts.len() as int),
{
    let n = counts.len();
    lemma_assembly_after_tiles(counts, cut_at, min, max, n);
    let (done, start, _acc) = assembly_after(counts, cut_at, min, max, n);
    if start < n {
        lemma_tiles_push(done, 0, start, Span { start: start as usize, end: n as usize });
    }
}

fn contains_position(v: &Vec<usize>, x: usize) -> (r: bool)
    ensures
        r == v@.contains(x),
{
    let mut i: usize = 0;
    while i < v.len()
        invariant
            i <= v@.len(),
            forall|k: int| 0 <= k < i ==> v@[k] != x,
        decreases v@.len() - i,
    {
        if v[i] == x {
            assert(v@[i as int] == x);
            return true;
        }
        i = i + 1;
    }
    false
}

/// Groups the elements of a batch into chunks, honouring the token bounds
/// `min_tokens..=max_tokens` and the candidate cuts `cut_at`. The spans
/// returned cover every element exactly once, in order.
pub fn split_documents(
    counts: &Vec<usize>,
    cut_at: &Vec<usize>,
    min_tokens: usize,
    max_tokens: usize,
) -> (r: Vec<Span>)
    requires
        total(counts@) <= usize::MAX,
    ensures
        r@ == assembly(counts@, cut_at@, min_tokens, max_tokens),
        tiles(r@, 0, counts@.len() as int),
{
    let n = counts.len();
    let mut out: Vec<Span> = Vec::new();
    let mut start: usize = 0;
    let mut acc: usize = 0;
    let mut i: usize = 0;
    while i < n
        invariant
            n == counts@.len(),
            i <= n,
            total(counts@) <= usize::MAX,
            assembly_after(counts@, cut_at@, min_tokens, max_tokens, i as nat) == (
                out@,
                start as int,
                acc as int,
            ),
            tiles(out@, 0, start as int),
            start <= i,
            acc == total(counts@.subrange(start as int, i as int)),
        decreases n - i,
    {
        let c = counts[i];
        proof {
            lemma_total_part(counts@, start as int, i + 1);
            assert(counts@.subrange(start as int, i + 1).drop_last() == counts@.subrange(
                start as int,
                i as int,
            ));
            assert(counts@.subrange(start as int, i + 1).last() == counts@[i as int]);
            assert(counts@.subrange(i as int, i + 1).last() == counts@[i as int]);
            assert(counts@.subrange(i as int, i + 1).drop_last().len() == 0);
            assert(total(counts@.subrange(i as int, i + 1).drop_last()) == 0);
            assert(total(counts@.subrange(i as int, i + 1)) == counts@[i as int]);
        }
        let cut = contains_position(cut_at, i + 1);
        if cut {
            if min_tokens <= acc + c && acc + c <= max_tokens {
                let s = Span { start, end: i + 1 };
                proof {
                    lemma_tiles_push(out@, 0, start as int, s);
                }
                out.push(s);
                start = i + 1;
                acc = 0;
                assert(counts@.subrange(start as int, start as int).len() == 0);
            } else if start < i {
                let s = Span { start, end: i };
                proof {
                    lemma_tiles_push(out@, 0, start as int, s);
                }
                out.push(s);
                start = i;
                acc = c;
            } else {
                acc = acc + c;
            }
        } else if acc + c > max_tokens && acc >= min_tokens && start < i {
            let s = Span { start, end: i };
            proof {
                lemma_tiles_push(out@, 0, start as int, s);
            }
            out.push(s);
            start = i;
            acc = c;
        } else {
            acc = acc + c;
        }
        i = i + 1;
    }
    if start < n {
        let s = Span { start, end: n };
        proof {
            lemma_tiles_push(out@, 0, start as int, s);
        }
        out.push(s);
    }
    out
}

} // verus!
