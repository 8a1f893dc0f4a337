use vstd::prelude::*;

verus! {

/// A half-open range `start..end` of positions in an ordered sequence.
#[derive(Clone, Copy, Debug, PartialEq, Eq, Structural)]
pub struct Span {
    pub start: usize,
    pub end: usize,
}

/// `spans` are non-empty, in order, and together cover `lo..hi` exactly once.
pub open spec fn tiles(spans: Seq<Span>, lo: int, hi: int) -> bool {
    if spans.len() == 0 {
        lo == hi
    } else {
        &&& spans[0].start == lo
        &&& spans.last().end == hi
        &&& forall|k: int| 0 <= k < spans.len() ==> #[trigger] spans[k].start < spans[k].end
        &&& forall|k: int|
            0 <= k < spans.len() - 1 ==> #[trigger] spans[k].end == spans[k + 1].start
    }
}

pub proof fn lemma_tiles_push(spans: Seq<Span>, lo: int, mid: int, s: Span)
    requires
        tiles(spans, lo, mid),
        s.start == mid,
        s.start < s.end,
    ensures
        tiles(spans.push(s), lo, s.end as int),
{
    let t = spans.push(s);
    assert forall|k: int| 0 <= k < t.len() - 1 implies #[trigger] t[k].end == t[k + 1].start by {
        if k == spans.len() - 1 {
            assert(t[k] == spans.last());
        } else {
            assert(t[k] == spans[k] && t[k + 1] == spans[k + 1]);
        }
    }
    assert forall|k: int| 0 <= k < t.len() implies #[trigger] t[k].start < t[k].end by {
        if k < spans.len() {
            assert(t[k] == spans[k]);
        }
    }
}

pub proof fn lemma_tiles_append(a: Seq<Span>, b: Seq<Span>, lo: int, mid: int, hi: int)
    requires
        tiles(a, lo, mid),
        tiles(b, mid, hi),
    ensures
        tiles(a + b, lo, hi),
    decreases b.len(),
{
    if b.len() > 0 {
        let init = b.drop_last();
        let last = b.last();
        let m2 = if init.len() == 0 { mid } else { init.last().end as int };
        assert forall|k: int| 0 <= k < init.len() implies #[trigger] init[k].start < init[k].end by {
            assert(init[k] == b[k]);
        }
        assert forall|k: int| 0 <= k < init.len() - 1 implies #[trigger] init[k].end == init[k
            + 1].start by {
            assert(init[k] == b[k] && init[k + 1] == b[k + 1]);
        }
        if init.len() > 0 {
            assert(init[0] == b[0]);
            assert(b[init.len() - 1].end == b[init.len() as int].start);
        }
        assert(tiles(init, mid, m2));
        lemma_tiles_append(a, init, lo, mid, m2);
        lemma_tiles_push(a + init, lo, m2, last);
        assert(a + b == (a + init).push(last));
    }
}

pub proof fn lemma_tiles_pop(spans: Seq<Span>, lo: int, hi: int)
    requires
        tiles(spans, lo, hi),
        spans.len() > 0,
    ensures
        tiles(spans.drop_last(), lo, spans.last().start as int),
{
    let init = spans.drop_last();
    assert forall|k: int| 0 <= k < init.len() implies #[trigger] init[k].start < init[k].end by {
        assert(init[k] == spans[k]);
    }
    assert forall|k: int| 0 <= k < init.len() - 1 implies #[trigger] init[k].end == init[k
        + 1].start by {
        assert(init[k] == spans[k] && init[k + 1] == spans[k + 1]);
    }
    if init.len() > 0 {
        assert(init[0] == spans[0]);
        assert(spans[init.len() - 1].end == spans[init.len() as int].start);
    }
}

/// Tiling spans are at most as many as the positions they cover, and cover
/// at least one position when there is any.
pub proof fn lemma_tiles_bounds(spans: Seq<Span>, lo: int, hi: int)
    requires
        tiles(spans, lo, hi),
    ensures
        spans.len() <= hi - lo,
        spans.len() > 0 ==> lo < hi,
    decreases spans.len(),
{
    if spans.len() > 0 {
        lemma_tiles_pop(spans, lo, hi);
        lemma_tiles_bounds(spans.drop_last(), lo, spans.last().start as int);
        assert(spans[spans.len() - 1].start < spans[spans.len() - 1].end);
    }
}

} // verus!
