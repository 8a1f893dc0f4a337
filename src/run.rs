use vstd::prelude::*;
use crate::assemble::total;
use crate::assemble::lemma_assembly_tiles;
use crate::boundary::cuts;
use crate::chunker::{lemma_fixed_threshold_deterministic, ChunkError, StatisticalChunker};
use crate::span::{Span, tiles, lemma_tiles_append, lemma_tiles_bounds, lemma_tiles_pop};
use crate::text::{span_texts, span_text, within};
use crate::threshold::search_start;

verus! {

/// Where a run stands.
#[derive(Clone, Copy, Debug, PartialEq, Eq, Structural)]
pub enum RunPhase {
    /// No chunk is pending.
    Idle,
    /// The last chunk produced is held back, to be merged with what follows.
    AwaitingCarryMerge,
    /// All input is consumed and every chunk emitted.
    Flushed,
}

/// A chunking run over `splits` atomic splits, taken `batch_size` at a time.
/// Each batch is the pending chunk (if any) followed by the next splits; of
/// the chunks a batch yields, all but the last are final and the last is
/// held back for the next batch. Spans here count atomic splits.
pub struct ChunkRun {
    pub splits: usize,
    pub batch_size: usize,
    /// The first split not yet in any batch.
    pub next: usize,
    /// The chunk held back from the previous batch.
    pub carry: Option<Span>,
    /// The chunks emitted so far.
    pub done: Vec<Span>,
    pub flushed: bool,
}

/// A run's state as values: the splits, the batch size, the first split not
/// yet in a batch, the chunk held back, and the chunks emitted.
pub struct RunView {
    pub splits: usize,
    pub batch_size: usize,
    pub next: usize,
    pub carry: Option<Span>,
    pub done: Seq<Span>,
}

impl RunView {
    pub open spec fn carried(self) -> Seq<Span> {
        match self.carry {
            Some(s) => seq![s],
            None => Seq::empty(),
        }
    }

    /// The emitted chunks and the pending one cover the splits before
    /// `next`, in order, once each.
    pub open spec fn tiled(self) -> bool {
        &&& self.batch_size >= 1
        &&& self.next <= self.splits
        &&& tiles(self.done + self.carried(), 0, self.next as int)
    }

    /// 1 when the batch starts with the pending chunk, else 0.
    pub open spec fn offset(self) -> int {
        if self.carry is Some {
            1
        } else {
            0
        }
    }

    /// How many new splits the next batch takes.
    pub open spec fn fresh(self) -> int {
        if self.splits - self.next < self.batch_size {
            self.splits - self.next
        } else {
            self.batch_size as int
        }
    }

    /// The splits that the `i`-th element of the next batch stands for.
    pub open spec fn element(self, i: int) -> Span {
        if i < self.offset() {
            self.carry->0
        } else {
            Span { start: (self.next + i - self.offset()) as usize, end: (self.next + i - self.offset() + 1) as usize }
        }
    }

    pub open spec fn elements(self) -> Seq<Span> {
        Seq::new((self.offset() + self.fresh()) as nat, |i: int| self.element(i))
    }

    /// A chunk of the next batch, from element positions to split positions.
    pub open spec fn merged(self, g: Span) -> Span {
        Span { start: self.element(g.start as int).start, end: self.element(g.end - 1).end }
    }

    pub open spec fn merged_all(self, groups: Seq<Span>) -> Seq<Span> {
        Seq::new(groups.len(), |k: int| self.merged(groups[k]))
    }

    /// A run over `splits` splits before its first batch.
    pub open spec fn start(splits: usize, batch_size: usize) -> RunView {
        RunView { splits, batch_size, next: 0, carry: None, done: Seq::empty() }
    }

    /// The state after a batch whose chunks, as spans of element positions,
    /// are `groups`: all but the last are emitted, the last is held back.
    pub open spec fn after_batch(self, groups: Seq<Span>) -> RunView {
        RunView {
            splits: self.splits,
            batch_size: self.batch_size,
            next: (self.next + self.fresh()) as usize,
            carry: Some(self.merged_all(groups).last()),
            done: self.done + self.merged_all(groups).drop_last(),
        }
    }

    /// A batch has at most as many elements as there are splits.
    proof fn lemma_elements_fit(self)
        requires
            self.tiled(),
            self.next < self.splits,
        ensures
            self.elements().len() <= self.splits,
    {
        if self.carry is Some {
            let all = self.done + self.carried();
            assert(all.last() == self.carry->0);
            assert(all[all.len() - 1].start < all[all.len() - 1].end);
        }
    }

    /// Taking a batch keeps the chunks tiling the splits seen so far.
    proof fn lemma_after_batch_tiled(self, groups: Seq<Span>)
        requires
            self.tiled(),
            self.next < self.splits,
            tiles(groups, 0, self.elements().len() as int),
        ensures
            self.after_batch(groups).tiled(),
    {
        let base = match self.carry {
            Some(c) => c.start as int,
            None => self.next as int,
        };
        self.lemma_merged_tiles(groups);
        let all = self.done + self.carried();
        if self.carry is Some {
            lemma_tiles_pop(all, 0, self.next as int);
            assert(all.drop_last() == self.done);
            assert(all.last() == self.carry->0);
        } else {
            assert(all == self.done);
        }
        let m = self.merged_all(groups);
        lemma_tiles_append(self.done, m, 0, base, self.next + self.fresh());
        let w = self.after_batch(groups);
        assert(m.drop_last().push(m.last()) == m);
        assert(w.done + w.carried() == self.done + m);
    }

    /// The chunks mapped to splits tile what the batch stands for.
    proof fn lemma_merged_tiles(self, groups: Seq<Span>)
        requires
            self.tiled(),
            self.next < self.splits,
            tiles(groups, 0, self.elements().len() as int),
        ensures
            groups.len() >= 1,
            tiles(
                self.merged_all(groups),
                (match self.carry { Some(c) => c.start, None => self.next }) as int,
                self.next + self.fresh(),
            ),
            forall|q: int| 0 <= q < groups.len() ==> 0 <= #[trigger] groups[q].start < groups[q].end <= self.offset() + self.fresh(),
    {
        lemma_tiles_bounds(groups, 0, self.elements().len() as int);
        let m = self.merged_all(groups);
        if self.carry is Some {
            let all = self.done + self.carried();
            assert(all.last() == self.carry->0);
            assert(all[all.len() - 1].start < all[all.len() - 1].end);
        }
        assert(self.fresh() >= 1);
        assert forall|q: int| 0 <= q < groups.len() implies 0 <= #[trigger] groups[q].start < groups[q].end <= self.offset() + self.fresh() by {
            lemma_group_range(groups, 0, self.elements().len() as int, q);
        }
        assert forall|k: int| 0 <= k < m.len() implies #[trigger] m[k].start < m[k].end by {
            assert(groups[k].start < groups[k].end);
        }
        assert forall|k: int| 0 <= k < m.len() - 1 implies #[trigger] m[k].end == m[k + 1].start by {
            assert(groups[k].end == groups[k + 1].start);
        }
    }
}

impl ChunkRun {
    /// The run's state as values.
    pub open spec fn model(self) -> RunView {
        RunView {
            splits: self.splits,
            batch_size: self.batch_size,
            next: self.next,
            carry: self.carry,
            done: self.done@,
        }
    }

    pub open spec fn carried(self) -> Seq<Span> {
        self.model().carried()
    }

    pub open spec fn wf(self) -> bool {
        &&& self.model().tiled()
        &&& self.flushed ==> self.next == self.splits && self.carry is None
    }

    pub open spec fn offset(self) -> int {
        self.model().offset()
    }

    pub open spec fn fresh(self) -> int {
        self.model().fresh()
    }

    pub open spec fn element(self, i: int) -> Span {
        self.model().element(i)
    }

    pub open spec fn elements(self) -> Seq<Span> {
        self.model().elements()
    }

    pub open spec fn merged_all(self, groups: Seq<Span>) -> Seq<Span> {
        self.model().merged_all(groups)
    }

    pub open spec fn phase_spec(self) -> RunPhase {
        if self.flushed {
            RunPhase::Flushed
        } else if self.carry is Some {
            RunPhase::AwaitingCarryMerge
        } else {
            RunPhase::Idle
        }
    }

    /// Starts a run over `splits` atomic splits.
    pub fn new(splits: usize, batch_size: usize) -> (r: Self)
        requires
            batch_size >= 1,
        ensures
            r.wf(),
            r.splits == splits,
            r.batch_size == batch_size,
            r.next == 0,
            r.carry is None,
            r.done@.len() == 0,
            !r.flushed,
            r.model() == RunView::start(splits, batch_size),
    {
        ChunkRun { splits, batch_size, next: 0, carry: None, done: Vec::new(), flushed: false }
    }

    pub fn phase(&self) -> (r: RunPhase)
        ensures
            r == self.phase_spec(),
    {
        if self.flushed {
            RunPhase::Flushed
        } else if self.carry.is_some() {
            RunPhase::AwaitingCarryMerge
        } else {
            RunPhase::Idle
        }
    }

    /// True once every split has gone into a batch.
    pub fn input_consumed(&self) -> (r: bool)
        ensures
            r == (self.next == self.splits),
    {
        self.next == self.splits
    }

    /// What the elements of the next batch stand for: the pending chunk, if
    /// any, then one split each.
    pub fn batch_elements(&self) -> (r: Vec<Span>)
        requires
            self.wf(),
            self.next < self.splits,
        ensures
            r@ == self.elements(),
    {
        let mut r: Vec<Span> = Vec::new();
        let off: usize = match self.carry {
            Some(c) => {
                r.push(c);
                1
            },
            None => 0,
        };
        let fresh: usize = if self.splits - self.next < self.batch_size {
            self.splits - self.next
        } else {
            self.batch_size
        };
        let mut i: usize = 0;
        while i < fresh
            invariant
                self.wf(),
                off == self.offset(),
                fresh == self.fresh(),
                self.next + fresh <= self.splits,
                i <= fresh,
                r@.len() == off + i,
                forall|q: int| 0 <= q < off + i ==> #[trigger] r@[q] == self.element(q),
            decreases fresh - i,
        {
            r.push(Span { start: self.next + i, end: self.next + i + 1 });
            i = i + 1;
        }
        assert(r@ =~= self.elements());
        r
    }

    /// The texts of the next batch's elements.
    pub fn batch_texts(&self, parts: &Vec<String>) -> (r: Vec<String>)
        requires
            self.wf(),
            self.next < self.splits,
            parts@.len() == self.splits,
        ensures
            r@.len() == self.elements().len(),
            forall|k: int|
                0 <= k < r@.len() ==> #[trigger] r@[k]@ == span_text(parts@, self.elements()[k]),
    {
        let elements = self.batch_elements();
        proof {
            assert forall|k: int| 0 <= k < elements@.len() implies within(
                #[trigger] elements@[k],
                parts@.len() as int,
            ) by {
                self.lemma_element_within(k);
            }
        }
        span_texts(parts, &elements)
    }

    proof fn lemma_element_within(self, k: int)
        requires
            self.wf(),
            self.next < self.splits,
            0 <= k < self.elements().len(),
        ensures
            within(self.elements()[k], self.splits as int),
            self.element(k).start < self.element(k).end,
            self.element(k).end <= self.next + self.fresh(),
    {
        if self.carry is Some {
            let all = self.done@ + self.carried();
            assert(all.last() == self.carry->0);
            assert(all[all.len() - 1].start < all[all.len() - 1].end);
        }
    }

    /// Takes the chunks of the next batch, as spans of element positions:
    /// all but the last are emitted, and the last is held back.
    pub fn advance(&mut self, groups: &Vec<Span>)
        requires
            old(self).wf(),
            old(self).next < old(self).splits,
            tiles(groups@, 0, old(self).elements().len() as int),
        ensures
            final(self).wf(),
            final(self).splits == old(self).splits,
            final(self).batch_size == old(self).batch_size,
            final(self).next == old(self).next + old(self).fresh(),
            final(self).done@ == old(self).done@ + old(self).merged_all(groups@).drop_last(),
            final(self).carry == Some(old(self).merged_all(groups@).last()),
            !final(self).flushed,
    {
        let ghost pre = *self;
        let ghost m = pre.merged_all(groups@);
        let off: usize = if self.carry.is_some() {
            1
        } else {
            0
        };
        let fresh: usize = if self.splits - self.next < self.batch_size {
            self.splits - self.next
        } else {
            self.batch_size
        };
        let base: usize = match self.carry {
            Some(c) => c.start,
            None => self.next,
        };
        let next = self.next;
        proof {
            lemma_tiles_bounds(groups@, 0, pre.elements().len() as int);
            let all = pre.done@ + pre.carried();
            if pre.carry is Some {
                lemma_tiles_pop(all, 0, pre.next as int);
                assert(all.drop_last() == pre.done@);
                assert(all.last() == pre.carry->0);
                assert(all[all.len() - 1].start < all[all.len() - 1].end);
            } else {
                assert(all == pre.done@);
            }
            assert(tiles(pre.done@, 0, base as int));
            pre.model().lemma_merged_tiles(groups@);
        }
        let mut k: usize = 0;
        let mut last = Span { start: base, end: base };
        while k < groups.len()
            invariant
                *self == pre,
                pre.wf(),
                off == pre.offset(),
                fresh == pre.fresh(),
                next == pre.next,
                tiles(groups@, 0, pre.elements().len() as int),
                m == pre.merged_all(groups@),
                groups@.len() >= 1,
                k <= groups@.len(),
                self.done@ == pre.done@,
                k > 0 ==> last == m[k - 1],
                base == (match pre.carry { Some(c) => c.start, None => pre.next }),
                pre.next + fresh <= pre.splits,
                forall|q: int| 0 <= q < groups@.len() ==> 0 <= #[trigger] groups@[q].start < groups@[q].end <= off + fresh,
            decreases groups@.len() - k,
        {
            let g = groups[k];
            let start = if g.start < off {
                base
            } else {
                next + (g.start - off)
            };
            let end = next + (g.end - off);
            last = Span { start, end };
            k = k + 1;
        }
        let mut done_now: Vec<Span> = Vec::new();
        std::mem::swap(&mut done_now, &mut self.done);
        let mut j: usize = 0;
        while j < groups.len() - 1
            invariant
                self.done@.len() == 0,
                pre.wf(),
                off == pre.offset(),
                next == pre.next,
                m == pre.merged_all(groups@),
                groups@.len() >= 1,
                j < groups@.len(),
                done_now@ == pre.done@ + m.subrange(0, j as int),
                base == (match pre.carry { Some(c) => c.start, None => pre.next }),
                pre.next + pre.fresh() <= pre.splits,
                forall|q: int| 0 <= q < groups@.len() ==> 0 <= #[trigger] groups@[q].start < groups@[q].end <= off + pre.fresh(),
            decreases groups@.len() - j,
        {
            let g = groups[j];
            let start = if g.start < off {
                base
            } else {
                next + (g.start - off)
            };
            let end = next + (g.end - off);
            assert(m.subrange(0, j + 1) == m.subrange(0, j as int).push(m[j as int]));
            done_now.push(Span { start, end });
            j = j + 1;
        }
        std::mem::swap(&mut done_now, &mut self.done);
        self.carry = Some(last);
        self.next = next + fresh;
        proof {
            assert(m.subrange(0, j as int) == m.drop_last());
            assert(m.drop_last().push(m.last()) == m);
            assert(self.done@ + self.carried() == pre.done@ + m);
            lemma_tiles_append(pre.done@, m, 0, base as int, self.next as int);
        }
    }

    /// Chunks the next batch, given each element's token count, the scores
    /// of the elements after the first, and the median and standard
    /// deviation of those scores. A batch whose counts or scores do not
    /// match its elements in number is refused with `Encoding`, the run
    /// unchanged. Yields the threshold used and whether it was accepted.
    pub fn step(
        &mut self,
        chunker: &StatisticalChunker,
        counts: &Vec<usize>,
        scores: &Vec<Option<i64>>,
        median: i64,
        std_dev: i64,
    ) -> (r: Result<(i64, bool), ChunkError>)
        requires
            chunker.wf(),
            old(self).wf(),
            old(self).next < old(self).splits,
            total(counts@) <= usize::MAX,
        ensures
            final(self).wf(),
            final(self).splits == old(self).splits,
            final(self).batch_size == old(self).batch_size,
            r is Err <==> (counts@.len() != old(self).elements().len() || scores@.len() + 1
                != counts@.len()),
            r is Err ==> r == Err::<(i64, bool), ChunkError>(ChunkError::Encoding),
            r is Err ==> final(self).next == old(self).next,
            r is Err ==> final(self).carry == old(self).carry,
            r is Err ==> final(self).done@ == old(self).done@,
            r is Err ==> final(self).flushed == old(self).flushed,
            r matches Ok(t) ==> {
                let groups = chunker.batch_chunks(counts@, scores@, median, std_dev);
                &&& t.0 == chunker.threshold_for(counts@, scores@, median, std_dev)
                &&& t.1 == (!chunker.dynamic_threshold || search_start(
                    counts@,
                    scores@,
                    chunker.bounds(),
                    median,
                    std_dev,
                ).1)
                &&& final(self).next == old(self).next + old(self).fresh()
                &&& final(self).done@ == old(self).done@ + old(self).merged_all(
                    groups,
                ).drop_last()
                &&& final(self).carry == Some(old(self).merged_all(groups).last())
                &&& !final(self).flushed
                &&& final(self).model() == old(self).model().after_batch(groups)
            },
    {
        let off: usize = if self.carry.is_some() {
            1
        } else {
            0
        };
        let fresh: usize = if self.splits - self.next < self.batch_size {
            self.splits - self.next
        } else {
            self.batch_size
        };
        if counts.len() < off || counts.len() - off != fresh || scores.len() >= counts.len()
            || scores.len() + 1 != counts.len() {
            return Err(ChunkError::Encoding);
        }
        let b = chunker.chunk_batch(counts, scores, median, std_dev);
        self.advance(&b.spans);
        Ok((b.threshold, b.converged))
    }

    /// Ends the run: the held-back chunk is emitted as the last one, whatever
    /// its size.
    pub fn finish(&mut self)
        requires
            old(self).wf(),
            old(self).next == old(self).splits,
        ensures
            final(self).wf(),
            final(self).flushed,
            final(self).splits == old(self).splits,
            final(self).done@ == old(self).done@ + old(self).carried(),
            tiles(final(self).done@, 0, final(self).splits as int),
    {
        let ghost pre = self.done@;
        match self.carry {
            Some(c) => {
                self.done.push(c);
                assert(self.done@ == pre + seq![c]);
            },
            None => {},
        }
        self.carry = None;
        self.flushed = true;
        assert(self.done@ + self.carried() == self.done@);
    }

    /// The texts of the emitted chunks, each its splits joined by spaces.
    pub fn chunk_texts(&self, parts: &Vec<String>) -> (r: Vec<String>)
        requires
            self.wf(),
            parts@.len() == self.splits,
        ensures
            r@.len() == self.done@.len(),
            forall|k: int|
                0 <= k < r@.len() ==> #[trigger] r@[k]@ == span_text(parts@, self.done@[k]),
    {
        proof {
            let all = self.done@ + self.carried();
            assert forall|k: int| 0 <= k < self.done@.len() implies within(
                #[trigger] self.done@[k],
                parts@.len() as int,
            ) by {
                lemma_group_range(all, 0, self.next as int, k);
                assert(all[k] == self.done@[k]);
            }
        }
        span_texts(parts, &self.done)
    }

}

/// Once a run is flushed, its chunks cover every split exactly once, in
/// order; no input yields no chunk, and a single split yields one chunk that
/// is exactly that split.
pub proof fn lemma_flushed_run_covers(run: ChunkRun)
    requires
        run.wf(),
        run.flushed,
    ensures
        tiles(run.done@, 0, run.splits as int),
        run.splits == 0 ==> run.done@.len() == 0,
        run.splits == 1 ==> run.done@ == seq![Span { start: 0, end: 1 }],
{
    assert(run.done@ + run.carried() == run.done@);
    lemma_tiles_bounds(run.done@, 0, run.splits as int);
    if run.splits == 1 {
        assert(run.done@.len() == 1);
        assert(run.done@[0] == Span { start: 0, end: 1 });
        assert(run.done@ =~= seq![Span { start: 0, end: 1 }]);
    }
}

/// The text of a chunk of one split is that split's text.
pub proof fn lemma_single_split_text(parts: Seq<String>, i: int)
    requires
        0 <= i < parts.len(),
        i < usize::MAX,
    ensures
        span_text(parts, Span { start: i as usize, end: (i + 1) as usize }) == parts[i]@,
{
    let v = crate::text::views(parts.subrange(i, i + 1));
    assert(v.len() == 1);
    assert(v[0] == parts[i]@);
}

/// A tile lies inside what the tiling covers.
proof fn lemma_group_range(groups: Seq<Span>, lo: int, hi: int, q: int)
    requires
        tiles(groups, lo, hi),
        0 <= q < groups.len(),
    ensures
        lo <= groups[q].start < groups[q].end <= hi,
    decreases groups.len(),
{
    lemma_tiles_pop(groups, lo, hi);
    let init = groups.drop_last();
    if q < init.len() {
        lemma_group_range(init, lo, groups.last().start as int, q);
        assert(init[q] == groups[q]);
        assert(groups[groups.len() - 1].start < groups[groups.len() - 1].end);
    } else if init.len() > 0 {
        lemma_tiles_bounds(init, lo, groups.last().start as int);
    }
}

/// The chunks of a whole run, from `v` on, where `feed` stands for the
/// collaborators: given what the elements of a batch stand for, it yields
/// their token counts, their scores, and the scores' median and standard
/// deviation. A batch whose counts or scores do not match its elements in
/// number aborts the run (`None`); once every split has been taken, the held
/// back chunk is emitted last.
pub open spec fn run_chunks(
    c: StatisticalChunker,
    v: RunView,
    feed: spec_fn(Seq<Span>) -> (Seq<usize>, Seq<Option<i64>>, i64, i64),
) -> Option<Seq<Span>>
    decreases v.splits - v.next,
{
    if v.batch_size == 0 || v.next >= v.splits {
        Some(v.done + v.carried())
    } else {
        let (counts, scores, median, std_dev) = feed(v.elements());
        if counts.len() != v.elements().len() || scores.len() + 1 != counts.len() {
            None
        } else {
            run_chunks(c, v.after_batch(c.batch_chunks(counts, scores, median, std_dev)), feed)
        }
    }
}

/// Whatever the collaborators hand back, a run that completes emits chunks
/// that cover every split exactly once, in order: no split is lost,
/// repeated or moved.
pub proof fn lemma_run_covers(
    c: StatisticalChunker,
    splits: usize,
    batch_size: usize,
    feed: spec_fn(Seq<Span>) -> (Seq<usize>, Seq<Option<i64>>, i64, i64),
)
    requires
        batch_size >= 1,
    ensures
        run_chunks(c, RunView::start(splits, batch_size), feed) matches Some(s) ==> tiles(
            s,
            0,
            splits as int,
        ),
{
    let v = RunView::start(splits, batch_size);
    assert(v.done + v.carried() =~= Seq::<Span>::empty());
    lemma_run_covers_from(c, v, feed);
}

proof fn lemma_run_covers_from(
    c: StatisticalChunker,
    v: RunView,
    feed: spec_fn(Seq<Span>) -> (Seq<usize>, Seq<Option<i64>>, i64, i64),
)
    requires
        v.tiled(),
    ensures
        run_chunks(c, v, feed) matches Some(s) ==> tiles(s, 0, v.splits as int),
    decreases v.splits - v.next,
{
    if v.next < v.splits {
        let (counts, scores, median, std_dev) = feed(v.elements());
        if counts.len() == v.elements().len() && scores.len() + 1 == counts.len() {
            v.lemma_elements_fit();
            let groups = c.batch_chunks(counts, scores, median, std_dev);
            lemma_assembly_tiles(
                counts,
                cuts(scores, c.threshold_for(counts, scores, median, std_dev) as i64),
                c.min_split_tokens,
                c.max_split_tokens,
            );
            v.lemma_after_batch_tiled(groups);
            lemma_run_covers_from(c, v.after_batch(groups), feed);
        }
    }
}

/// A run over no split emits no chunk; a completed run over one split emits
/// that split as its only chunk.
pub proof fn lemma_run_degenerate(
    c: StatisticalChunker,
    splits: usize,
    batch_size: usize,
    feed: spec_fn(Seq<Span>) -> (Seq<usize>, Seq<Option<i64>>, i64, i64),
)
    requires
        batch_size >= 1,
    ensures
        splits == 0 ==> run_chunks(c, RunView::start(splits, batch_size), feed) == Some(
            Seq::<Span>::empty(),
        ),
        splits == 1 ==> (run_chunks(c, RunView::start(splits, batch_size), feed) matches Some(s)
            ==> s == seq![Span { start: 0, end: 1 }]),
{
    let v = RunView::start(splits, batch_size);
    assert(v.done + v.carried() =~= Seq::<Span>::empty());
    lemma_run_covers(c, splits, batch_size, feed);
    if let Some(s) = run_chunks(c, v, feed) {
        lemma_tiles_bounds(s, 0, splits as int);
        if splits == 1 {
            assert(s.len() == 1);
            assert(s =~= seq![Span { start: 0, end: 1 }]);
        }
    }
}

/// With a fixed threshold, a run's chunks are fixed by the settings, the
/// number of splits, the batch size, and the token counts and scores that
/// the collaborators return: two runs whose collaborators agree on those give
/// the same chunks, whatever score statistics come with them.
pub proof fn lemma_fixed_run_deterministic(
    c: StatisticalChunker,
    splits: usize,
    batch_size: usize,
    feed_a: spec_fn(Seq<Span>) -> (Seq<usize>, Seq<Option<i64>>, i64, i64),
    feed_b: spec_fn(Seq<Span>) -> (Seq<usize>, Seq<Option<i64>>, i64, i64),
)
    requires
        !c.dynamic_threshold,
        forall|e: Seq<Span>| #[trigger] feed_a(e).0 == feed_b(e).0 && feed_a(e).1 == feed_b(e).1,
    ensures
        run_chunks(c, RunView::start(splits, batch_size), feed_a) == run_chunks(
            c,
            RunView::start(splits, batch_size),
            feed_b,
        ),
{
    lemma_fixed_run_from(c, RunView::start(splits, batch_size), feed_a, feed_b);
}

proof fn lemma_fixed_run_from(
    c: StatisticalChunker,
    v: RunView,
    feed_a: spec_fn(Seq<Span>) -> (Seq<usize>, Seq<Option<i64>>, i64, i64),
    feed_b: spec_fn(Seq<Span>) -> (Seq<usize>, Seq<Option<i64>>, i64, i64),
)
    requires
        !c.dynamic_threshold,
        forall|e: Seq<Span>| #[trigger] feed_a(e).0 == feed_b(e).0 && feed_a(e).1 == feed_b(e).1,
    ensures
        run_chunks(c, v, feed_a) == run_chunks(c, v, feed_b),
    decreases v.splits - v.next,
{
    if v.batch_size > 0 && v.next < v.splits {
        let e = v.elements();
        let (counts, scores, median_a, std_dev_a) = feed_a(e);
        let (counts_b, scores_b, median_b, std_dev_b) = feed_b(e);
        assert(counts == counts_b && scores == scores_b);
        lemma_fixed_threshold_deterministic(c, counts, scores, median_a, std_dev_a, median_b, std_dev_b);
        lemma_fixed_run_from(
            c,
            v.after_batch(c.batch_chunks(counts, scores, median_a, std_dev_a)),
            feed_a,
            feed_b,
        );
    }
}

} // verus!
