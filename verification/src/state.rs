//! The state of a sorting run: the live array, the live highlight map, and
//! the frames scheduled so far, one for every swap and every comparison made
//! through it.

use vstd::prelude::*;
use std::cmp::Ordering;
use std::collections::{HashMap, VecDeque};
use std::sync::Arc;
use crate::highlight::{fracs, intensity, intensity_of, lemma_fracs_insert, lemma_fracs_remove};
use crate::queue::{QueueView, RenderQueue};
use crate::ratio::{Frac, Ratio};
use crate::render::Sort;

verus! {

/// Number of frames that may be rendered and written at the same time.
pub const WRITE_PERMITS: usize = 8;

/// The intensity that marks the two indices of a swap or a comparison: 0.2.
pub open spec fn mark() -> Frac {
    Frac { num: 1, den: 5 }
}

/// The highlight map `highlights` with the indices `x` and `y` marked.
pub open spec fn marked(highlights: Map<usize, Frac>, x: usize, y: usize) -> Map<usize, Frac> {
    highlights.insert(x, mark()).insert(y, mark())
}

/// A highlight map for `n` bars is valid: every index in it is one of the
/// bars, and every intensity is above 0 and at most 1.
pub open spec fn highlights_wf(highlights: Map<usize, Frac>, n: nat) -> bool {
    forall|k: usize|
        (#[trigger] highlights.contains_key(k)) ==> k < n && highlights[k].is_intensity()
}

/// The sequence `list` with the values at `x` and `y` exchanged.
pub open spec fn exchange(list: Seq<u32>, x: int, y: int) -> Seq<u32> {
    list.update(x, list[y]).update(y, list[x])
}

/// How `a` stands to `b`.
pub open spec fn ordering(a: u32, b: u32) -> Ordering {
    if a < b {
        Ordering::Less
    } else if a == b {
        Ordering::Equal
    } else {
        Ordering::Greater
    }
}

/// The mathematical content of a [`FrameSnapshot`].
pub struct FrameView {
    pub list: Seq<u32>,
    pub highlights: Map<usize, Frac>,
    pub number: nat,
}

impl FrameView {
    /// The frame is the one numbered `i` of a run over `n` values.
    pub open spec fn wf_at(self, i: int, n: nat) -> bool {
        &&& self.number == i
        &&& self.list.len() == n
        &&& highlights_wf(self.highlights, n)
    }
}

/// One frame to render: a copy of the array and of the highlight map as they
/// were when the frame was scheduled, and the number of the frame.
#[derive(Clone, Debug)]
pub struct FrameSnapshot {
    pub list: Vec<u32>,
    pub highlights: HashMap<usize, Ratio>,
    pub number: usize,
}

impl View for FrameSnapshot {
    type V = FrameView;

    open spec fn view(&self) -> FrameView {
        FrameView {
            list: self.list@,
            highlights: fracs(self.highlights@),
            number: self.number as nat,
        }
    }
}

/// The views of a sequence of frames.
pub open spec fn frame_views(frames: Seq<FrameSnapshot>) -> Seq<FrameView> {
    frames.map_values(|f: FrameSnapshot| f@)
}

/// The mathematical content of a [`SortData`].
pub struct StateView {
    /// The live array.
    pub list: Seq<u32>,
    /// The live highlight map.
    pub highlights: Map<usize, Frac>,
    /// The frames scheduled so far, in the order of their numbers.
    pub frames: Seq<FrameView>,
}

/// One operation on the state of a run.
pub enum Op {
    Swap(usize, usize),
    Compare(usize, usize),
    SetHighlight(usize, Frac),
}

impl Op {
    /// The operation schedules a frame.
    pub open spec fn emits(self) -> bool {
        !(self is SetHighlight)
    }

    /// The operation may be made on `s`: its indices are within the array,
    /// and its intensity is within 0..=1.
    pub open spec fn allowed(self, s: StateView) -> bool {
        match self {
            Op::Swap(x, y) => x < s.list.len() && y < s.list.len(),
            Op::Compare(x, y) => x < s.list.len() && y < s.list.len(),
            Op::SetHighlight(idx, value) => idx < s.list.len() && value.in_unit(),
        }
    }
}

/// The number of operations in `ops` that schedule a frame.
pub open spec fn emitting(ops: Seq<Op>) -> nat
    decreases ops.len(),
{
    if ops.len() == 0 {
        0
    } else {
        emitting(ops.drop_last()) + if ops.last().emits() {
            1nat
        } else {
            0nat
        }
    }
}

impl StateView {
    /// The state is valid: the array can be held in memory, the highlight
    /// map is valid, and the frames are numbered from 0 in the order in which
    /// they were scheduled.
    pub open spec fn wf(self) -> bool {
        &&& self.list.len() <= usize::MAX
        &&& highlights_wf(self.highlights, self.list.len())
        &&& forall|i: int|
            0 <= i < self.frames.len() ==> (#[trigger] self.frames[i]).wf_at(i, self.list.len())
    }

    /// `later` is a state of the same run at a later time: its array has
    /// the same length, and it holds every frame of `self`, unchanged and in
    /// its place.
    pub open spec fn kept_by(self, later: StateView) -> bool {
        &&& later.list.len() == self.list.len()
        &&& later.frames.len() >= self.frames.len()
        &&& later.frames.take(self.frames.len() as int) == self.frames
    }

    /// The value at index `i`.
    pub open spec fn value(self, i: usize) -> u32 {
        self.list[i as int]
    }

    /// The array with the values at `x` and `y` exchanged.
    pub open spec fn exchanged(self, x: usize, y: usize) -> Seq<u32> {
        exchange(self.list, x as int, y as int)
    }

    /// The frame that is scheduled next, showing `list` with `x` and `y`
    /// marked.
    pub open spec fn next_frame(self, list: Seq<u32>, x: usize, y: usize) -> FrameView {
        FrameView {
            list,
            highlights: marked(self.highlights, x, y),
            number: self.frames.len(),
        }
    }

    /// The state after `swap(x, y)`: the two values are exchanged, and a
    /// frame of the array after the exchange is scheduled.
    pub open spec fn swapped(self, x: usize, y: usize) -> StateView {
        StateView {
            list: self.exchanged(x, y),
            highlights: self.highlights,
            frames: self.frames.push(self.next_frame(self.exchanged(x, y), x, y)),
        }
    }

    /// The state after `compare(x, y)`: a frame of the array is scheduled.
    pub open spec fn compared(self, x: usize, y: usize) -> StateView {
        StateView {
            list: self.list,
            highlights: self.highlights,
            frames: self.frames.push(self.next_frame(self.list, x, y)),
        }
    }

    /// The state after `set_highlight(idx, value)`: the index has the
    /// intensity `value`, and no entry where `value` is zero.
    pub open spec fn highlighted(self, idx: usize, value: Frac) -> StateView {
        StateView {
            list: self.list,
            highlights: if value.is_zero() {
                self.highlights.remove(idx)
            } else {
                self.highlights.insert(idx, value)
            },
            frames: self.frames,
        }
    }

    /// The state after one operation.
    pub open spec fn step(self, op: Op) -> StateView {
        match op {
            Op::Swap(x, y) => self.swapped(x, y),
            Op::Compare(x, y) => self.compared(x, y),
            Op::SetHighlight(idx, value) => self.highlighted(idx, value),
        }
    }

    /// The state after the operations `ops`, made in order.
    pub open spec fn run(self, ops: Seq<Op>) -> StateView
        decreases ops.len(),
    {
        if ops.len() == 0 {
            self
        } else {
            self.run(ops.drop_last()).step(ops.last())
        }
    }

    /// Every operation of `ops` is allowed on the state on which it is made.
    pub open spec fn admits(self, ops: Seq<Op>) -> bool
        decreases ops.len(),
    {
        ops.len() > 0 ==> self.admits(ops.drop_last()) && ops.last().allowed(
            self.run(ops.drop_last()),
        )
    }
}

/// An allowed operation keeps a valid state valid and the length of its
/// array, keeps every frame that was scheduled before it, and schedules one
/// more frame exactly where it is a swap or a comparison.
pub proof fn lemma_step(s: StateView, op: Op)
    requires
        s.wf(),
        op.allowed(s),
    ensures
        s.step(op).wf(),
        s.kept_by(s.step(op)),
        s.step(op).frames.len() == s.frames.len() + if op.emits() {
            1nat
        } else {
            0nat
        },
{
    let t = s.step(op);
    assert(t.frames.take(s.frames.len() as int) =~= s.frames);
    assert(mark().is_intensity());
    assert forall|i: int| 0 <= i < t.frames.len() implies (#[trigger] t.frames[i]).wf_at(
        i,
        t.list.len(),
    ) by {
        if i < s.frames.len() {
            assert(t.frames[i] == s.frames[i]);
        }
    }
}

/// A state keeps its own frames.
pub proof fn lemma_kept_by_itself(s: StateView)
    ensures
        s.kept_by(s),
{
    assert(s.frames.take(s.frames.len() as int) =~= s.frames);
}

/// What is kept up to some state is kept by every later state.
pub proof fn lemma_kept_on(first: StateView, second: StateView, third: StateView)
    requires
        first.kept_by(second),
        second.kept_by(third),
    ensures
        first.kept_by(third),
{
    assert(third.frames.take(first.frames.len() as int) =~= second.frames.take(
        first.frames.len() as int,
    )) by {
        assert(second.frames =~= third.frames.take(second.frames.len() as int));
    }
}

/// What is kept up to a valid state is kept after one more allowed operation.
pub proof fn lemma_kept_after(first: StateView, s: StateView, op: Op)
    requires
        first.kept_by(s),
        s.wf(),
        op.allowed(s),
    ensures
        first.kept_by(s.step(op)),
{
    lemma_step(s, op);
    lemma_kept_on(first, s, s.step(op));
}

/// In a run of allowed operations the number of frames grows by the number
/// of swaps and comparisons made, no frame scheduled earlier changes, and
/// the frames stay numbered from 0 in the order in which they were scheduled.
pub proof fn lemma_one_frame_per_swap_or_compare(s: StateView, ops: Seq<Op>)
    requires
        s.wf(),
        s.admits(ops),
    ensures
        s.run(ops).wf(),
        s.kept_by(s.run(ops)),
        s.run(ops).frames.len() == s.frames.len() + emitting(ops),
        forall|i: int|
            0 <= i < s.run(ops).frames.len() ==> (#[trigger] s.run(ops).frames[i]).number == i,
    decreases ops.len(),
{
    if ops.len() > 0 {
        let before = s.run(ops.drop_last());
        lemma_one_frame_per_swap_or_compare(s, ops.drop_last());
        lemma_kept_after(s, before, ops.last());
        lemma_step(before, ops.last());
    } else {
        lemma_kept_by_itself(s);
    }
}

/// Setting an intensity of zero removes the index from the highlight map,
/// and looking the index up afterwards gives zero.
pub proof fn lemma_zero_clears_highlight(s: StateView, idx: usize, value: Frac)
    requires
        value.is_zero(),
    ensures
        !s.highlighted(idx, value).highlights.contains_key(idx),
        intensity(s.highlighted(idx, value).highlights, idx as int).is_zero(),
        s.highlighted(idx, value).highlights == s.highlights.remove(idx),
{
}

/// The state of a sorting run.
pub struct SortData {
    list: Vec<u32>,
    name: &'static str,
    count: usize,
    sort: Arc<Sort>,
    frames: VecDeque<FrameSnapshot>,
    highlights: HashMap<usize, Ratio>,
}

impl View for SortData {
    type V = StateView;

    closed spec fn view(&self) -> StateView {
        StateView {
            list: self.list@,
            highlights: fracs(self.highlights@),
            frames: frame_views(self.frames@),
        }
    }
}

impl SortData {
    /// The name of the run, which begins the name of every frame's file.
    pub closed spec fn name(&self) -> Seq<char> {
        self.name@
    }

    /// The rendering configuration of the run.
    pub closed spec fn config(&self) -> Sort {
        *self.sort
    }

    /// The frame counter stands at the number of frames scheduled.
    pub closed spec fn counted(&self) -> bool {
        self.count == self.frames@.len()
    }

    /// The state is valid, and so is its frame counter.
    pub open spec fn wf(&self) -> bool {
        &&& self@.wf()
        &&& self.counted()
    }

    /// A run over `list` that has scheduled no frame and marks no index.
    pub fn new(sort: Sort, name: &'static str, list: Vec<u32>) -> (data: SortData)
        ensures
            data.wf(),
            data@ == (StateView { list: list@, highlights: Map::empty(), frames: Seq::empty() }),
            data.name() == name@,
            data.config() == sort,
    {
        let data = SortData {
            list,
            name,
            count: 0,
            sort: Arc::new(sort),
            frames: VecDeque::new(),
            highlights: HashMap::new(),
        };
        assert(data@.highlights =~= Map::empty());
        assert(data@.frames =~= Seq::empty());
        assert(data.list.len() <= usize::MAX);
        data
    }

    /// The live array.
    pub fn values(&self) -> (v: &Vec<u32>)
        ensures
            v@ == self@.list,
    {
        &self.list
    }

    /// The number of frames scheduled so far, which is the number of the
    /// frame that is scheduled next.
    pub fn frame_count(&self) -> (n: usize)
        requires
            self.wf(),
        ensures
            n == self@.frames.len(),
    {
        self.count
    }

    /// The intensity of the index `idx` in the live highlight map, zero where
    /// the index is not in it.
    pub fn highlight(&self, idx: usize) -> (r: Ratio)
        ensures
            r@ == intensity(self@.highlights, idx as int),
    {
        intensity_of(&self.highlights, idx)
    }

    /// Copies the array and the highlight map, with `x` and `y` marked, into
    /// the frame that is scheduled next.
    fn snapshot(&self, x: usize, y: usize) -> (frame: FrameSnapshot)
        requires
            self.wf(),
        ensures
            frame@ == self@.next_frame(self.list@, x, y),
    {
        let mut highlights = self.highlights.clone();
        let ghost before = highlights@;
        highlights.insert(x, Ratio::known(1, 5));
        let ghost between = highlights@;
        highlights.insert(y, Ratio::known(1, 5));
        proof {
            lemma_fracs_insert(before, x, between[x]);
            lemma_fracs_insert(between, y, highlights@[y]);
        }
        FrameSnapshot { list: self.list.clone(), highlights, number: self.count }
    }

    /// Schedules `frame` as the next frame.
    fn schedule(&mut self, frame: FrameSnapshot)
        requires
            old(self).wf(),
            frame@.wf_at(old(self)@.frames.len() as int, old(self)@.list.len()),
        ensures
            final(self).wf(),
            final(self)@ == (StateView { frames: old(self)@.frames.push(frame@), ..old(self)@ }),
            final(self).name() == old(self).name(),
            final(self).config() == old(self).config(),
    {
        let ghost before = self.frames@;
        self.frames.push_back(frame);
        assert(self.frames@.len() <= usize::MAX) by {
            let n = self.frames.len();
        }
        self.count = self.count + 1;
        assert(frame_views(self.frames@) =~= frame_views(before).push(frame@));
    }

    /// Exchanges the values at `x` and `y`, and schedules a frame that shows
    /// the array after the exchange with both indices marked.
    pub fn swap(&mut self, x: usize, y: usize)
        requires
            old(self).wf(),
            x < old(self)@.list.len(),
            y < old(self)@.list.len(),
        ensures
            final(self).wf(),
            final(self)@ == old(self)@.swapped(x, y),
            final(self).name() == old(self).name(),
            final(self).config() == old(self).config(),
    {
        let tmp: u32 = self.list[y];
        let other: u32 = self.list[x];
        self.list[y] = other;
        self.list[x] = tmp;
        assert(self.list@ =~= old(self)@.exchanged(x, y));
        assert(mark().is_intensity());
        assert(self@.frames == old(self)@.frames);
        assert(highlights_wf(self@.highlights, self@.list.len()));
        let frame = self.snapshot(x, y);
        self.schedule(frame);
    }

    /// Schedules a frame that shows the array with both indices marked, and
    /// says how the value at `x` stands to the value at `y`. The array is
    /// left as it is.
    pub fn compare(&mut self, x: usize, y: usize) -> (r: Ordering)
        requires
            old(self).wf(),
            x < old(self)@.list.len(),
            y < old(self)@.list.len(),
        ensures
            final(self).wf(),
            final(self)@ == old(self)@.compared(x, y),
            r == ordering(old(self)@.value(x), old(self)@.value(y)),
            final(self).name() == old(self).name(),
            final(self).config() == old(self).config(),
    {
        assert(mark().is_intensity());
        let frame = self.snapshot(x, y);
        self.schedule(frame);
        let a: u32 = self.list[x];
        let b: u32 = self.list[y];
        if a < b {
            Ordering::Less
        } else if a == b {
            Ordering::Equal
        } else {
            Ordering::Greater
        }
    }

    /// Ends the run: all frames scheduled so far are handed over, in the
    /// order of their numbers, as a queue from which they are rendered and
    /// written, at most [`WRITE_PERMITS`] at the same time.
    pub fn finish(self) -> (queue: RenderQueue)
        requires
            self.wf(),
        ensures
            queue.wf(),
            queue@ == (QueueView {
                waiting: self@.frames,
                total: self@.frames.len(),
                permits: WRITE_PERMITS as nat,
                running: 0,
                written: 0,
                failures: 0,
            }),
            queue.name() == self.name(),
            queue.config() == self.config(),
    {
        assert forall|i: int| 0 <= i < self.frames@.len() implies (#[trigger] frame_views(
            self.frames@,
        )[i]).number == i by {
            assert(self@.frames[i].wf_at(i, self@.list.len()));
        }
        RenderQueue::of_frames(self.sort, self.name, self.frames, WRITE_PERMITS)
    }

    /// Gives the index `idx` the intensity `value`; an intensity of zero
    /// removes the index from the highlight map. No frame is scheduled.
    pub fn set_highlight(&mut self, idx: usize, value: Ratio)
        requires
            old(self).wf(),
            idx < old(self)@.list.len(),
            value@.in_unit(),
        ensures
            final(self).wf(),
            final(self)@ == old(self)@.highlighted(idx, value@),
            final(self).name() == old(self).name(),
            final(self).config() == old(self).config(),
    {
        let ghost before = self.highlights@;
        if value.is_zero() {
            self.highlights.remove(&idx);
            proof {
                assert(self.highlights@ =~= before.remove(idx));
                lemma_fracs_remove(before, idx);
                assert(self@.frames == old(self)@.frames);
                assert(highlights_wf(self@.highlights, self@.list.len()));
            }
            return ;
        }
        self.highlights.insert(idx, value);
        proof {
            lemma_fracs_insert(before, idx, value);
            assert(self@.frames == old(self)@.frames);
            assert(highlights_wf(self@.highlights, self@.list.len()));
        }
    }
}

} // verus!
