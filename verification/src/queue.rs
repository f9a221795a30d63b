//! The frames of a finished run on their way to disk. Rendering a frame and
//! writing its file is work for a pool of tasks outside this library; the
//! queue decides which frame starts when, so that no more than a fixed number
//! of them are in work at the same time, and it knows when all are written.

use vstd::prelude::*;
use std::collections::VecDeque;
use std::sync::Arc;
use crate::output::{frame_file_name, frame_file_name_spec, NamedImage};
use crate::render::{RenderError, Sort};
use crate::state::{frame_views, FrameSnapshot, FrameView};

verus! {

/// One frame to render and write, with all that the work needs.
#[derive(Clone, Debug)]
pub struct RenderJob {
    /// The rendering configuration of the run.
    pub sort: Arc<Sort>,
    /// The name of the file that is to hold the image.
    pub name: String,
    /// The frame.
    pub frame: FrameSnapshot,
}

impl RenderJob {
    /// What the job renders: see [`Sort::render_spec`].
    pub open spec fn image(self) -> Result<Seq<u8>, RenderError> {
        (*self.sort).render_spec(self.frame@.list, self.frame@.highlights)
    }

    /// Renders the frame, and hands the encoded image over under the name of
    /// the frame's file.
    pub fn run(self) -> (r: Result<NamedImage, RenderError>)
        ensures
            match r {
                Ok(image) => image.name@ == self.name@ && self.image() == Ok::<
                    Seq<u8>,
                    RenderError,
                >(image.data@),
                Err(e) => self.image() == Err::<Seq<u8>, RenderError>(e),
            },
    {
        let RenderJob { sort, name, frame } = self;
        let FrameSnapshot { list, highlights, number: _ } = frame;
        match sort.render(&list, highlights) {
            Ok(data) => Ok(NamedImage { name, data }),
            Err(e) => Err(e),
        }
    }
}

/// What the caller of [`RenderQueue::next_step`] is to do next.
#[derive(Debug)]
pub enum Step {
    /// Start this job as a task of its own, then ask again.
    Start(RenderJob),
    /// Wait until one of the started tasks has ended, report it with
    /// [`RenderQueue::task_finished`], then ask again.
    Wait,
    /// Every frame is written: the run is over.
    Done,
    /// A task has failed: the run is given up.
    Failed,
}

/// An event in the life of a queue.
pub enum Event {
    /// The caller asks for the next step, and does it.
    Poll,
    /// A started task has ended, well or not.
    Finished(bool),
}

/// The mathematical content of a [`RenderQueue`].
pub struct QueueView {
    /// The frames that have not been started, in the order of their numbers.
    pub waiting: Seq<FrameView>,
    /// The number of frames of the run.
    pub total: nat,
    /// The number of tasks that may be in work at the same time.
    pub permits: nat,
    /// The number of tasks in work: started and not reported as ended.
    pub running: nat,
    /// The number of tasks that have ended well.
    pub written: nat,
    /// The number of tasks that have failed.
    pub failures: nat,
}

impl QueueView {
    /// The queue is valid: no more tasks are in work than there are permits,
    /// every frame of the run is either waiting, in work, written or failed,
    /// and the waiting frames are the last of the run, in order.
    pub open spec fn wf(self) -> bool {
        &&& self.permits >= 1
        &&& self.running <= self.permits
        &&& self.waiting.len() + self.running + self.written + self.failures == self.total
        &&& self.total <= usize::MAX
        &&& forall|i: int|
            0 <= i < self.waiting.len() ==> (#[trigger] self.waiting[i]).number == self.total
                - self.waiting.len() + i
    }

    /// A task has failed.
    pub open spec fn failed(self) -> bool {
        self.failures > 0
    }

    /// The next frame can start: none has failed, a frame is waiting and a
    /// permit is free.
    pub open spec fn can_start(self) -> bool {
        !self.failed() && self.waiting.len() > 0 && self.running < self.permits
    }

    /// Nothing can start before a task in work has ended.
    pub open spec fn must_wait(self) -> bool {
        !self.failed() && !self.can_start() && self.running > 0
    }

    /// Nothing waits, and nothing is in work or has failed.
    pub open spec fn drained(self) -> bool {
        !self.failed() && self.waiting.len() == 0 && self.running == 0
    }

    /// The queue after its first waiting frame has been started.
    pub open spec fn started(self) -> QueueView {
        QueueView {
            waiting: self.waiting.skip(1),
            running: self.running + 1,
            ..self
        }
    }

    /// The queue after a task has been reported as ended: its permit is free
    /// again, whether it ended well or not. A report without a task in work
    /// changes nothing.
    pub open spec fn finished(self, ok: bool) -> QueueView {
        if self.running == 0 {
            self
        } else if ok {
            QueueView { running: (self.running - 1) as nat, written: self.written + 1, ..self }
        } else {
            QueueView { running: (self.running - 1) as nat, failures: self.failures + 1, ..self }
        }
    }

    /// The queue after one event.
    pub open spec fn after(self, event: Event) -> QueueView {
        match event {
            Event::Poll => if self.can_start() {
                self.started()
            } else {
                self
            },
            Event::Finished(ok) => self.finished(ok),
        }
    }

    /// The queue after the events `events`, in order.
    pub open spec fn after_all(self, events: Seq<Event>) -> QueueView
        decreases events.len(),
    {
        if events.len() == 0 {
            self
        } else {
            self.after_all(events.drop_last()).after(events.last())
        }
    }
}

/// An event keeps a valid queue valid.
pub proof fn lemma_event_keeps_valid(q: QueueView, event: Event)
    requires
        q.wf(),
    ensures
        q.after(event).wf(),
        q.after(event).total == q.total,
        q.after(event).permits == q.permits,
{
    if event is Poll && q.can_start() {
        let next = q.started();
        assert forall|i: int| 0 <= i < next.waiting.len() implies (#[trigger] next.waiting[i]).number
            == next.total - next.waiting.len() + i by {
            assert(next.waiting[i] == q.waiting[i + 1]);
        }
    }
}

/// Whatever happens to a valid queue, and in whatever order, the number of
/// tasks in work never exceeds the number of permits.
pub proof fn lemma_never_more_than_permits(q: QueueView, events: Seq<Event>)
    requires
        q.wf(),
    ensures
        q.after_all(events).wf(),
        q.after_all(events).running <= q.permits,
        q.after_all(events).permits == q.permits,
        q.after_all(events).total == q.total,
    decreases events.len(),
{
    if events.len() > 0 {
        lemma_never_more_than_permits(q, events.drop_last());
        lemma_event_keeps_valid(q.after_all(events.drop_last()), events.last());
    }
}

/// The frame that starts next has the number of frames started before it:
/// frames start in the order of their numbers.
pub proof fn lemma_frames_start_in_order(q: QueueView)
    requires
        q.wf(),
        q.waiting.len() > 0,
    ensures
        q.waiting[0].number == q.running + q.written + q.failures,
{
}

/// A valid queue is drained only when every frame of the run is written.
pub proof fn lemma_drained_means_all_written(q: QueueView)
    requires
        q.wf(),
        q.drained(),
    ensures
        q.written == q.total,
{
}

/// The frames of a run, and how far their rendering has come.
pub struct RenderQueue {
    sort: Arc<Sort>,
    name: &'static str,
    waiting: VecDeque<FrameSnapshot>,
    total: usize,
    permits: usize,
    running: usize,
    written: usize,
    failures: usize,
}

impl View for RenderQueue {
    type V = QueueView;

    closed spec fn view(&self) -> QueueView {
        QueueView {
            waiting: frame_views(self.waiting@),
            total: self.total as nat,
            permits: self.permits as nat,
            running: self.running as nat,
            written: self.written as nat,
            failures: self.failures as nat,
        }
    }
}

impl RenderQueue {
    /// The name of the run, which begins the name of every frame's file.
    pub closed spec fn name(&self) -> Seq<char> {
        self.name@
    }

    /// The rendering configuration of the run.
    pub closed spec fn config(&self) -> Sort {
        *self.sort
    }

    /// The queue is valid.
    pub open spec fn wf(&self) -> bool {
        self@.wf()
    }

    /// A queue in which all of `frames` wait.
    pub(crate) fn of_frames(
        sort: Arc<Sort>,
        name: &'static str,
        frames: VecDeque<FrameSnapshot>,
        permits: usize,
    ) -> (queue: RenderQueue)
        requires
            permits >= 1,
            forall|i: int|
                0 <= i < frames@.len() ==> (#[trigger] frame_views(frames@)[i]).number == i,
        ensures
            queue.wf(),
            queue@ == (QueueView {
                waiting: frame_views(frames@),
                total: frames@.len(),
                permits: permits as nat,
                running: 0,
                written: 0,
                failures: 0,
            }),
            queue.name() == name@,
            queue.config() == *sort,
    {
        let total: usize = frames.len();
        RenderQueue { sort, name, waiting: frames, total, permits, running: 0, written: 0, failures: 0 }
    }

    /// The number of tasks in work.
    pub fn in_flight(&self) -> (n: usize)
        ensures
            n == self@.running,
    {
        self.running
    }

    /// The number of frames written so far.
    pub fn written(&self) -> (n: usize)
        ensures
            n == self@.written,
    {
        self.written
    }

    /// The number of frames of the run.
    pub fn total(&self) -> (n: usize)
        ensures
            n == self@.total,
    {
        self.total
    }

    /// Says what is to be done next. A run in which a task has failed is
    /// given up. Else the first waiting frame starts where a permit is free,
    /// and takes the permit; else the caller waits for a task in work; and
    /// with nothing waiting and nothing in work the run is over.
    pub fn next_step(&mut self) -> (step: Step)
        requires
            old(self).wf(),
        ensures
            final(self).wf(),
            final(self).name() == old(self).name(),
            final(self).config() == old(self).config(),
            match step {
                Step::Start(job) => {
                    &&& old(self)@.can_start()
                    &&& final(self)@ == old(self)@.started()
                    &&& job.frame@ == old(self)@.waiting[0]
                    &&& job.name@ == frame_file_name_spec(old(self).name(), job.frame@.number)
                    &&& *job.sort == old(self).config()
                },
                Step::Wait => old(self)@.must_wait() && final(self)@ == old(self)@,
                Step::Done => old(self)@.drained() && final(self)@ == old(self)@,
                Step::Failed => old(self)@.failed() && final(self)@ == old(self)@,
            },
    {
        if self.failures > 0 {
            return Step::Failed;
        }
        if self.running < self.permits {
            let ghost before = self.waiting@;
            match self.waiting.pop_front() {
                Some(frame) => {
                    self.running = self.running + 1;
                    proof {
                        assert(frame_views(self.waiting@) =~= frame_views(before).skip(1));
                        assert(frame@ == frame_views(before)[0]);
                        lemma_event_keeps_valid(old(self)@, Event::Poll);
                    }
                    let name = frame_file_name(self.name, frame.number);
                    return Step::Start(RenderJob { sort: self.sort.clone(), name, frame });
                },
                None => {
                    assert(self.waiting@ =~= before);
                },
            }
        }
        if self.running > 0 {
            Step::Wait
        } else {
            Step::Done
        }
    }

    /// Reports that a started task has ended, well (`ok`) or not. Its permit
    /// is free again either way.
    pub fn task_finished(&mut self, ok: bool)
        requires
            old(self).wf(),
        ensures
            final(self).wf(),
            final(self)@ == old(self)@.finished(ok),
            final(self).name() == old(self).name(),
            final(self).config() == old(self).config(),
    {
        if self.running == 0 {
            return ;
        }
        self.running = self.running - 1;
        if ok {
            self.written = self.written + 1;
        } else {
            self.failures = self.failures + 1;
        }
    }
}

} // verus!
