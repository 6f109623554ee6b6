//! Recording: the session in which one thread opens and closes its regions,
//! and the queue through which finished generations reach a consumer.

use crate::platform::RecordingTimestamp;
use std::collections::VecDeque;
use vstd::prelude::*;

verus! {

/// One activation of a region: where it was opened, under which activation,
/// and when it started and ended.
#[derive(Debug, Clone, Copy)]
pub struct RegionRecordBackend {
    pub name: &'static str,
    pub file: &'static str,
    pub line: u32,
    pub parent: Option<usize>,
    pub start: RecordingTimestamp,
    pub end: Option<RecordingTimestamp>,
}

/// The activations of one generation of one thread, in the order in which
/// they were opened.
#[derive(Debug)]
pub struct RawThreadProfile {
    pub thread_id: usize,
    pub region_backends: Vec<RegionRecordBackend>,
}

/// Every parent is an activation that was opened earlier.
pub open spec fn linked(activations: Seq<RegionRecordBackend>) -> bool {
    forall|i: int|
        0 <= i < activations.len() ==> match (#[trigger] activations[i]).parent {
            Some(parent) => parent < i,
            None => true,
        }
}

/// Every activation has been closed.
pub open spec fn completed(activations: Seq<RegionRecordBackend>) -> bool {
    forall|i: int| 0 <= i < activations.len() ==> (#[trigger] activations[i]).end is Some
}

/// The activation `backend` once it has been closed at `end`.
pub open spec fn closed_at(
    backend: RegionRecordBackend,
    end: RecordingTimestamp,
) -> RegionRecordBackend {
    RegionRecordBackend { end: Some(end), ..backend }
}

impl RawThreadProfile {
    /// A generation of thread `thread_id` in which nothing has been opened yet.
    pub fn new(thread_id: usize) -> (profile: Self)
        ensures
            profile.thread_id == thread_id,
            profile.region_backends@ == Seq::<RegionRecordBackend>::empty(),
    {
        Self { thread_id, region_backends: Vec::with_capacity(1024) }
    }

    /// The generation is fit to be rebuilt: parents come first and every
    /// activation is closed.
    pub open spec fn wf(&self) -> bool {
        linked(self.region_backends@) && completed(self.region_backends@)
    }
}

/// The activation `i` is on the stack.
pub open spec fn on_stack(stack: Seq<usize>, i: int) -> bool {
    exists|k: int| 0 <= k < stack.len() && #[trigger] stack[k] == i
}

/// The stack discipline: the stack lists exactly the open activations,
/// outermost first, each the parent of the next.
pub open spec fn disciplined(stack: Seq<usize>, activations: Seq<RegionRecordBackend>) -> bool {
    &&& linked(activations)
    &&& forall|k: int| 0 <= k < stack.len() ==> (#[trigger] stack[k]) < activations.len()
    &&& forall|i: int|
        0 <= i < activations.len() ==> ((#[trigger] activations[i]).end is None
            <==> on_stack(stack, i))
    &&& forall|k: int|
        0 < k < stack.len() ==> activations[(#[trigger] stack[k]) as int].parent == Some(
            stack[k - 1],
        )
    &&& stack.len() > 0 ==> activations[stack[0] as int].parent is None
    &&& stack.len() == 0 ==> activations.len() == 0
}

/// Activations that are open are stacked in the order in which they were
/// opened.
pub proof fn lemma_stack_rises(
    stack: Seq<usize>,
    activations: Seq<RegionRecordBackend>,
    j: int,
    k: int,
)
    requires
        disciplined(stack, activations),
        0 <= j < k < stack.len(),
    ensures
        stack[j] < stack[k],
    decreases k - j,
{
    assert(activations[stack[k] as int].parent == Some(stack[k - 1]));
    assert(stack[k - 1] < stack[k]);
    if j < k - 1 {
        lemma_stack_rises(stack, activations, j, k - 1);
    }
}

/// Opening a region keeps the stack discipline.
proof fn lemma_open_keeps_discipline(
    before: Seq<usize>,
    previous: Seq<RegionRecordBackend>,
    backend: RegionRecordBackend,
)
    requires
        disciplined(before, previous),
        previous.len() <= usize::MAX,
        backend.end is None,
        backend.parent == (if before.len() > 0 {
            Some(before.last())
        } else {
            None
        }),
    ensures
        disciplined(before.push(previous.len() as usize), previous.push(backend)),
{
    let after = before.push(previous.len() as usize);
    let activations = previous.push(backend);
    let current = previous.len() as int;
    assert(after[before.len() as int] == current);
    assert forall|i: int| 0 <= i < activations.len() implies ((#[trigger] activations[i]).end
        is None <==> on_stack(after, i)) by {
        if i < current {
            assert(activations[i] == previous[i]);
            if on_stack(before, i) {
                let k = choose|k: int| 0 <= k < before.len() && #[trigger] before[k] == i;
                assert(after[k] == i);
            }
            if on_stack(after, i) {
                let k = choose|k: int| 0 <= k < after.len() && #[trigger] after[k] == i;
                assert(before[k] == i);
            }
        }
    }
    assert forall|k: int| 0 < k < after.len() implies activations[(#[trigger] after[k]) as int].parent
        == Some(after[k - 1]) by {
        assert(after[k - 1] == before[k - 1]);
        if k < before.len() {
            assert(after[k] == before[k]);
        }
    }
    if before.len() > 0 {
        assert(after[0] == before[0]);
        assert(before[before.len() - 1] < current);
    }
    assert forall|i: int| 0 <= i < activations.len() implies match (#[trigger] activations[i]).parent {
        Some(parent) => parent < i,
        None => true,
    } by {
        if i < current {
            assert(activations[i] == previous[i]);
        }
    }
    assert forall|k: int| 0 <= k < after.len() implies (#[trigger] after[k]) < activations.len() by {
        if k < before.len() {
            assert(after[k] == before[k]);
        }
    }
}

/// Closing the innermost open region keeps the stack discipline, and once
/// the stack is empty every activation is closed.
proof fn lemma_close_keeps_discipline(
    before: Seq<usize>,
    previous: Seq<RegionRecordBackend>,
    end: RecordingTimestamp,
)
    requires
        disciplined(before, previous),
        before.len() > 0,
    ensures
        before.len() > 1 ==> disciplined(
            before.drop_last(),
            previous.update(before.last() as int, closed_at(previous[before.last() as int], end)),
        ),
        linked(
            previous.update(before.last() as int, closed_at(previous[before.last() as int], end)),
        ),
        before.len() == 1 ==> completed(
            previous.update(before.last() as int, closed_at(previous[before.last() as int], end)),
        ),
{
    let index = before.last() as int;
    let after = before.drop_last();
    let activations = previous.update(index, closed_at(previous[index], end));
    assert(before[before.len() - 1] == index);
    assert forall|k: int| 0 <= k < after.len() implies after[k] != index by {
        assert(after[k] == before[k]);
        lemma_stack_rises(before, previous, k, before.len() - 1);
    }
    assert forall|i: int| 0 <= i < activations.len() implies ((#[trigger] activations[i]).end
        is None <==> on_stack(after, i)) by {
        if i != index {
            assert(activations[i] == previous[i]);
            if on_stack(before, i) {
                let k = choose|k: int| 0 <= k < before.len() && #[trigger] before[k] == i;
                assert(k != before.len() - 1);
                assert(after[k] == i);
            }
            if on_stack(after, i) {
                let k = choose|k: int| 0 <= k < after.len() && #[trigger] after[k] == i;
                assert(before[k] == i);
            }
        } else {
            if on_stack(after, i) {
                let k = choose|k: int| 0 <= k < after.len() && #[trigger] after[k] == i;
                assert(after[k] != index);
            }
        }
    }
    assert forall|k: int| 0 < k < after.len() implies activations[(#[trigger] after[k]) as int].parent
        == Some(after[k - 1]) by {
        assert(after[k] == before[k]);
        assert(after[k - 1] == before[k - 1]);
        assert(activations[before[k] as int].parent == previous[before[k] as int].parent);
    }
    if after.len() > 0 {
        assert(after[0] == before[0]);
        assert(activations[before[0] as int].parent == previous[before[0] as int].parent);
    }
    assert forall|i: int| 0 <= i < activations.len() implies match (#[trigger] activations[i]).parent {
        Some(parent) => parent < i,
        None => true,
    } by {
        assert(activations[i].parent == previous[i].parent);
    }
    assert forall|k: int| 0 <= k < after.len() implies (#[trigger] after[k]) < activations.len() by {
        assert(after[k] == before[k]);
    }
    if after.len() == 0 {
        assert forall|i: int| 0 <= i < activations.len() implies (#[trigger] activations[i]).end
            is Some by {
            assert(!on_stack(after, i));
        }
    }
}

/// Asks `thread_id::get` for the number of the calling thread. The number
/// depends on the thread that calls, so nothing is claimed of it.
#[verifier::external_body]
fn current_thread_id() -> usize {
    thread_id::get()
}

/// The recording state of one thread: the generation in progress, if any, and
/// the stack of the activations that are open, innermost last.
#[derive(Debug)]
pub struct ThreadLocal {
    pub raw_thread_profile: Option<Box<RawThreadProfile>>,
    pub stack: VecDeque<usize>,
}

impl ThreadLocal {
    /// The activations recorded in the generation in progress.
    pub open spec fn activations(&self) -> Seq<RegionRecordBackend> {
        match self.raw_thread_profile {
            Some(profile) => profile.region_backends@,
            None => Seq::empty(),
        }
    }

    /// The innermost open activation, if any region is open.
    pub open spec fn innermost(&self) -> Option<usize> {
        if self.stack@.len() > 0 {
            Some(self.stack@.last())
        } else {
            None
        }
    }

    /// The activations once the innermost open region has been closed at
    /// `end`.
    pub open spec fn closed_innermost(&self, end: RecordingTimestamp) -> Seq<RegionRecordBackend>
        recommends
            self.stack@.len() > 0,
    {
        let index = self.stack@.last() as int;
        self.activations().update(index, closed_at(self.activations()[index], end))
    }

    /// The stack discipline holds, and without a generation in progress
    /// nothing is open.
    pub open spec fn wf(&self) -> bool {
        &&& self.raw_thread_profile is None ==> self.stack@.len() == 0
        &&& disciplined(self.stack@, self.activations())
    }

    /// The state of thread `thread_id` before it opens its first region.
    pub fn with_thread_id(thread_id: usize) -> (session: Self)
        ensures
            session.wf(),
            session.raw_thread_profile is Some,
            session.raw_thread_profile.unwrap().thread_id == thread_id,
            session.activations().len() == 0,
            session.stack@.len() == 0,
    {
        Self {
            raw_thread_profile: Some(Box::new(RawThreadProfile::new(thread_id))),
            stack: VecDeque::new(),
        }
    }

    /// The state of the calling thread before it opens its first region.
    pub fn new() -> (session: Self)
        ensures
            session.wf(),
            session.raw_thread_profile is Some,
            session.activations().len() == 0,
            session.stack@.len() == 0,
    {
        Self::with_thread_id(current_thread_id())
    }

    /// Opens a region at `start`: records a new activation under the
    /// innermost open one and makes it the innermost.
    pub fn open(&mut self, name: &'static str, file: &'static str, line: u32, start: RecordingTimestamp)
        requires
            old(self).wf(),
            old(self).raw_thread_profile is Some,
        ensures
            final(self).wf(),
            final(self).raw_thread_profile is Some,
            final(self).raw_thread_profile.unwrap().thread_id == old(self).raw_thread_profile.unwrap().thread_id,
            final(self).activations() == old(self).activations().push(
                RegionRecordBackend {
                    name,
                    file,
                    line,
                    parent: old(self).innermost(),
                    start,
                    end: None,
                },
            ),
            final(self).stack@ == old(self).stack@.push(old(self).activations().len() as usize),
    {
        let mut profile = self.raw_thread_profile.take().unwrap();
        let current_index = profile.region_backends.len();
        let parent = if self.stack.len() > 0 {
            Some(self.stack[self.stack.len() - 1])
        } else {
            None
        };
        self.stack.push_back(current_index);
        profile.region_backends.push(
            RegionRecordBackend { name, file, line, parent, start, end: None },
        );
        self.raw_thread_profile = Some(profile);
        proof {
            lemma_open_keeps_discipline(
                old(self).stack@,
                old(self).activations(),
                RegionRecordBackend { name, file, line, parent, start, end: None },
            );
        }
    }

    /// Closes the innermost open region at `end`. When that was the
    /// outermost region the generation is finished: it is handed out, and
    /// the state is left without a generation.
    pub fn close(&mut self, end: RecordingTimestamp) -> (finished: Option<Box<RawThreadProfile>>)
        requires
            old(self).wf(),
            old(self).stack@.len() > 0,
        ensures
            final(self).wf(),
            final(self).stack@ == old(self).stack@.drop_last(),
            finished is Some <==> old(self).stack@.len() == 1,
            finished is None ==> {
                &&& final(self).raw_thread_profile is Some
                &&& final(self).raw_thread_profile.unwrap().thread_id == old(self).raw_thread_profile.unwrap().thread_id
                &&& final(self).activations() == old(self).closed_innermost(end)
            },
            finished is Some ==> {
                &&& final(self).raw_thread_profile is None
                &&& finished.unwrap().wf()
                &&& finished.unwrap().thread_id == old(self).raw_thread_profile.unwrap().thread_id
                &&& finished.unwrap().region_backends@ == old(self).closed_innermost(end)
            },
    {
        let mut profile = self.raw_thread_profile.take().unwrap();
        let index = self.stack.pop_back().unwrap();
        let backend = profile.region_backends[index];
        profile.region_backends.set(index, RegionRecordBackend { end: Some(end), ..backend });
        proof {
            lemma_close_keeps_discipline(old(self).stack@, old(self).activations(), end);
            assert(self.stack@ == old(self).stack@.drop_last());
        }
        if self.stack.len() == 0 {
            Some(profile)
        } else {
            self.raw_thread_profile = Some(profile);
            None
        }
    }
}

/// The FIFO of finished generations on their way to a consumer, oldest first.
#[derive(Debug)]
pub struct HandoffQueue {
    pub profiles: VecDeque<Box<RawThreadProfile>>,
}

impl View for HandoffQueue {
    type V = Seq<Box<RawThreadProfile>>;

    open spec fn view(&self) -> Seq<Box<RawThreadProfile>> {
        self.profiles@
    }
}

impl HandoffQueue {
    /// A queue that holds nothing.
    pub fn new() -> (queue: Self)
        ensures
            queue@.len() == 0,
    {
        Self { profiles: VecDeque::new() }
    }

    /// Appends a finished generation behind those that wait.
    pub fn push(&mut self, profile: Box<RawThreadProfile>)
        ensures
            final(self)@ == old(self)@.push(profile),
    {
        self.profiles.push_back(profile);
    }

    /// Whether no generation waits.
    pub fn is_empty(&self) -> (empty: bool)
        ensures
            empty == (self@.len() == 0),
    {
        self.profiles.len() == 0
    }
}

/// Takes the oldest generation that waits in `queue`. A consumer that must
/// wait for one does so before it calls.
pub fn recv(queue: &mut HandoffQueue) -> (profile: Box<RawThreadProfile>)
    requires
        old(queue)@.len() > 0,
    ensures
        profile == old(queue)@[0],
        final(queue)@ == old(queue)@.subrange(1, old(queue)@.len() as int),
{
    queue.profiles.pop_front().unwrap()
}

/// Takes the oldest generation that waits in `queue`, if there is one. On an
/// empty queue it gives nothing and leaves the queue empty, however often it
/// is called.
pub fn try_recv(queue: &mut HandoffQueue) -> (profile: Option<Box<RawThreadProfile>>)
    ensures
        old(queue)@.len() == 0 ==> profile is None && final(queue)@ == old(queue)@,
        old(queue)@.len() > 0 ==> profile == Some(old(queue)@[0]) && final(queue)@ == old(queue)@.subrange(1, old(queue)@.len() as int),
{
    queue.profiles.pop_front()
}

/// The guard of one open region: made when the region is opened, given up
/// when it is closed.
#[derive(Debug)]
pub struct RegionRecord;

impl RegionRecord {
    /// Opens a region on the calling thread, stamped with the clock's
    /// reading. A thread without a generation in progress starts one.
    #[inline]
    pub fn new(session: &mut ThreadLocal, name: &'static str, file: &'static str, line: u32) -> (record:
        Self)
        requires
            old(session).wf(),
        ensures
            final(session).wf(),
            final(session).raw_thread_profile is Some,
            old(session).raw_thread_profile is Some ==> final(session).raw_thread_profile.unwrap().thread_id == old(session).raw_thread_profile.unwrap().thread_id,
            final(session).stack@ == old(session).stack@.push(
                old(session).activations().len() as usize,
            ),
            final(session).activations() == old(session).activations().push(
                RegionRecordBackend {
                    name,
                    file,
                    line,
                    parent: old(session).innermost(),
                    start: final(session).activations().last().start,
                    end: None,
                },
            ),
    {
        if session.raw_thread_profile.is_none() {
            *session = ThreadLocal::new();
        }
        session.open(name, file, line, RecordingTimestamp::now());
        RegionRecord
    }

    /// Closes the innermost open region of `session` at the clock's reading.
    /// When that was the outermost region, the finished generation is
    /// appended to `queue`.
    #[inline]
    pub fn close(self, session: &mut ThreadLocal, queue: &mut HandoffQueue)
        requires
            old(session).wf(),
            old(session).stack@.len() > 0,
        ensures
            final(session).wf(),
            final(session).stack@ == old(session).stack@.drop_last(),
            old(session).stack@.len() > 1 ==> {
                &&& final(queue)@ == old(queue)@
                &&& final(session).raw_thread_profile is Some
                &&& final(session).raw_thread_profile.unwrap().thread_id == old(session).raw_thread_profile.unwrap().thread_id
                &&& final(session).activations().len() == old(session).activations().len()
                &&& final(session).activations() == old(session).closed_innermost(
                    final(session).activations()[old(session).stack@.last() as int].end.unwrap(),
                )
            },
            old(session).stack@.len() == 1 ==> {
                &&& final(session).raw_thread_profile is None
                &&& final(queue)@.len() == old(queue)@.len() + 1
                &&& final(queue)@.drop_last() == old(queue)@
                &&& final(queue)@.last().wf()
                &&& final(queue)@.last().thread_id == old(session).raw_thread_profile.unwrap().thread_id
                &&& final(queue)@.last().region_backends@.len() == old(session).activations().len()
                &&& final(queue)@.last().region_backends@ == old(session).closed_innermost(
                    final(queue)@.last().region_backends@[old(session).stack@.last() as int].end.unwrap(),
                )
            },
    {
        let time = RecordingTimestamp::now();
        match session.close(time) {
            Some(raw_thread_profile) => {
                queue.push(raw_thread_profile);
                assert(queue@.drop_last() == old(queue)@);
            },
            None => {},
        }
    }
}

} // verus!
