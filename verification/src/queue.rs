//! The queue of accepted connections that wait for a worker.

use std::collections::VecDeque;

use vstd::prelude::*;

verus! {

/// An accepted connection, with the times of its acceptance and of its end at the latest, in
/// nanoseconds of a clock that never goes back.
pub struct WorkItem<T> {
    pub stream: T,
    pub accepted_at: u64,
    pub deadline: u64,
}

/// The connections that wait, the one that came first in front, and whether the queue is closed.
pub struct QueueState<T> {
    pub streams: VecDeque<WorkItem<T>>,
    pub closed: bool,
}

/// The connections from the first on whose time is not over.
pub open spec fn live<T>(waiting: Seq<WorkItem<T>>, now: u64) -> Seq<WorkItem<T>>
    decreases waiting.len(),
{
    if waiting.len() > 0 && now >= waiting[0].deadline {
        live(waiting.drop_first(), now)
    } else {
        waiting
    }
}

/// What becomes of a connection that is to enter the queue.
#[derive(Clone, Copy, Debug, PartialEq, Eq, Structural)]
pub enum Entered {
    /// It is turned away, since the server stops.
    Refused,
    /// It is dropped, since its time is over.
    Expired,
    /// It waits.
    Queued,
}

/// What there is for a worker to do.
pub enum Taken<T> {
    /// Serve this connection.
    Work(WorkItem<T>),
    /// Stop.
    Finished,
    /// Wait until the queue changes.
    Wait,
}

/// What becomes of a connection that is to enter the queue.
pub open spec fn entering(closed: bool, shutdown: bool, deadline: u64, now: u64) -> Entered {
    if closed || shutdown {
        Entered::Refused
    } else if now >= deadline {
        Entered::Expired
    } else {
        Entered::Queued
    }
}

/// Whether a connection need not wait to enter the queue, which holds `len` of them: there is room,
/// or the server stops.
pub open spec fn may_enter(len: int, capacity: int, closed: bool, shutdown: bool) -> bool {
    len < capacity || closed || shutdown
}

/// The connections that wait when another has entered, or has not.
pub open spec fn joined_by<T>(
    waiting: Seq<WorkItem<T>>,
    work: WorkItem<T>,
    entered: Entered,
) -> Seq<WorkItem<T>> {
    if entered is Queued {
        waiting.push(work)
    } else {
        waiting
    }
}

/// What there is for a worker to do: the first connection whose time is not over, and without one
/// to stop or to wait, as the queue is closed or not.
pub open spec fn handed_out<T>(waiting: Seq<WorkItem<T>>, closed: bool, now: u64) -> Taken<T> {
    if live(waiting, now).len() > 0 {
        Taken::Work(live(waiting, now)[0])
    } else if closed {
        Taken::Finished
    } else {
        Taken::Wait
    }
}

/// The connections that wait when that one has been handed out.
pub open spec fn left_waiting<T>(waiting: Seq<WorkItem<T>>, now: u64) -> Seq<WorkItem<T>> {
    if live(waiting, now).len() > 0 {
        live(waiting, now).drop_first()
    } else {
        live(waiting, now)
    }
}

/// Drops the connections in front whose time is over, and counts them.
pub fn discard_expired<T>(state: &mut QueueState<T>, now: u64) -> (discarded: usize)
    ensures
        final(state).streams@ == live(old(state).streams@, now),
        final(state).closed == old(state).closed,
        discarded == old(state).streams@.len() - final(state).streams@.len(),
{
    let waiting = state.streams.len();
    while state.streams.len() > 0 && now >= state.streams[0].deadline
        invariant
            live(state.streams@, now) == live(old(state).streams@, now),
            state.closed == old(state).closed,
            state.streams@.len() <= waiting == old(state).streams@.len(),
        decreases state.streams@.len(),
    {
        let ghost before = state.streams@;
        let _ = state.streams.pop_front();
        assert(state.streams@ =~= before.drop_first());
    }
    waiting - state.streams.len()
}

impl<T> QueueState<T> {
    /// An empty queue, with space for `capacity` connections.
    pub fn new(capacity: usize) -> (state: QueueState<T>)
        ensures
            state.streams@ == Seq::<WorkItem<T>>::empty(),
            !state.closed,
    {
        QueueState { streams: VecDeque::with_capacity(capacity), closed: false }
    }

    /// Drops the connections in front whose time is over, counts them, and tells whether a
    /// connection need not wait to enter.
    pub fn make_room(&mut self, capacity: usize, shutdown: bool, now: u64) -> (room: (usize, bool))
        ensures
            final(self).streams@ == live(old(self).streams@, now),
            final(self).closed == old(self).closed,
            room.0 == old(self).streams@.len() - final(self).streams@.len(),
            room.1 == may_enter(
                final(self).streams@.len() as int,
                capacity as int,
                final(self).closed,
                shutdown,
            ),
    {
        let discarded = discard_expired(self, now);
        (discarded, self.streams.len() < capacity || self.closed || shutdown)
    }

    /// Takes a connection in, unless the server stops or the time of the connection is over.
    pub fn enter(&mut self, work: WorkItem<T>, shutdown: bool, now: u64) -> (entered: Entered)
        ensures
            entered == entering(old(self).closed, shutdown, work.deadline, now),
            final(self).closed == old(self).closed,
            final(self).streams@ == joined_by(old(self).streams@, work, entered),
    {
        if self.closed || shutdown {
            return Entered::Refused;
        }
        if now >= work.deadline {
            return Entered::Expired;
        }
        self.streams.push_back(work);
        Entered::Queued
    }

    /// Drops the connections in front whose time is over, counts them, and hands out the first that
    /// is left.
    pub fn take(&mut self, now: u64) -> (taken: (usize, Taken<T>))
        ensures
            final(self).closed == old(self).closed,
            taken.0 == old(self).streams@.len() - live(old(self).streams@, now).len(),
            taken.1 == handed_out(old(self).streams@, old(self).closed, now),
            final(self).streams@ == left_waiting(old(self).streams@, now),
    {
        let discarded = discard_expired(self, now);
        let ghost waiting = self.streams@;
        match self.streams.pop_front() {
            Some(work) => {
                assert(self.streams@ =~= waiting.drop_first());
                (discarded, Taken::Work(work))
            },
            None => if self.closed {
                (discarded, Taken::Finished)
            } else {
                (discarded, Taken::Wait)
            },
        }
    }

    /// Closes the queue, and drops the connections that wait.
    pub fn close(&mut self)
        ensures
            final(self).closed,
            final(self).streams@ == Seq::<WorkItem<T>>::empty(),
    {
        self.closed = true;
        self.streams.clear();
    }
}

/// Whether the connections end in the order in which they came.
pub open spec fn in_order<T>(waiting: Seq<WorkItem<T>>) -> bool {
    forall|i: int, j: int|
        0 <= i <= j < waiting.len() ==> waiting[i].deadline <= waiting[j].deadline
}

/// What is left of a queue is its end, and the first of it is not over.
pub proof fn live_is_a_tail<T>(waiting: Seq<WorkItem<T>>, now: u64)
    ensures
        live(waiting, now).len() <= waiting.len(),
        live(waiting, now) == waiting.skip(waiting.len() - live(waiting, now).len()),
        live(waiting, now).len() > 0 ==> now < live(waiting, now)[0].deadline,
        forall|i: int|
            0 <= i < waiting.len() - live(waiting, now).len() ==> now >= (
            #[trigger] waiting[i]).deadline,
    decreases waiting.len(),
{
    if waiting.len() > 0 && now >= waiting[0].deadline {
        let rest = waiting.drop_first();
        live_is_a_tail(rest, now);
        let gone = waiting.len() - live(waiting, now).len();
        assert(rest.skip(gone - 1) =~= waiting.skip(gone));
        assert forall|i: int| 0 <= i < gone implies now >= (#[trigger] waiting[i]).deadline by {
            if i > 0 {
                assert(rest[i - 1] == waiting[i]);
            }
        }
    } else {
        assert(waiting.skip(0) =~= waiting);
    }
}

/// Where connections end in the order in which they came, those that are over are all dropped, no
/// other is, and the order is kept.
pub proof fn all_expired_are_discarded<T>(waiting: Seq<WorkItem<T>>, now: u64)
    requires
        in_order(waiting),
    ensures
        in_order(live(waiting, now)),
        forall|i: int|
            0 <= i < live(waiting, now).len() ==> now < (#[trigger] live(waiting, now)[i]).deadline,
        forall|i: int|
            0 <= i < waiting.len() && now < (#[trigger] waiting[i]).deadline ==> live(
                waiting,
                now,
            ).contains(waiting[i]),
{
    live_is_a_tail(waiting, now);
    let left = live(waiting, now);
    let gone = waiting.len() - left.len();
    assert forall|i: int| 0 <= i < left.len() implies now < (#[trigger] left[i]).deadline by {
        assert(left[0] == waiting[gone] && left[i] == waiting[gone + i]);
    }
    assert forall|i: int| 0 <= i < waiting.len() && now < (#[trigger] waiting[i]).deadline implies left.contains(
        waiting[i],
    ) by {
        assert(left[i - gone] == waiting[i]);
    }
}

/// Connections that enter in the order of their ends, and only when there is room, keep the queue
/// in order and within its capacity.
pub proof fn queue_keeps_order_and_capacity<T>(
    waiting: Seq<WorkItem<T>>,
    work: WorkItem<T>,
    capacity: int,
    closed: bool,
    shutdown: bool,
    now: u64,
)
    requires
        in_order(waiting),
        forall|i: int| 0 <= i < waiting.len() ==> (#[trigger] waiting[i]).deadline <= work.deadline,
        may_enter(waiting.len() as int, capacity, closed, shutdown),
        entering(closed, shutdown, work.deadline, now) is Queued,
    ensures
        in_order(waiting.push(work)),
        waiting.push(work).len() <= capacity,
{
}

/// A closed queue turns every connection away.
pub proof fn closed_queues_turn_connections_away(shutdown: bool, deadline: u64, now: u64)
    ensures
        entering(true, shutdown, deadline, now) is Refused,
{
}

/// A connection is turned away when the queue is closed or the server stops; else it is dropped
/// when its time is over, and waits when it is not.
pub proof fn connections_enter_in_time(closed: bool, shutdown: bool, deadline: u64, now: u64)
    ensures
        entering(closed, shutdown, deadline, now) is Refused <==> closed || shutdown,
        entering(closed, shutdown, deadline, now) is Expired <==> !closed && !shutdown && deadline
            <= now,
        entering(closed, shutdown, deadline, now) is Queued <==> !closed && !shutdown && now
            < deadline,
{
}

/// A connection waits outside exactly as long as the queue is full and neither it is closed nor the
/// server stops.
pub proof fn full_queues_keep_connections_out(
    len: int,
    capacity: int,
    closed: bool,
    shutdown: bool,
)
    ensures
        !may_enter(len, capacity, closed, shutdown) <==> len >= capacity && !closed && !shutdown,
{
}

/// Connections are handed out in the order in which they came: the first whose time is not over,
/// before all that came behind it, which keep their order. One that enters comes behind all others.
pub proof fn first_come_first_served<T>(
    gone: Seq<WorkItem<T>>,
    first: WorkItem<T>,
    others: Seq<WorkItem<T>>,
    work: WorkItem<T>,
    closed: bool,
    now: u64,
)
    requires
        forall|i: int| 0 <= i < gone.len() ==> (#[trigger] gone[i]).deadline <= now,
        now < first.deadline,
    ensures
        handed_out(gone + seq![first] + others, closed, now) == Taken::Work(first),
        left_waiting(gone + seq![first] + others, now) == others,
        joined_by(others, work, Entered::Queued) == others + seq![work],
        joined_by(others, work, Entered::Refused) == others,
        joined_by(others, work, Entered::Expired) == others,
{
    let waiting = gone + seq![first] + others;
    lemma_live_from(gone, seq![first] + others, now);
    assert(waiting =~= gone + (seq![first] + others));
    assert((seq![first] + others).drop_first() =~= others);
    assert(others.push(work) =~= others + seq![work]);
}

proof fn lemma_live_from<T>(gone: Seq<WorkItem<T>>, rest: Seq<WorkItem<T>>, now: u64)
    requires
        forall|i: int| 0 <= i < gone.len() ==> (#[trigger] gone[i]).deadline <= now,
        rest.len() > 0 ==> now < rest[0].deadline,
    ensures
        live(gone + rest, now) == rest,
    decreases gone.len(),
{
    let whole = gone + rest;
    if gone.len() == 0 {
        assert(whole =~= rest);
    } else {
        let fewer = gone.drop_first();
        assert(gone[0].deadline <= now);
        assert forall|i: int| 0 <= i < fewer.len() implies (#[trigger] fewer[i]).deadline <= now by {
            assert(fewer[i] == gone[i + 1]);
        }
        lemma_live_from(fewer, rest, now);
        assert(whole.drop_first() =~= fewer + rest);
    }
}

/// Without a connection whose time is not over, workers wait, or stop once the queue is closed.
pub proof fn workers_stop_when_the_queue_is_closed<T>(gone: Seq<WorkItem<T>>, now: u64)
    requires
        forall|i: int| 0 <= i < gone.len() ==> (#[trigger] gone[i]).deadline <= now,
    ensures
        handed_out(gone, true, now) is Finished,
        handed_out(gone, false, now) is Wait,
        left_waiting(gone, now) == Seq::<WorkItem<T>>::empty(),
{
    let none = Seq::<WorkItem<T>>::empty();
    lemma_live_from(gone, none, now);
    assert(gone + none =~= gone);
}

} // verus!
