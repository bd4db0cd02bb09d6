//! Waiting for sockets, writing to them and sending files: what to do with each outcome of a call
//! to the operating system.

use vstd::prelude::*;

use crate::error;
use crate::error::{ErrorKind, IoError};

verus! {

/// The most bytes that one call sends from a file.
pub const MAX_SENDFILE_CHUNK: u64 = 1_073_741_824;

/// The most bytes that are read from a file at once where the system cannot send from it.
pub const FALLBACK_BUFFER_SIZE: u64 = 65_536;

/// The nanoseconds of a millisecond.
pub const NANOS_PER_MILLI: u64 = 1_000_000;

/// A duration of `nanos` nanoseconds in milliseconds, rounded up.
pub open spec fn ceil_millis(nanos: int) -> int {
    (nanos + 999_999) / 1_000_000
}

/// A duration of `nanos` nanoseconds in milliseconds, rounded up.
pub fn duration_ms_ceil(nanos: u64) -> (millis: u64)
    ensures
        millis == ceil_millis(nanos as int),
{
    if nanos % NANOS_PER_MILLI == 0 {
        nanos / NANOS_PER_MILLI
    } else {
        nanos / NANOS_PER_MILLI + 1
    }
}

/// The error of an operation that took too long.
pub open spec fn timed_out() -> error::IoErrorModel {
    error::own_error(ErrorKind::TimedOut, "operation timed out"@)
}

/// How many milliseconds to wait at most, at the time `now`, for what has to happen before
/// `deadline`, both in nanoseconds; none when the deadline has come.
pub open spec fn wait_for(deadline: int, now: int) -> Option<int> {
    if now >= deadline {
        None
    } else if ceil_millis(deadline - now) <= i32::MAX {
        Some(ceil_millis(deadline - now))
    } else {
        Some(i32::MAX as int)
    }
}

/// How many milliseconds to wait at most, at the time `now`, for what has to happen before
/// `deadline`, both in nanoseconds; the error when the deadline has come.
pub fn timeout_ms(deadline: u64, now: u64) -> (millis: Result<i32, IoError>)
    ensures
        match wait_for(deadline as int, now as int) {
            Some(wait) => millis matches Ok(m) && m == wait,
            None => millis matches Err(e) && e@ == timed_out(),
        },
{
    if now >= deadline {
        return Err(IoError::new(ErrorKind::TimedOut, "operation timed out"));
    }
    let millis = duration_ms_ceil(deadline - now);
    if millis <= i32::MAX as u64 {
        Ok(millis as i32)
    } else {
        Ok(i32::MAX)
    }
}

/// A wait is never zero, never ends before the deadline, and ends less than a millisecond behind
/// it.
pub proof fn waits_reach_the_deadline(nanos: int)
    requires
        0 < nanos,
    ensures
        ceil_millis(nanos) >= 1,
        nanos <= ceil_millis(nanos) * 1_000_000 < nanos + 1_000_000,
{
}

/// What a wait for a socket ended with.
#[derive(Debug)]
pub enum PollEvent {
    /// Something happened to the socket.
    Woken { revents: i16 },
    /// Nothing happened in time.
    Expired,
    Failed(IoError),
}

/// What to do behind a wait for a socket.
#[derive(Debug)]
pub enum PollStep {
    Ready,
    Again,
    Fail(IoError),
}

/// What a [`PollEvent`] holds.
pub enum PollEventModel {
    Woken(i16),
    Expired,
    Failed(error::IoErrorModel),
}

/// What a [`PollStep`] holds.
pub enum PollModel {
    Ready,
    Again,
    Fail(error::IoErrorModel),
}

impl View for PollEvent {
    type V = PollEventModel;

    open spec fn view(&self) -> PollEventModel {
        match self {
            PollEvent::Woken { revents } => PollEventModel::Woken(*revents),
            PollEvent::Expired => PollEventModel::Expired,
            PollEvent::Failed(error) => PollEventModel::Failed(error@),
        }
    }
}

impl View for PollStep {
    type V = PollModel;

    open spec fn view(&self) -> PollModel {
        match self {
            PollStep::Ready => PollModel::Ready,
            PollStep::Again => PollModel::Again,
            PollStep::Fail(error) => PollModel::Fail(error@),
        }
    }
}

/// The flags by which a wait reports that a socket is of no more use.
pub struct PollFaults {
    pub error: i16,
    pub hang_up: i16,
    pub invalid: i16,
}

/// The constants `libc::POLLERR`, `libc::POLLHUP` and `libc::POLLNVAL`. Their numbers are claimed,
/// which are the same on all Linux targets of the crate.
#[verifier::external_body]
fn poll_faults() -> (faults: PollFaults)
    ensures
        faults.error == 8,
        faults.hang_up == 16,
        faults.invalid == 32,
{
    PollFaults { error: libc::POLLERR, hang_up: libc::POLLHUP, invalid: libc::POLLNVAL }
}

/// Whether the flags report that the socket is of no more use.
pub open spec fn faulty(revents: i16) -> bool {
    revents & 8i16 != 0 || revents & 16i16 != 0 || revents & 32i16 != 0
}

/// What to do behind a wait for one of `events`.
pub open spec fn after_poll(event: PollEventModel, events: i16) -> PollModel {
    match event {
        PollEventModel::Woken(revents) => if revents & events != 0 {
            PollModel::Ready
        } else if faulty(revents) {
            PollModel::Fail(error::own_error(ErrorKind::BrokenPipe, "socket closed"@))
        } else {
            PollModel::Again
        },
        PollEventModel::Expired => PollModel::Fail(timed_out()),
        PollEventModel::Failed(error) => if error.kind is Interrupted {
            PollModel::Again
        } else {
            PollModel::Fail(error)
        },
    }
}

/// What to do behind a wait for one of `events`.
pub fn poll_step(event: PollEvent, events: i16) -> (step: PollStep)
    ensures
        step@ == after_poll(event@, events),
{
    match event {
        PollEvent::Woken { revents } => {
            let faults = poll_faults();
            if revents & events != 0 {
                PollStep::Ready
            } else if revents & faults.error != 0 || revents & faults.hang_up != 0 || revents
                & faults.invalid != 0 {
                PollStep::Fail(IoError::new(ErrorKind::BrokenPipe, "socket closed"))
            } else {
                PollStep::Again
            }
        },
        PollEvent::Expired => PollStep::Fail(
            IoError::new(ErrorKind::TimedOut, "operation timed out"),
        ),
        PollEvent::Failed(error) => match error.kind {
            ErrorKind::Interrupted => PollStep::Again,
            _ => PollStep::Fail(error),
        },
    }
}

/// What a write to a socket, or a transfer to it, ended with.
#[derive(Debug)]
pub enum TransferEvent {
    /// So many bytes were taken.
    Moved(usize),
    Failed(IoError),
}

/// What to do behind a write or a transfer.
#[derive(Debug)]
pub enum TransferStep {
    /// Go on with what is left, if anything is.
    Continue,
    /// Wait until the socket takes more, then go on.
    Wait,
    /// Go on by reading from the file and writing to the socket.
    Copy,
    Fail(IoError),
}

/// What a [`TransferEvent`] holds.
pub enum TransferEventModel {
    Moved(int),
    Failed(error::IoErrorModel),
}

/// What a [`TransferStep`] holds.
pub enum TransferModel {
    Continue,
    Wait,
    Copy,
    Fail(error::IoErrorModel),
}

impl View for TransferEvent {
    type V = TransferEventModel;

    open spec fn view(&self) -> TransferEventModel {
        match self {
            TransferEvent::Moved(count) => TransferEventModel::Moved(*count as int),
            TransferEvent::Failed(error) => TransferEventModel::Failed(error@),
        }
    }
}

impl View for TransferStep {
    type V = TransferModel;

    open spec fn view(&self) -> TransferModel {
        match self {
            TransferStep::Continue => TransferModel::Continue,
            TransferStep::Wait => TransferModel::Wait,
            TransferStep::Copy => TransferModel::Copy,
            TransferStep::Fail(error) => TransferModel::Fail(error@),
        }
    }
}

/// What to do behind a write.
pub open spec fn after_write(event: TransferEventModel) -> TransferModel {
    match event {
        TransferEventModel::Moved(count) => if count == 0 {
            TransferModel::Fail(error::own_error(ErrorKind::WriteZero, "socket closed"@))
        } else {
            TransferModel::Continue
        },
        TransferEventModel::Failed(error) => match error.kind {
            ErrorKind::Interrupted => TransferModel::Continue,
            ErrorKind::WouldBlock => TransferModel::Wait,
            _ => TransferModel::Fail(error),
        },
    }
}

/// How many bytes an outcome moved.
pub open spec fn moved(event: TransferEventModel) -> int {
    match event {
        TransferEventModel::Moved(count) => count,
        TransferEventModel::Failed(_) => 0,
    }
}

/// The progress of writing bytes to a socket.
#[derive(Debug)]
pub struct Writing {
    pub length: usize,
    pub written: usize,
}

impl Writing {
    /// Whether no more is counted as written than there is.
    pub open spec fn valid(self) -> bool {
        self.written <= self.length
    }

    /// The start of writing `length` bytes.
    pub fn new(length: usize) -> (writing: Writing)
        ensures
            writing.valid(),
            writing.length == length,
            writing.written == 0,
    {
        Writing { length, written: 0 }
    }

    /// Whether everything is written.
    pub fn is_done(&self) -> (done: bool)
        requires
            self.valid(),
        ensures
            done == (self.written == self.length),
    {
        self.written >= self.length
    }

    /// Takes the outcome of writing what is left.
    pub fn step(&mut self, event: TransferEvent) -> (step: TransferStep)
        requires
            old(self).valid(),
            moved(event@) <= old(self).length - old(self).written,
        ensures
            final(self).valid(),
            final(self).length == old(self).length,
            final(self).written == old(self).written + moved(event@),
            step@ == after_write(event@),
    {
        match event {
            TransferEvent::Moved(count) => {
                if count == 0 {
                    return TransferStep::Fail(IoError::new(ErrorKind::WriteZero, "socket closed"));
                }
                self.written = self.written + count;
                TransferStep::Continue
            },
            TransferEvent::Failed(error) => match error.kind {
                ErrorKind::Interrupted => TransferStep::Continue,
                ErrorKind::WouldBlock => TransferStep::Wait,
                _ => TransferStep::Fail(error),
            },
        }
    }
}

/// The numbers of the errors by which the system reports that it cannot send from a file.
pub struct SendfileCodes {
    pub invalid: i32,
    pub unsupported: i32,
}

/// The constants `libc::EINVAL` and `libc::ENOSYS`. Their numbers are claimed: 22 on all Linux
/// targets of the crate, and 38 on all but MIPS and SPARC.
#[verifier::external_body]
fn sendfile_codes() -> (codes: SendfileCodes)
    ensures
        codes.invalid == 22,
        codes.unsupported == 38,
{
    SendfileCodes { invalid: libc::EINVAL, unsupported: libc::ENOSYS }
}

/// Whether an error means that the system cannot send from the file.
pub open spec fn cannot_send(error: error::IoErrorModel) -> bool {
    error.code == Some(22i32) || error.code == Some(38i32)
}

/// Whether an error means that the file can still be sent by reading from it.
pub fn sendfile_can_fallback(error: &IoError) -> (yes: bool)
    ensures
        yes == cannot_send(error@),
{
    match error.code {
        Some(code) => {
            let codes = sendfile_codes();
            code == codes.invalid || code == codes.unsupported
        },
        None => false,
    }
}

/// The error of a file that became shorter while it was sent.
pub open spec fn truncated() -> error::IoErrorModel {
    error::own_error(ErrorKind::UnexpectedEof, "file changed while being sent"@)
}

/// What to do behind a transfer from a file.
pub open spec fn after_send(event: TransferEventModel) -> TransferModel {
    match event {
        TransferEventModel::Moved(count) => if count == 0 {
            TransferModel::Fail(truncated())
        } else {
            TransferModel::Continue
        },
        TransferEventModel::Failed(error) => match error.kind {
            ErrorKind::Interrupted => TransferModel::Continue,
            ErrorKind::WouldBlock => TransferModel::Wait,
            _ => if cannot_send(error) {
                TransferModel::Copy
            } else {
                TransferModel::Fail(error)
            },
        },
    }
}

/// The progress of sending the first bytes of a file.
#[derive(Debug)]
pub struct Sending {
    pub length: u64,
    pub sent: u64,
}

/// How many bytes to move at once when `left` bytes are left.
pub open spec fn chunk_size(left: int, most: int) -> int {
    if left <= 0 {
        0
    } else if left < most {
        left
    } else {
        most
    }
}

impl Sending {
    /// The start of sending `length` bytes.
    pub fn new(length: u64) -> (sending: Sending)
        ensures
            sending.length == length,
            sending.sent == 0,
    {
        Sending { length, sent: 0 }
    }

    /// Whether everything is sent.
    pub fn is_done(&self) -> (done: bool)
        ensures
            done == (self.sent >= self.length),
    {
        self.sent >= self.length
    }

    /// How many bytes to ask the system to send next.
    pub fn chunk(&self) -> (count: usize)
        ensures
            count == chunk_size(self.length - self.sent, MAX_SENDFILE_CHUNK as int),
    {
        Sending::bounded(self.length, self.sent, MAX_SENDFILE_CHUNK)
    }

    /// How many bytes to read from the file next where the system cannot send from it.
    pub fn read_chunk(&self) -> (count: usize)
        ensures
            count == chunk_size(self.length - self.sent, FALLBACK_BUFFER_SIZE as int),
    {
        Sending::bounded(self.length, self.sent, FALLBACK_BUFFER_SIZE)
    }

    fn bounded(length: u64, sent: u64, most: u64) -> (count: usize)
        requires
            most <= 0xffff_ffff,
        ensures
            count == chunk_size(length - sent, most as int),
    {
        if sent >= length {
            0
        } else if length - sent < most {
            (length - sent) as usize
        } else {
            most as usize
        }
    }

    /// Takes the outcome of sending.
    pub fn step(&mut self, event: TransferEvent) -> (step: TransferStep)
        requires
            old(self).sent + moved(event@) <= u64::MAX,
        ensures
            final(self).length == old(self).length,
            final(self).sent == old(self).sent + moved(event@),
            step@ == after_send(event@),
    {
        match event {
            TransferEvent::Moved(count) => {
                if count == 0 {
                    return TransferStep::Fail(
                        IoError::new(ErrorKind::UnexpectedEof, "file changed while being sent"),
                    );
                }
                self.sent = self.sent + count as u64;
                TransferStep::Continue
            },
            TransferEvent::Failed(error) => match error.kind {
                ErrorKind::Interrupted => TransferStep::Continue,
                ErrorKind::WouldBlock => TransferStep::Wait,
                _ => if sendfile_can_fallback(&error) {
                    TransferStep::Copy
                } else {
                    TransferStep::Fail(error)
                },
            },
        }
    }

    /// Takes the number of bytes that were read from the file and written to the socket; the error
    /// when there was nothing to read.
    pub fn copied(&mut self, count: usize) -> (error: Option<IoError>)
        requires
            old(self).sent + count <= u64::MAX,
        ensures
            final(self).length == old(self).length,
            final(self).sent == old(self).sent + count,
            error is Some <==> count == 0,
            error matches Some(e) ==> e@ == truncated(),
    {
        if count == 0 {
            return Some(IoError::new(ErrorKind::UnexpectedEof, "file changed while being sent"));
        }
        self.sent = self.sent + count as u64;
        None
    }
}

/// All bytes that were moved, over a run of outcomes.
pub open spec fn total_moved(events: Seq<TransferEventModel>) -> int
    decreases events.len(),
{
    if events.len() == 0 {
        0
    } else {
        total_moved(events.drop_last()) + moved(events.last())
    }
}

/// Whether each outcome moved no more than was asked for, with `most` bytes at once of `length`.
pub open spec fn within_chunks(events: Seq<TransferEventModel>, length: int, most: int) -> bool {
    forall|i: int|
        0 <= i < events.len() ==> 0 <= moved(#[trigger] events[i]) <= chunk_size(
            length - total_moved(events.take(i)),
            most,
        )
}

/// Where the system never moves more than it is asked for, no more than the whole is ever moved,
/// and nothing is left to ask for exactly when all of it has been.
pub proof fn transfers_never_overshoot(
    events: Seq<TransferEventModel>,
    length: int,
    most: int,
)
    requires
        0 <= length,
        0 < most,
        within_chunks(events, length, most),
    ensures
        0 <= total_moved(events) <= length,
        chunk_size(length - total_moved(events), most) == 0 <==> total_moved(events) == length,
    decreases events.len(),
{
    if events.len() > 0 {
        let before = events.drop_last();
        assert(events.take(events.len() - 1) =~= before);
        assert forall|i: int| 0 <= i < before.len() implies 0 <= moved(#[trigger] before[i])
            <= chunk_size(length - total_moved(before.take(i)), most) by {
            assert(before[i] == events[i]);
            assert(before.take(i) =~= events.take(i));
        }
        transfers_never_overshoot(before, length, most);
        assert(moved(events[events.len() - 1]) <= chunk_size(
            length - total_moved(events.take(events.len() - 1)),
            most,
        ));
    }
}

/// As much is moved at once as is left, but no more than is allowed.
pub proof fn chunks_are_as_large_as_can_be(left: int, most: int)
    requires
        0 <= left,
        0 < most,
    ensures
        chunk_size(left, most) <= left,
        chunk_size(left, most) <= most,
        chunk_size(left, most) == left || chunk_size(left, most) == most,
        chunk_size(-1, most) == 0,
{
}

/// A wait is over as soon as anything that was waited for happens, whatever else did; else it fails
/// when the socket is of no more use, when nothing happened in time, or for the reason that the
/// system gives, and is made again when nothing of this is so or when it was interrupted.
pub proof fn waits_end_with_what_was_waited_for(
    revents: i16,
    events: i16,
    error: error::IoErrorModel,
)
    ensures
        revents & events != 0 ==> after_poll(PollEventModel::Woken(revents), events) is Ready,
        revents & events == 0 && (revents & 8i16 != 0 || revents & 16i16 != 0 || revents & 32i16
            != 0) ==> (after_poll(PollEventModel::Woken(revents), events) matches PollModel::Fail(e)
            && e.kind is BrokenPipe && e.message == "socket closed"@ && e.code is None),
        revents & events == 0 && revents & 8i16 == 0 && revents & 16i16 == 0 && revents & 32i16 == 0
            ==> after_poll(PollEventModel::Woken(revents), events) is Again,
        after_poll(PollEventModel::Expired, events) matches PollModel::Fail(e) && e.kind is TimedOut
            && e.message == "operation timed out"@ && e.code is None,
        error.kind is Interrupted ==> after_poll(PollEventModel::Failed(error), events) is Again,
        error.kind !is Interrupted ==> after_poll(PollEventModel::Failed(error), events)
            == PollModel::Fail(error),
{
}

/// A write or a transfer goes on when it moved anything or was interrupted, waits when it would
/// block, and fails otherwise; a transfer that the system cannot make from the file goes on by
/// copying. What failed moved nothing.
pub proof fn transfers_go_on_or_fail(count: int, error: error::IoErrorModel)
    requires
        count > 0,
    ensures
        after_write(TransferEventModel::Moved(count)) is Continue,
        after_send(TransferEventModel::Moved(count)) is Continue,
        moved(TransferEventModel::Moved(count)) == count,
        moved(TransferEventModel::Failed(error)) == 0,
        after_write(TransferEventModel::Moved(0)) matches TransferModel::Fail(e) && e.kind
            is WriteZero && e.message == "socket closed"@,
        after_send(TransferEventModel::Moved(0)) matches TransferModel::Fail(e) && e.kind
            is UnexpectedEof && e.message == "file changed while being sent"@,
        ({
            let event = TransferEventModel::Failed(error);
            match error.kind {
                ErrorKind::Interrupted => after_write(event) is Continue && after_send(event)
                    is Continue,
                ErrorKind::WouldBlock => after_write(event) is Wait && after_send(event) is Wait,
                _ => {
                    &&& after_write(event) == TransferModel::Fail(error)
                    &&& after_send(event) == if error.code == Some(22i32) || error.code == Some(
                        38i32,
                    ) {
                        TransferModel::Copy
                    } else {
                        TransferModel::Fail(error)
                    }
                },
            }
        }),
{
}

/// There is a wait exactly as long as the deadline has not come. It lasts at least until then, less
/// than a millisecond longer, and never more milliseconds than can be asked for.
pub proof fn waits_last_until_the_deadline(deadline: int, now: int)
    ensures
        wait_for(deadline, now) is Some <==> now < deadline,
        wait_for(deadline, now) matches Some(millis) ==> {
            &&& 1 <= millis <= 2_147_483_647
            &&& now + millis * 1_000_000 < deadline + 1_000_000
            &&& millis < 2_147_483_647 ==> now + millis * 1_000_000 >= deadline
        },
{
}

/// The error of a wait that took too long, and of a file that became shorter.
pub proof fn own_errors_are_these()
    ensures
        timed_out().kind is TimedOut && timed_out().code is None && timed_out().message
            == "operation timed out"@,
        truncated().kind is UnexpectedEof && truncated().code is None && truncated().message
            == "file changed while being sent"@,
{
}

/// The system sends a gibibyte of a file at once at most, and 64 kibibytes are read at most where it
/// cannot; what is left is moved in as few pieces as that allows.
pub proof fn pieces_have_these_limits(left: int)
    requires
        0 <= left,
    ensures
        chunk_size(left, MAX_SENDFILE_CHUNK as int) == if left <= 1_073_741_824 {
            left
        } else {
            1_073_741_824
        },
        chunk_size(left, FALLBACK_BUFFER_SIZE as int) == if left <= 65_536 {
            left
        } else {
            65_536
        },
{
}

} // verus!
