//! Running the server: accepting connections, pausing, stopping, and the errors that end it.

use vstd::prelude::*;

use crate::error;
use crate::error::{ErrorKind, IoError};
use crate::text::same_text;

verus! {

/// How long to wait at most before looking whether the server is to stop, in nanoseconds.
pub const ACCEPT_POLL_NANOS: u64 = 100_000_000;

/// How long to pause behind a passing error, in nanoseconds.
pub const ACCEPT_TRANSIENT_NANOS: u64 = 10_000_000;

/// How long to pause when descriptors have run out, in nanoseconds.
pub const ACCEPT_RESOURCE_NANOS: u64 = 100_000_000;

/// The nanoseconds of a second.
pub const NANOS_PER_SECOND: u64 = 1_000_000_000;

/// Why the server ended.
#[derive(Debug)]
pub enum ServerError {
    Io(IoError),
    ShutdownTimeout,
    WorkerPanic,
}

/// What a [`ServerError`] holds.
pub enum ServerProblem {
    Io(error::IoErrorModel),
    ShutdownTimeout,
    WorkerPanic,
}

impl View for ServerError {
    type V = ServerProblem;

    open spec fn view(&self) -> ServerProblem {
        match self {
            ServerError::Io(error) => ServerProblem::Io(error@),
            ServerError::ShutdownTimeout => ServerProblem::ShutdownTimeout,
            ServerError::WorkerPanic => ServerProblem::WorkerPanic,
        }
    }
}

impl ServerError {
    /// The error in words.
    pub fn message(&self) -> (message: String)
        ensures
            message@ == match self@ {
                ServerProblem::Io(error) => error.message,
                ServerProblem::ShutdownTimeout => "workers did not stop before shutdown timeout"@,
                ServerProblem::WorkerPanic => "worker thread panicked"@,
            },
    {
        match self {
            ServerError::Io(error) => error.message.clone(),
            ServerError::ShutdownTimeout => String::from_str(
                "workers did not stop before shutdown timeout",
            ),
            ServerError::WorkerPanic => String::from_str("worker thread panicked"),
        }
    }
}

impl From<IoError> for ServerError {
    fn from(error: IoError) -> (result: ServerError) {
        ServerError::Io(error)
    }
}

impl vstd::std_specs::convert::FromSpecImpl<IoError> for ServerError {
    open spec fn obeys_from_spec() -> bool {
        true
    }

    open spec fn from_spec(error: IoError) -> ServerError {
        ServerError::Io(error)
    }
}

/// The numbers of the errors of accepting a connection that pass by themselves.
pub struct TransientCodes {
    pub network_down: i32,
    pub protocol: i32,
    pub no_protocol_option: i32,
    pub host_down: i32,
    pub no_network: i32,
    pub host_unreachable: i32,
    pub not_supported: i32,
    pub network_unreachable: i32,
    pub aborted: i32,
}

/// The numbers of the errors of accepting a connection for which no descriptor is left.
pub struct ExhaustionCodes {
    pub process: i32,
    pub system: i32,
}

/// The constants `libc::ENETDOWN`, `EPROTO`, `ENOPROTOOPT`, `EHOSTDOWN`, `ENONET`, `EHOSTUNREACH`,
/// `EOPNOTSUPP`, `ENETUNREACH` and `ECONNABORTED`. Their numbers are claimed, which are the same on
/// all Linux targets of the crate but MIPS and SPARC.
#[verifier::external_body]
fn transient_codes() -> (codes: TransientCodes)
    ensures
        codes.network_down == 100,
        codes.protocol == 71,
        codes.no_protocol_option == 92,
        codes.host_down == 112,
        codes.no_network == 64,
        codes.host_unreachable == 113,
        codes.not_supported == 95,
        codes.network_unreachable == 101,
        codes.aborted == 103,
{
    TransientCodes {
        network_down: libc::ENETDOWN,
        protocol: libc::EPROTO,
        no_protocol_option: libc::ENOPROTOOPT,
        host_down: libc::EHOSTDOWN,
        no_network: libc::ENONET,
        host_unreachable: libc::EHOSTUNREACH,
        not_supported: libc::EOPNOTSUPP,
        network_unreachable: libc::ENETUNREACH,
        aborted: libc::ECONNABORTED,
    }
}

/// The constants `libc::EMFILE` and `libc::ENFILE`. Their numbers are claimed, which are the same
/// on all Linux targets of the crate.
#[verifier::external_body]
fn exhaustion_codes() -> (codes: ExhaustionCodes)
    ensures
        codes.process == 24,
        codes.system == 23,
{
    ExhaustionCodes { process: libc::EMFILE, system: libc::ENFILE }
}

/// Whether an error of accepting a connection passes by itself.
pub open spec fn passes(error: error::IoErrorModel) -> bool {
    error.code matches Some(code) && (code == 64 || code == 71 || code == 92 || code == 95 || code
        == 100 || code == 101 || code == 103 || code == 112 || code == 113)
}

/// Whether an error of accepting a connection means that no descriptor is left.
pub open spec fn exhausted(error: error::IoErrorModel) -> bool {
    error.code matches Some(code) && (code == 23 || code == 24)
}

/// Whether an error of accepting a connection passes by itself.
pub fn is_transient_accept_error(error: &IoError) -> (yes: bool)
    ensures
        yes == passes(error@),
{
    match error.code {
        Some(code) => {
            let codes = transient_codes();
            code == codes.network_down || code == codes.protocol || code
                == codes.no_protocol_option || code == codes.host_down || code == codes.no_network
                || code == codes.host_unreachable || code == codes.not_supported || code
                == codes.network_unreachable || code == codes.aborted
        },
        None => false,
    }
}

/// Whether an error of accepting a connection means that no descriptor is left.
pub fn is_accept_resource_exhaustion(error: &IoError) -> (yes: bool)
    ensures
        yes == exhausted(error@),
{
    match error.code {
        Some(code) => {
            let codes = exhaustion_codes();
            code == codes.process || code == codes.system
        },
        None => false,
    }
}

/// What to do when no connection was accepted.
#[derive(Debug)]
pub enum AcceptStep {
    /// Accept again.
    Again,
    /// Wait so many nanoseconds at most for a connection, then accept again.
    Wait(u64),
    /// Pause for so many nanoseconds, then accept again.
    Pause(u64),
    /// Log the error, pause for so many nanoseconds, then accept again.
    Report(IoError, u64),
    /// Stop with the error.
    Stop(ServerError),
}

/// What an [`AcceptStep`] holds.
pub enum AcceptModel {
    Again,
    Wait(u64),
    Pause(u64),
    Report(error::IoErrorModel, u64),
    Stop(ServerProblem),
}

impl View for AcceptStep {
    type V = AcceptModel;

    open spec fn view(&self) -> AcceptModel {
        match self {
            AcceptStep::Again => AcceptModel::Again,
            AcceptStep::Wait(nanos) => AcceptModel::Wait(*nanos),
            AcceptStep::Pause(nanos) => AcceptModel::Pause(*nanos),
            AcceptStep::Report(error, nanos) => AcceptModel::Report(error@, *nanos),
            AcceptStep::Stop(error) => AcceptModel::Stop(error@),
        }
    }
}

/// What to do about an error of accepting a connection.
pub open spec fn after_accept_error(error: error::IoErrorModel) -> AcceptModel {
    if error.kind is Interrupted {
        AcceptModel::Again
    } else if error.kind is WouldBlock {
        AcceptModel::Wait(ACCEPT_POLL_NANOS)
    } else if passes(error) {
        AcceptModel::Pause(ACCEPT_TRANSIENT_NANOS)
    } else if exhausted(error) {
        AcceptModel::Report(error, ACCEPT_RESOURCE_NANOS)
    } else {
        AcceptModel::Stop(ServerProblem::Io(error))
    }
}

/// What to do about an error of accepting a connection.
pub fn accept_failed(error: IoError) -> (step: AcceptStep)
    ensures
        step@ == after_accept_error(error@),
{
    match error.kind {
        ErrorKind::Interrupted => AcceptStep::Again,
        ErrorKind::WouldBlock => AcceptStep::Wait(ACCEPT_POLL_NANOS),
        _ => if is_transient_accept_error(&error) {
            AcceptStep::Pause(ACCEPT_TRANSIENT_NANOS)
        } else if is_accept_resource_exhaustion(&error) {
            AcceptStep::Report(error, ACCEPT_RESOURCE_NANOS)
        } else {
            AcceptStep::Stop(ServerError::from(error))
        },
    }
}

/// What to do about an error of waiting for a connection.
pub open spec fn after_wait_error(error: error::IoErrorModel) -> AcceptModel {
    if error.kind is TimedOut || error.kind is Interrupted {
        AcceptModel::Again
    } else {
        AcceptModel::Stop(ServerProblem::Io(error))
    }
}

/// What to do about an error of waiting for a connection.
pub fn wait_failed(error: IoError) -> (step: AcceptStep)
    ensures
        step@ == after_wait_error(error@),
{
    match error.kind {
        ErrorKind::TimedOut | ErrorKind::Interrupted => AcceptStep::Again,
        _ => AcceptStep::Stop(ServerError::from(error)),
    }
}

/// The time `seconds` behind `start`, in nanoseconds, as far as it can be counted.
pub open spec fn later(start: int, seconds: int) -> int {
    let end = start + seconds * 1_000_000_000;
    if end <= u64::MAX {
        end
    } else {
        u64::MAX as int
    }
}

/// The time `seconds` behind `start`, in nanoseconds, as far as it can be counted.
pub fn deadline_after(start: u64, seconds: u64) -> (deadline: u64)
    ensures
        deadline == later(start as int, seconds as int),
{
    if seconds > u64::MAX / NANOS_PER_SECOND {
        return u64::MAX;
    }
    let nanos = seconds * NANOS_PER_SECOND;
    if nanos > u64::MAX - start {
        u64::MAX
    } else {
        start + nanos
    }
}

/// How long to sleep next, at the time `now`, in a pause until `deadline`: not at all when the
/// pause is over or the server is to stop, and never long without looking whether it is.
pub open spec fn pause_left(deadline: int, now: int, shutdown: bool) -> Option<int> {
    if shutdown || now >= deadline {
        None
    } else if deadline - now <= ACCEPT_POLL_NANOS {
        Some(deadline - now)
    } else {
        Some(ACCEPT_POLL_NANOS as int)
    }
}

/// How long to sleep next, at the time `now`, in a pause until `deadline`: not at all when the
/// pause is over or the server is to stop, and never long without looking whether it is.
pub fn sleep_step(deadline: u64, now: u64, shutdown: bool) -> (nanos: Option<u64>)
    ensures
        match pause_left(deadline as int, now as int, shutdown) {
            Some(left) => nanos matches Some(n) && n == left,
            None => nanos is None,
        },
{
    if shutdown || now >= deadline {
        return None;
    }
    let left = deadline - now;
    if left <= ACCEPT_POLL_NANOS {
        Some(left)
    } else {
        Some(ACCEPT_POLL_NANOS)
    }
}

/// Running out of descriptors does not end the server, nor does an error that passes by itself.
pub proof fn passing_errors_do_not_stop_the_server(error: error::IoErrorModel)
    requires
        passes(error) || exhausted(error),
    ensures
        after_accept_error(error) !is Stop,
{
}

/// The workers that are still awaited.
#[derive(Debug)]
pub struct Joining {
    completed: Vec<bool>,
    remaining: usize,
}

/// How many workers have not completed.
pub open spec fn incomplete(completed: Seq<bool>) -> nat
    decreases completed.len(),
{
    if completed.len() == 0 {
        0
    } else {
        incomplete(completed.drop_last()) + if completed.last() {
            0nat
        } else {
            1
        }
    }
}

/// What to do while workers stop.
#[derive(Clone, Copy, Debug, PartialEq, Eq, Structural)]
pub enum JoinStep {
    /// All of them have completed: join them.
    Join,
    /// Wait so many nanoseconds at most for one to complete.
    Wait(u64),
    /// Give up.
    Expired,
}

/// What to do at the time `now`, with these workers completed or not, when giving up at `deadline`.
pub open spec fn stopping(completed: Seq<bool>, deadline: u64, now: u64) -> JoinStep {
    if forall|i: int| 0 <= i < completed.len() ==> #[trigger] completed[i] {
        JoinStep::Join
    } else if now >= deadline {
        JoinStep::Expired
    } else {
        JoinStep::Wait((deadline - now) as u64)
    }
}

impl View for Joining {
    type V = Seq<bool>;

    /// Which workers have completed.
    closed spec fn view(&self) -> Seq<bool> {
        self.completed@
    }
}

proof fn lemma_incomplete_update(completed: Seq<bool>, i: int)
    requires
        0 <= i < completed.len(),
        !completed[i],
    ensures
        incomplete(completed) > 0,
        incomplete(completed.update(i, true)) == incomplete(completed) - 1,
    decreases completed.len(),
{
    let updated = completed.update(i, true);
    if i == completed.len() - 1 {
        assert(updated.drop_last() =~= completed.drop_last());
    } else {
        lemma_incomplete_update(completed.drop_last(), i);
        assert(updated.drop_last() =~= completed.drop_last().update(i, true));
    }
}

/// No worker is left exactly when all have completed.
pub proof fn nothing_is_left_when_all_completed(completed: Seq<bool>)
    ensures
        incomplete(completed) == 0 <==> forall|i: int|
            0 <= i < completed.len() ==> #[trigger] completed[i],
    decreases completed.len(),
{
    if completed.len() > 0 {
        let before = completed.drop_last();
        nothing_is_left_when_all_completed(before);
        if forall|i: int| 0 <= i < completed.len() ==> #[trigger] completed[i] {
            assert forall|i: int| 0 <= i < before.len() implies #[trigger] before[i] by {
                assert(completed[i]);
            }
        }
        if incomplete(completed) == 0 {
            assert forall|i: int| 0 <= i < completed.len() implies #[trigger] completed[i] by {
                if i < before.len() {
                    assert(before[i]);
                }
            }
        }
    }
}

impl Joining {
    #[verifier::type_invariant]
    pub closed spec fn counted(self) -> bool {
        self.remaining == incomplete(self.completed@)
    }

    /// None of so many workers has completed.
    pub fn new(workers: usize) -> (joining: Joining)
        ensures
            joining@ == Seq::new(workers as nat, |i: int| false),
    {
        let mut completed: Vec<bool> = Vec::new();
        for i in 0..workers
            invariant
                completed@.len() == i,
                forall|j: int| 0 <= j < i ==> !completed@[j],
                incomplete(completed@) == i,
        {
            let ghost before = completed@;
            completed.push(false);
            assert(completed@.drop_last() =~= before);
        }
        assert(completed@ =~= Seq::new(workers as nat, |i: int| false));
        Joining { completed, remaining: workers }
    }

    /// What to do, at the time `now`, when giving up at `deadline`.
    pub fn next(&self, deadline: u64, now: u64) -> (step: JoinStep)
        ensures
            step == stopping(self@, deadline, now),
    {
        proof {
            use_type_invariant(self);
            nothing_is_left_when_all_completed(self@);
        }
        if self.remaining == 0 {
            JoinStep::Join
        } else if now >= deadline {
            JoinStep::Expired
        } else {
            JoinStep::Wait(deadline - now)
        }
    }

    /// Takes the number of a worker that has completed. A number that no worker has, or whose
    /// worker has completed before, changes nothing.
    pub fn completed(self, worker: usize) -> (joining: Joining)
        ensures
            joining@ == if worker < self@.len() {
                self@.update(worker as int, true)
            } else {
                self@
            },
    {
        proof {
            use_type_invariant(&self);
        }
        if worker >= self.completed.len() || self.completed[worker] {
            assert(worker < self@.len() ==> self@.update(worker as int, true) =~= self@);
            return self;
        }
        proof {
            lemma_incomplete_update(self.completed@, worker as int);
        }
        let mut completed = self.completed;
        completed.set(worker, true);
        Joining { completed, remaining: self.remaining - 1 }
    }
}

/// What the server ends with: the error that ended the accepting of connections, else that of
/// stopping the workers, if there is one.
pub open spec fn outcome(
    accepting: Result<(), ServerError>,
    stopping: Result<(), ServerError>,
) -> Result<(), ServerError> {
    if accepting is Err {
        accepting
    } else {
        stopping
    }
}

/// What the server ends with: the error that ended the accepting of connections, else that of
/// stopping the workers, if there is one.
pub fn end_result(accepting: Result<(), ServerError>, stopping: Result<(), ServerError>) -> (result:
    Result<(), ServerError>)
    ensures
        result == outcome(accepting, stopping),
{
    match accepting {
        Err(error) => Err(error),
        Ok(()) => stopping,
    }
}

/// Whether the arguments ask for the version: nothing but `--version` or `-V`. `first` is the first
/// argument, if there is one and it is Unicode.
pub open spec fn asks_version(first: Option<Seq<char>>, more: bool) -> bool {
    !more && match first {
        Some(argument) => argument == "--version"@ || argument == "-V"@,
        None => false,
    }
}

/// Whether the arguments ask for the version: nothing but `--version` or `-V`. `first` is the first
/// argument, if there is one and it is Unicode.
pub fn is_version_request(first: Option<&str>, more: bool) -> (yes: bool)
    ensures
        yes == asks_version(
            match first {
                Some(argument) => Some(argument@),
                None => None,
            },
            more,
        ),
{
    match first {
        Some(argument) => (same_text(argument, "--version") || same_text(
            argument,
            "-V",
        )) && !more,
        None => false,
    }
}

/// What is printed for the version.
pub fn version_text() -> (version: &'static str)
    ensures
        version@ == "statika 0.3.4"@,
{
    "statika 0.3.4"
}

/// What is done about an error of accepting a connection: an interrupted accept is made again, one
/// that would block waits a tenth of a second at most, an error that passes by itself is followed
/// by a pause of a hundredth, one for want of descriptors is logged and followed by a pause of a
/// tenth, and every other ends the server.
pub proof fn accept_errors_are_told_apart(error: error::IoErrorModel, code: i32)
    requires
        error.code == Some(code),
    ensures
        ({
            let step = after_accept_error(error);
            match error.kind {
                ErrorKind::Interrupted => step is Again,
                ErrorKind::WouldBlock => step == AcceptModel::Wait(100_000_000),
                _ => if seq![64i32, 71, 92, 95, 100, 101, 103, 112, 113].contains(code) {
                    step == AcceptModel::Pause(10_000_000)
                } else if code == 23 || code == 24 {
                    step == AcceptModel::Report(error, 100_000_000)
                } else {
                    step == AcceptModel::Stop(ServerProblem::Io(error))
                },
            }
        }),
{
    let codes = seq![64i32, 71, 92, 95, 100, 101, 103, 112, 113];
    assert(codes[0] == 64 && codes[1] == 71 && codes[2] == 92 && codes[3] == 95 && codes[4] == 100
        && codes[5] == 101 && codes[6] == 103 && codes[7] == 112 && codes[8] == 113);
    if passes(error) {
        assert(codes.contains(code));
    }
}

/// An error of accepting that is not the system's ends the server, unless the accept was
/// interrupted or would block.
pub proof fn errors_without_a_number_stop_the_server(error: error::IoErrorModel)
    requires
        error.code is None,
        error.kind !is Interrupted,
        error.kind !is WouldBlock,
    ensures
        after_accept_error(error) == AcceptModel::Stop(ServerProblem::Io(error)),
{
}

/// A wait for a connection that was too long or interrupted is followed by another look; every
/// other error of it ends the server.
pub proof fn wait_errors_are_told_apart(error: error::IoErrorModel)
    ensures
        match error.kind {
            ErrorKind::TimedOut => after_wait_error(error) is Again,
            ErrorKind::Interrupted => after_wait_error(error) is Again,
            _ => after_wait_error(error) == AcceptModel::Stop(ServerProblem::Io(error)),
        },
{
}

/// A deadline lies its seconds behind the start, or at the end of what can be counted.
pub proof fn deadlines_lie_behind_their_start(start: int, seconds: int)
    requires
        0 <= start <= u64::MAX,
        0 <= seconds,
    ensures
        start <= later(start, seconds) <= u64::MAX,
        later(start, 0) == start,
        later(start, seconds) < u64::MAX ==> later(start, seconds) - start == seconds
            * 1_000_000_000,
        start + seconds * 1_000_000_000 <= u64::MAX ==> later(start, seconds) - start == seconds
            * 1_000_000_000,
{
}

/// A pause goes on exactly as long as its end has not come and the server is not to stop, and is
/// slept through in pieces of at most a tenth of a second that never reach behind its end.
pub proof fn pauses_end_in_time(deadline: int, now: int, shutdown: bool)
    ensures
        pause_left(deadline, now, true) is None,
        pause_left(deadline, now, false) is Some <==> now < deadline,
        pause_left(deadline, now, shutdown) matches Some(nanos) ==> {
            &&& 0 < nanos <= 100_000_000
            &&& now + nanos <= deadline
            &&& nanos == 100_000_000 || now + nanos == deadline
        },
{
}

/// The workers are joined as soon as all have completed, even behind the deadline; as long as one
/// has not, it is awaited until the deadline, and then no more.
pub proof fn workers_are_awaited_until_the_deadline(
    completed: Seq<bool>,
    worker: int,
    deadline: u64,
    now: u64,
)
    ensures
        !completed.contains(false) ==> stopping(completed, deadline, now) is Join,
        0 <= worker < completed.len() && !completed[worker] && now < deadline ==> stopping(
            completed,
            deadline,
            now,
        ) == JoinStep::Wait((deadline - now) as u64),
        0 <= worker < completed.len() && !completed[worker] && now >= deadline ==> stopping(
            completed,
            deadline,
            now,
        ) is Expired,
{
    if !completed.contains(false) {
        assert forall|i: int| 0 <= i < completed.len() implies #[trigger] completed[i] by {
            if !completed[i] {
                assert(completed.contains(completed[i]));
            }
        }
    }
}

/// The server ends well exactly when both accepting connections and stopping the workers did; of
/// two errors the first is reported.
pub proof fn the_first_error_is_reported(
    accepting: Result<(), ServerError>,
    stopping: Result<(), ServerError>,
)
    ensures
        outcome(accepting, stopping) is Ok <==> accepting is Ok && stopping is Ok,
        accepting is Err ==> outcome(accepting, stopping) == accepting,
        accepting is Ok ==> outcome(accepting, stopping) == stopping,
{
}

/// The version is asked for by a lone `--version` or `-V`, and by nothing else.
pub proof fn the_version_is_asked_for_alone(argument: Seq<char>, more: bool)
    ensures
        asks_version(
            Some(seq!['-', '-', 'v', 'e', 'r', 's', 'i', 'o', 'n']),
            false,
        ),
        asks_version(Some(seq!['-', 'V']), false),
        !asks_version(Some(argument), true),
        !asks_version(None, more),
        argument != seq!['-', '-', 'v', 'e', 'r', 's', 'i', 'o', 'n'] && argument != seq!['-', 'V']
            ==> !asks_version(Some(argument), more),
{
    reveal_strlit("--version");
    reveal_strlit("-V");
    assert("--version"@ =~= seq!['-', '-', 'v', 'e', 'r', 's', 'i', 'o', 'n']);
    assert("-V"@ =~= seq!['-', 'V']);
}

} // verus!
