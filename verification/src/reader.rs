//! Reading a request from a socket, chunk by chunk.

use vstd::prelude::*;
use vstd::slice::*;

use crate::bytes::{CR, LF};
use crate::error;
use crate::error::{ErrorKind, IoError};
use crate::http;
use crate::http::{parse_request, Request, RequestError};

verus! {

/// The longest header block that is read.
pub const MAX_HEADER_BYTES: usize = 16_384;

/// The most bytes that are read at once.
pub const READ_CHUNK_BYTES: usize = 1024;

/// Whether a blank line ends at the four bytes from `i` on: two line ends in a row.
pub open spec fn blank_line_at(s: Seq<u8>, i: int) -> bool {
    0 <= i && i + 4 <= s.len() && s[i] == CR && s[i + 1] == LF && s[i + 2] == CR && s[i + 3] == LF
}

/// Where the header block ends that begins the bytes: behind the first blank line.
pub open spec fn is_header_end(s: Seq<u8>, end: int) -> bool {
    blank_line_at(s, end - 4) && forall|i: int| 0 <= i < end - 4 ==> !#[trigger] blank_line_at(s, i)
}

/// Where the header block ends that begins the bytes, if they hold all of it.
pub open spec fn header_end(s: Seq<u8>) -> Option<int> {
    if exists|end: int| is_header_end(s, end) {
        Some(choose|end: int| is_header_end(s, end))
    } else {
        None
    }
}

pub(crate) proof fn lemma_header_end_is(s: Seq<u8>, end: int)
    requires
        is_header_end(s, end),
    ensures
        header_end(s) == Some(end),
{
    let found = choose|e: int| is_header_end(s, e);
    if found < end {
        assert(blank_line_at(s, found - 4));
    } else if end < found {
        assert(blank_line_at(s, end - 4));
    }
}

/// Finds the end of the header block.
pub fn find_header_end(bytes: &[u8]) -> (end: Option<usize>)
    ensures
        match header_end(bytes@) {
            Some(e) => end matches Some(found) && found == e && found <= bytes.len(),
            None => end is None,
        },
{
    let mut i: usize = 0;
    while i < bytes.len() && bytes.len() - i >= 4
        invariant
            i <= bytes.len(),
            forall|j: int| 0 <= j < i ==> !#[trigger] blank_line_at(bytes@, j),
        decreases bytes.len() - i,
    {
        if bytes[i] == CR && bytes[i + 1] == LF && bytes[i + 2] == CR && bytes[i + 3] == LF {
            assert(is_header_end(bytes@, i + 4));
            proof {
                lemma_header_end_is(bytes@, i + 4);
            }
            return Some(i + 4);
        }
        i = i + 1;
    }
    assert forall|end: int| !is_header_end(bytes@, end) by {
        if is_header_end(bytes@, end) {
            assert(blank_line_at(bytes@, end - 4));
        }
    }
    None
}

/// What a read from the socket ended with.
#[derive(Debug)]
pub enum ReadEvent<'a> {
    /// These bytes came: none when the client has closed its side.
    Data(&'a [u8]),
    Failed(IoError),
}

/// What to do behind a read.
#[derive(Debug)]
pub enum ReadStep {
    /// Read more.
    Read,
    /// Wait until there is something to read, then read it.
    Wait,
    Done(Result<Request, RequestError>),
}

/// What a [`ReadEvent`] holds.
pub enum ReadEventModel {
    Data(Seq<u8>),
    Failed(error::IoErrorModel),
}

/// What a [`ReadStep`] holds.
pub enum ReadModel {
    Read,
    Wait,
    Done(Result<http::RequestModel, http::Refusal>),
}

impl<'a> View for ReadEvent<'a> {
    type V = ReadEventModel;

    open spec fn view(&self) -> ReadEventModel {
        match self {
            ReadEvent::Data(chunk) => ReadEventModel::Data(chunk@),
            ReadEvent::Failed(error) => ReadEventModel::Failed(error@),
        }
    }
}

/// What an accepted or refused request holds.
pub open spec fn request_result(result: Result<Request, RequestError>) -> Result<
    http::RequestModel,
    http::Refusal,
> {
    match result {
        Ok(request) => Ok(request@),
        Err(error) => Err(error@),
    }
}

impl View for ReadStep {
    type V = ReadModel;

    open spec fn view(&self) -> ReadModel {
        match self {
            ReadStep::Read => ReadModel::Read,
            ReadStep::Wait => ReadModel::Wait,
            ReadStep::Done(result) => ReadModel::Done(request_result(*result)),
        }
    }
}

/// Why a request is refused whose reading failed.
pub open spec fn read_refusal(error: error::IoErrorModel) -> http::Refusal {
    if error.kind is TimedOut {
        http::Refusal::Timeout
    } else {
        http::Refusal::Io
    }
}

/// Why a request is refused whose reading failed.
pub fn map_io(error: &IoError) -> (refusal: RequestError)
    ensures
        refusal@ == read_refusal(error@),
{
    match error.kind {
        ErrorKind::TimedOut => RequestError::Timeout,
        _ => RequestError::Io,
    }
}

/// The bytes that are held behind a read, of those held before it.
pub open spec fn held_after(held: Seq<u8>, event: ReadEventModel) -> Seq<u8> {
    match event {
        ReadEventModel::Data(chunk) => if held.len() + chunk.len() > MAX_HEADER_BYTES {
            held
        } else {
            held + chunk
        },
        ReadEventModel::Failed(_) => held,
    }
}

/// What to do with the bytes that are held.
pub open spec fn with_held(held: Seq<u8>) -> ReadModel {
    match header_end(held) {
        Some(end) => ReadModel::Done(http::parsed_request(held.take(end))),
        None => if held.len() >= MAX_HEADER_BYTES {
            ReadModel::Done(Err(http::Refusal::HeaderTooLarge))
        } else {
            ReadModel::Read
        },
    }
}

/// What to do behind a read, with the bytes that were held before it.
pub open spec fn after_read(held: Seq<u8>, event: ReadEventModel) -> ReadModel {
    match event {
        ReadEventModel::Data(chunk) => if chunk.len() == 0 {
            ReadModel::Done(Err(http::Refusal::BadRequest))
        } else if held.len() + chunk.len() > MAX_HEADER_BYTES {
            ReadModel::Done(Err(http::Refusal::HeaderTooLarge))
        } else {
            with_held(held + chunk)
        },
        ReadEventModel::Failed(error) => match error.kind {
            ErrorKind::Interrupted => ReadModel::Read,
            ErrorKind::WouldBlock => ReadModel::Wait,
            _ => ReadModel::Done(Err(read_refusal(error))),
        },
    }
}

/// A request that is being read.
#[derive(Debug)]
pub struct RequestReader {
    held: Vec<u8>,
}

impl View for RequestReader {
    type V = Seq<u8>;

    /// The bytes that have come.
    closed spec fn view(&self) -> Seq<u8> {
        self.held@
    }
}

impl RequestReader {
    #[verifier::type_invariant]
    pub closed spec fn within_bounds(self) -> bool {
        self.held@.len() <= MAX_HEADER_BYTES
    }

    /// A request of which nothing has come yet.
    pub fn new() -> (reader: RequestReader)
        ensures
            reader@ == Seq::<u8>::empty(),
    {
        RequestReader { held: Vec::new() }
    }

    /// Takes the outcome of a read.
    pub fn step(self, event: ReadEvent) -> (next: (RequestReader, ReadStep))
        ensures
            next.0@ == held_after(self@, event@),
            next.1@ == after_read(self@, event@),
    {
        proof {
            use_type_invariant(&self);
        }
        match event {
            ReadEvent::Data(chunk) => {
                if chunk.len() == 0 {
                    assert(self@ + chunk@ =~= self@);
                    return (self, ReadStep::Done(Err(RequestError::BadRequest)));
                }
                if chunk.len() > MAX_HEADER_BYTES - self.held.len() {
                    return (self, ReadStep::Done(Err(RequestError::HeaderTooLarge)));
                }
                let mut held = self.held;
                held.extend_from_slice(chunk);
                assert(held@ =~= self@ + chunk@);
                let step = match find_header_end(held.as_slice()) {
                    Some(end) => {
                        let header = slice_subrange(held.as_slice(), 0, end);
                        assert(header@ =~= held@.take(end as int));
                        let request = parse_request(header);
                        assert(request_result(request) == http::parsed_request(header@));
                        ReadStep::Done(request)
                    },
                    None => if held.len() >= MAX_HEADER_BYTES {
                        ReadStep::Done(Err(RequestError::HeaderTooLarge))
                    } else {
                        ReadStep::Read
                    },
                };
                (RequestReader { held }, step)
            },
            ReadEvent::Failed(error) => {
                let step = match error.kind {
                    ErrorKind::Interrupted => ReadStep::Read,
                    ErrorKind::WouldBlock => ReadStep::Wait,
                    _ => ReadStep::Done(Err(map_io(&error))),
                };
                (self, step)
            },
        }
    }
}

/// More bytes behind a header block do not move its end, nor change what it holds.
pub proof fn later_bytes_do_not_move_the_header_end(s: Seq<u8>, more: Seq<u8>)
    requires
        header_end(s) is Some,
    ensures
        header_end(s + more) == header_end(s),
        (s + more).take(header_end(s)->0) == s.take(header_end(s)->0),
{
    let end = header_end(s)->0;
    assert(is_header_end(s, end));
    let whole = s + more;
    assert(blank_line_at(whole, end - 4));
    assert forall|i: int| 0 <= i < end - 4 implies !#[trigger] blank_line_at(whole, i) by {
        if blank_line_at(whole, i) {
            assert(blank_line_at(s, i));
        }
    }
    lemma_header_end_is(whole, end);
    assert(whole.take(end) =~= s.take(end));
}

/// All bytes of the chunks, one behind the other.
pub open spec fn all_bytes(chunks: Seq<Seq<u8>>) -> Seq<u8>
    decreases chunks.len(),
{
    if chunks.len() == 0 {
        seq![]
    } else {
        chunks[0] + all_bytes(chunks.skip(1))
    }
}

/// What there is to do when chunk behind chunk has come, or as soon as enough of them have.
pub open spec fn after_chunks(held: Seq<u8>, chunks: Seq<Seq<u8>>) -> ReadModel
    decreases chunks.len(),
{
    if chunks.len() == 0 {
        with_held(held)
    } else {
        let event = ReadEventModel::Data(chunks[0]);
        match after_read(held, event) {
            ReadModel::Read => after_chunks(held_after(held, event), chunks.skip(1)),
            other => other,
        }
    }
}

/// How the network cuts a request into pieces does not matter: as long as they fit, the bytes that
/// have come are taken as if they had come at once.
pub proof fn cutting_does_not_matter(held: Seq<u8>, chunks: Seq<Seq<u8>>)
    requires
        forall|i: int| 0 <= i < chunks.len() ==> (#[trigger] chunks[i]).len() > 0,
        held.len() + all_bytes(chunks).len() <= MAX_HEADER_BYTES,
    ensures
        after_chunks(held, chunks) == with_held(held + all_bytes(chunks)),
    decreases chunks.len(),
{
    if chunks.len() == 0 {
        assert(held + all_bytes(chunks) =~= held);
    } else {
        let rest = chunks.skip(1);
        let next = held + chunks[0];
        assert(chunks[0].len() > 0);
        assert(held + all_bytes(chunks) =~= next + all_bytes(rest));
        assert forall|i: int| 0 <= i < rest.len() implies (#[trigger] rest[i]).len() > 0 by {
            assert(rest[i] == chunks[i + 1]);
        }
        if with_held(next) is Read {
            cutting_does_not_matter(next, rest);
        } else if header_end(next) is Some {
            later_bytes_do_not_move_the_header_end(next, all_bytes(rest));
        } else {
            assert(all_bytes(rest).len() == 0);
            assert(next + all_bytes(rest) =~= next);
        }
    }
}

/// What is held never outgrows the bound, whatever comes.
pub proof fn held_bytes_are_bounded(held: Seq<u8>, event: ReadEventModel)
    requires
        held.len() <= MAX_HEADER_BYTES,
    ensures
        held_after(held, event).len() <= MAX_HEADER_BYTES,
{
}

/// The header block ends behind the first two line ends in a row.
pub proof fn the_first_blank_line_ends_the_header(s: Seq<u8>, at: int)
    requires
        0 <= at,
        at + 4 <= s.len(),
        s.subrange(at, at + 4) == seq![13u8, 10, 13, 10],
        forall|i: int|
            0 <= i < at ==> #[trigger] s.subrange(i, i + 4) != seq![13u8, 10, 13, 10],
    ensures
        header_end(s) == Some(at + 4),
{
    let found = s.subrange(at, at + 4);
    assert(found[0] == s[at] && found[1] == s[at + 1] && found[2] == s[at + 2] && found[3] == s[at
        + 3]);
    assert(blank_line_at(s, at));
    assert forall|i: int| 0 <= i < at implies !#[trigger] blank_line_at(s, i) by {
        if blank_line_at(s, i) {
            assert(s.subrange(i, i + 4) =~= seq![13u8, 10, 13, 10]);
        }
    }
    lemma_header_end_is(s, at + 4);
}

/// Without two line ends in a row the header block has not ended.
pub proof fn without_a_blank_line_the_header_goes_on(s: Seq<u8>)
    requires
        forall|i: int|
            0 <= i && i + 4 <= s.len() ==> #[trigger] s.subrange(i, i + 4) != seq![
                13u8,
                10,
                13,
                10,
            ],
    ensures
        header_end(s) is None,
{
    assert forall|end: int| !is_header_end(s, end) by {
        if is_header_end(s, end) {
            let i = end - 4;
            assert(blank_line_at(s, i));
            assert(s.subrange(i, i + 4) =~= seq![13u8, 10, 13, 10]);
        }
    }
}

/// At most 16384 bytes of a header block are read: as long as it has not ended and there are fewer,
/// more is read; then it is refused.
pub proof fn headers_have_a_limit(held: Seq<u8>, chunk: Seq<u8>)
    requires
        chunk.len() > 0,
        held.len() <= 16_384,
    ensures
        ({
            let whole = held + chunk;
            let step = after_read(held, ReadEventModel::Data(chunk));
            if whole.len() > 16_384 {
                step == ReadModel::Done(Err(http::Refusal::HeaderTooLarge))
            } else if header_end(whole) is Some {
                step == ReadModel::Done(http::parsed_request(whole.take(header_end(whole)->0)))
            } else if whole.len() == 16_384 {
                step == ReadModel::Done(Err(http::Refusal::HeaderTooLarge))
            } else {
                step is Read
            }
        }),
        held_after(held, ReadEventModel::Data(chunk)) == if held.len() + chunk.len() > 16_384 {
            held
        } else {
            held + chunk
        },
{
}

/// A client that closes its side before the header has ended is refused. An interrupted read is
/// made again, one that would block waits, one that takes too long ends the request, and so does
/// every other failure. None of them loses what is held.
pub proof fn reads_that_fail(held: Seq<u8>, error: error::IoErrorModel)
    ensures
        after_read(held, ReadEventModel::Data(Seq::empty())) == ReadModel::Done(
            Err(http::Refusal::BadRequest),
        ),
        ({
            let step = after_read(held, ReadEventModel::Failed(error));
            match error.kind {
                ErrorKind::Interrupted => step is Read,
                ErrorKind::WouldBlock => step is Wait,
                ErrorKind::TimedOut => step == ReadModel::Done(Err(http::Refusal::Timeout)),
                _ => step == ReadModel::Done(Err(http::Refusal::Io)),
            }
        }),
        held_after(held, ReadEventModel::Failed(error)) == held,
{
}

/// A header block that came whole, in however many pieces and with whatever behind it, is read as
/// the request that it holds.
pub proof fn whole_headers_are_read(header: Seq<u8>, more: Seq<u8>, chunks: Seq<Seq<u8>>)
    requires
        header_end(header) == Some(header.len() as int),
        all_bytes(chunks) == header + more,
        (header + more).len() <= 16_384,
        forall|i: int| 0 <= i < chunks.len() ==> (#[trigger] chunks[i]).len() > 0,
    ensures
        after_chunks(Seq::empty(), chunks) == ReadModel::Done(http::parsed_request(header)),
{
    let none = Seq::<u8>::empty();
    assert(none + all_bytes(chunks) =~= header + more);
    cutting_does_not_matter(none, chunks);
    later_bytes_do_not_move_the_header_end(header, more);
    assert(header.take(header.len() as int) =~= header);
}

} // verus!
