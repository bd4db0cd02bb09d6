//! Responses: status codes, the head of a response and the clock behind its date.

use std::time::UNIX_EPOCH;

use vstd::prelude::*;
use vstd::slice::*;
use vstd::utf8::*;

use crate::date;
use crate::date::http_date;
use crate::text;
use crate::text::push_decimal;

verus! {

/// The status of a response.
#[derive(Clone, Copy, Debug, PartialEq, Eq, Structural)]
pub enum Status {
    Okay,
    NotModified,
    BadRequest,
    NotFound,
    MethodNotAllowed,
    RequestTimeout,
    HeaderTooLarge,
    InternalServerError,
}

/// The number of a status.
pub open spec fn status_code(status: Status) -> u16 {
    match status {
        Status::Okay => 200,
        Status::NotModified => 304,
        Status::BadRequest => 400,
        Status::NotFound => 404,
        Status::MethodNotAllowed => 405,
        Status::RequestTimeout => 408,
        Status::HeaderTooLarge => 431,
        Status::InternalServerError => 500,
    }
}

/// The words of a status.
pub open spec fn status_reason(status: Status) -> Seq<char> {
    match status {
        Status::Okay => "OK"@,
        Status::NotModified => "Not Modified"@,
        Status::BadRequest => "Bad Request"@,
        Status::NotFound => "Not Found"@,
        Status::MethodNotAllowed => "Method Not Allowed"@,
        Status::RequestTimeout => "Request Timeout"@,
        Status::HeaderTooLarge => "Request Header Fields Too Large"@,
        Status::InternalServerError => "Internal Server Error"@,
    }
}

impl Status {
    /// The number of the status.
    pub fn code(self) -> (code: u16)
        ensures
            code == status_code(self),
    {
        match self {
            Status::Okay => 200,
            Status::NotModified => 304,
            Status::BadRequest => 400,
            Status::NotFound => 404,
            Status::MethodNotAllowed => 405,
            Status::RequestTimeout => 408,
            Status::HeaderTooLarge => 431,
            Status::InternalServerError => 500,
        }
    }

    /// The words of the status.
    pub fn reason(self) -> (reason: &'static str)
        ensures
            reason@ == status_reason(self),
    {
        match self {
            Status::Okay => "OK",
            Status::NotModified => "Not Modified",
            Status::BadRequest => "Bad Request",
            Status::NotFound => "Not Found",
            Status::MethodNotAllowed => "Method Not Allowed",
            Status::RequestTimeout => "Request Timeout",
            Status::HeaderTooLarge => "Request Header Fields Too Large",
            Status::InternalServerError => "Internal Server Error",
        }
    }
}

/// The texts of header names and values.
pub open spec fn texts(headers: Seq<(&str, &str)>) -> Seq<(Seq<char>, Seq<char>)> {
    headers.map_values(|header: (&str, &str)| (header.0@, header.1@))
}

/// The first line of a head.
pub open spec fn status_line(status: Status) -> Seq<char> {
    "HTTP/1.1 "@ + text::decimal(status_code(status) as nat) + " "@ + status_reason(status)
        + "\r\n"@
}

/// The line of one header field.
pub open spec fn field_line(field: (Seq<char>, Seq<char>)) -> Seq<char> {
    field.0 + ": "@ + field.1 + "\r\n"@
}

/// The lines of header fields.
pub open spec fn field_lines(fields: Seq<(Seq<char>, Seq<char>)>) -> Seq<char>
    decreases fields.len(),
{
    if fields.len() == 0 {
        seq![]
    } else {
        field_lines(fields.drop_last()) + field_line(fields.last())
    }
}

/// The fields that every head begins with.
pub open spec fn common_fields(content_length: u64, unix_seconds: i64) -> Seq<
    (Seq<char>, Seq<char>),
> {
    seq![
        ("Server"@, "statika"@),
        ("Connection"@, "close"@),
        ("X-Content-Type-Options"@, "nosniff"@),
        ("Date"@, date::http_date_text(unix_seconds as int)),
        ("Content-Length"@, text::decimal(content_length as nat)),
    ]
}

/// All fields of a head.
pub open spec fn head_fields(
    content_length: u64,
    content_type: Option<Seq<char>>,
    headers: Seq<(Seq<char>, Seq<char>)>,
    unix_seconds: i64,
) -> Seq<(Seq<char>, Seq<char>)> {
    let kind = match content_type {
        Some(kind) => seq![("Content-Type"@, kind)],
        None => seq![],
    };
    common_fields(content_length, unix_seconds) + kind + headers
}

/// The text of a head.
pub open spec fn head_text(
    status: Status,
    content_length: u64,
    content_type: Option<Seq<char>>,
    headers: Seq<(Seq<char>, Seq<char>)>,
    unix_seconds: i64,
) -> Seq<char> {
    status_line(status) + field_lines(
        head_fields(content_length, content_type, headers, unix_seconds),
    ) + "\r\n"@
}

/// The bytes of a head.
pub open spec fn head_bytes(
    status: Status,
    content_length: u64,
    content_type: Option<Seq<char>>,
    headers: Seq<(Seq<char>, Seq<char>)>,
    unix_seconds: i64,
) -> Seq<u8> {
    encode_utf8(head_text(status, content_length, content_type, headers, unix_seconds))
}

/// The text of something that may be absent.
pub open spec fn optional_text(text: Option<&str>) -> Option<Seq<char>> {
    match text {
        Some(text) => Some(text@),
        None => None,
    }
}

fn push_field(out: &mut String, name: &str, value: &str)
    ensures
        final(out)@ == old(out)@ + field_line((name@, value@)),
{
    out.append(name);
    out.append(": ");
    out.append(value);
    out.append("\r\n");
    assert(out@ =~= old(out)@ + field_line((name@, value@)));
}

proof fn lemma_field_lines_push(fields: Seq<(Seq<char>, Seq<char>)>, field: (Seq<char>, Seq<char>))
    ensures
        field_lines(fields.push(field)) == field_lines(fields) + field_line(field),
{
    assert(fields.push(field).drop_last() =~= fields);
}

/// The head of a response at the time of `unix_seconds`.
pub fn response_head_at(
    status: Status,
    content_length: u64,
    content_type: Option<&str>,
    headers: &[(&str, &str)],
    unix_seconds: i64,
) -> (head: Vec<u8>)
    ensures
        head@ == head_bytes(
            status,
            content_length,
            optional_text(content_type),
            texts(headers@),
            unix_seconds,
        ),
{
    let mut out = String::from_str("HTTP/1.1 ");
    push_decimal(&mut out, status.code() as u128);
    out.append(" ");
    out.append(status.reason());
    out.append("\r\n");
    let ghost first = out@;
    let ghost mut fields: Seq<(Seq<char>, Seq<char>)> = seq![];
    assert(first =~= first + field_lines(fields));

    push_field(&mut out, "Server", "statika");
    push_field(&mut out, "Connection", "close");
    push_field(&mut out, "X-Content-Type-Options", "nosniff");
    let date = http_date(unix_seconds);
    push_field(&mut out, "Date", date.as_str());
    let mut length = String::new();
    push_decimal(&mut length, content_length as u128);
    assert(length@ =~= text::decimal(content_length as nat));
    push_field(&mut out, "Content-Length", length.as_str());
    proof {
        let common = common_fields(content_length, unix_seconds);
        let one = fields.push(common[0]);
        let two = one.push(common[1]);
        let three = two.push(common[2]);
        let four = three.push(common[3]);
        lemma_field_lines_push(fields, common[0]);
        lemma_field_lines_push(one, common[1]);
        lemma_field_lines_push(two, common[2]);
        lemma_field_lines_push(three, common[3]);
        lemma_field_lines_push(four, common[4]);
        assert(four.push(common[4]) =~= common);
        assert(out@ =~= first + field_lines(common));
        fields = common;
    }

    if let Some(kind) = content_type {
        push_field(&mut out, "Content-Type", kind);
        proof {
            lemma_field_lines_push(fields, ("Content-Type"@, kind@));
            fields = fields.push(("Content-Type"@, kind@));
            assert(out@ =~= first + field_lines(fields));
        }
    }
    let ghost own = fields;
    assert(own + texts(headers@.take(0)) =~= own);
    for i in 0..headers.len()
        invariant
            out@ == first + field_lines(own + texts(headers@.take(i as int))),
    {
        let ghost before = texts(headers@.take(i as int));
        let (name, value) = headers[i];
        push_field(&mut out, name, value);
        proof {
            lemma_field_lines_push(own + before, (name@, value@));
            assert(texts(headers@.take(i + 1)) =~= before.push((name@, value@)));
            assert(own + texts(headers@.take(i + 1)) =~= (own + before).push((name@, value@)));
            assert(out@ =~= first + field_lines(own + texts(headers@.take(i + 1))));
        }
    }
    assert(headers@.take(headers@.len() as int) =~= headers@);
    out.append("\r\n");
    proof {
        let whole = head_fields(
            content_length,
            optional_text(content_type),
            texts(headers@),
            unix_seconds,
        );
        assert(own + texts(headers@) =~= whole);
    }
    slice_to_vec(out.as_str().as_bytes())
}

/// The head of a response at the present time.
pub fn response_head(
    status: Status,
    content_length: u64,
    content_type: Option<&str>,
    headers: &[(&str, &str)],
) -> (head: Vec<u8>)
    ensures
        exists|unix_seconds: i64|
            unix_seconds >= 0 && head@ == #[trigger] head_bytes(
                status,
                content_length,
                optional_text(content_type),
                texts(headers@),
                unix_seconds,
            ),
{
    response_head_at(status, content_length, content_type, headers, now_unix_seconds())
}

/// Calls `SystemTime::elapsed` on the Unix epoch: the whole seconds from then to the present time
/// of the system clock, none when the clock shows an earlier time. Nothing is claimed of what the
/// clock shows.
#[verifier::external_body]
fn seconds_since_epoch() -> (elapsed: Option<u64>) {
    match UNIX_EPOCH.elapsed() {
        Ok(elapsed) => Some(elapsed.as_secs()),
        Err(_) => None,
    }
}

/// The Unix time in seconds for the whole seconds since the epoch; zero for a time before it.
pub open spec fn clock_seconds(since_epoch: Option<u64>) -> int {
    match since_epoch {
        Some(elapsed) => if elapsed <= i64::MAX {
            elapsed as int
        } else {
            i64::MAX as int
        },
        None => 0,
    }
}

/// The Unix time in seconds for the whole seconds since the epoch; zero for a time before it.
pub fn unix_seconds(since_epoch: Option<u64>) -> (seconds: i64)
    ensures
        seconds == clock_seconds(since_epoch),
{
    match since_epoch {
        Some(elapsed) => if elapsed <= i64::MAX as u64 {
            elapsed as i64
        } else {
            i64::MAX
        },
        None => 0,
    }
}

/// The present Unix time in seconds.
pub fn now_unix_seconds() -> (seconds: i64)
    ensures
        seconds >= 0,
{
    unix_seconds(seconds_since_epoch())
}

/// The statuses have their numbers and their words.
pub proof fn statuses_have_their_numbers_and_words()
    ensures
        status_code(Status::Okay) == 200 && status_reason(Status::Okay) == "OK"@,
        status_code(Status::NotModified) == 304 && status_reason(Status::NotModified)
            == "Not Modified"@,
        status_code(Status::BadRequest) == 400 && status_reason(Status::BadRequest)
            == "Bad Request"@,
        status_code(Status::NotFound) == 404 && status_reason(Status::NotFound) == "Not Found"@,
        status_code(Status::MethodNotAllowed) == 405 && status_reason(Status::MethodNotAllowed)
            == "Method Not Allowed"@,
        status_code(Status::RequestTimeout) == 408 && status_reason(Status::RequestTimeout)
            == "Request Timeout"@,
        status_code(Status::HeaderTooLarge) == 431 && status_reason(Status::HeaderTooLarge)
            == "Request Header Fields Too Large"@,
        status_code(Status::InternalServerError) == 500 && status_reason(
            Status::InternalServerError,
        ) == "Internal Server Error"@,
{
}

/// Each field is written on a line of its own, in their order: the name, a colon, a space, the
/// value and a line end.
pub proof fn fields_are_written_line_by_line(
    fields: Seq<(Seq<char>, Seq<char>)>,
    name: Seq<char>,
    value: Seq<char>,
)
    ensures
        field_lines(Seq::<(Seq<char>, Seq<char>)>::empty()) == Seq::<char>::empty(),
        field_lines(fields.push((name, value))) == field_lines(fields) + name + seq![':', ' ']
            + value + seq!['\r', '\n'],
{
    reveal_strlit(": ");
    reveal_strlit("\r\n");
    assert(": "@ =~= seq![':', ' ']);
    assert("\r\n"@ =~= seq!['\r', '\n']);
    lemma_field_lines_push(fields, (name, value));
    assert(field_lines(fields.push((name, value))) =~= field_lines(fields) + name + seq![':', ' ']
        + value + seq!['\r', '\n']);
}

/// The clock is taken as it is, but never before the epoch nor behind the last second that can be
/// counted.
pub proof fn clocks_are_taken_as_they_are(elapsed: u64)
    ensures
        clock_seconds(None) == 0,
        elapsed <= 9_223_372_036_854_775_807 ==> clock_seconds(Some(elapsed)) == elapsed,
        elapsed > 9_223_372_036_854_775_807 ==> clock_seconds(Some(elapsed))
            == 9_223_372_036_854_775_807,
{
}

} // verus!
