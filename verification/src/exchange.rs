//! One exchange with a client: from the request to the file that answers it, the response and what
//! is logged of it.
//!
//! An [`Exchange`] says what to do next. What came of it is handed to the state that it holds, which
//! gives the next [`Exchange`], until the outcome is known.

use vstd::prelude::*;
use vstd::slice::*;
use vstd::utf8::*;

use crate::bytes;
use crate::bytes::{copy_parts, equal_text, find, parts_start_with, DOT, QUESTION_MARK};
use crate::cache;
use crate::cache::{cache_control, etag, is_not_modified, FileMeta};
use crate::config;
use crate::config::{Config, Header};
use crate::date;
use crate::date::http_date;
use crate::encoding::AcceptedEncodings;
use crate::error;
use crate::error::IoError;
use crate::fs;
use crate::fs::{br_path, gzip_path, is_not_found};
use crate::http;
use crate::http::{Method, Request, RequestError};
use crate::mime;
use crate::mime::content_type;
use crate::reader;
use crate::response;
use crate::response::{response_head_at, Status};
use crate::target;
use crate::target::{decode_target, DecodedPath};
use crate::text;
use crate::text::{from_utf8_lossy, same_text};

verus! {

/// How long an error response may take at least, in nanoseconds.
pub const ERROR_RESPONSE_NANOS: u64 = 250_000_000;

/// The present: nanoseconds of a clock that never goes back, and seconds of Unix time.
#[derive(Clone, Copy, Debug, PartialEq, Eq, Structural)]
pub struct Clock {
    pub nanos: u64,
    pub unix_seconds: i64,
}

/// What became of a request, for the log.
#[derive(Debug)]
pub struct RequestOutcome {
    pub method: String,
    pub path: String,
    pub status: Status,
    pub bytes: u64,
    pub error: Option<&'static str>,
}

/// What a [`RequestOutcome`] holds.
#[verifier::ext_equal]
pub struct OutcomeModel {
    pub method: Seq<char>,
    pub path: Seq<char>,
    pub status: Status,
    pub bytes: u64,
    pub error: Option<Seq<char>>,
}

impl View for RequestOutcome {
    type V = OutcomeModel;

    open spec fn view(&self) -> OutcomeModel {
        OutcomeModel {
            method: self.method@,
            path: self.path@,
            status: self.status,
            bytes: self.bytes,
            error: response::optional_text(self.error),
        }
    }
}

impl RequestOutcome {
    /// The outcome of a request that was answered.
    pub fn new(method: String, path: String, status: Status, bytes: u64) -> (outcome:
        RequestOutcome)
        ensures
            outcome@ == (OutcomeModel {
                method: method@,
                path: path@,
                status,
                bytes,
                error: None,
            }),
    {
        RequestOutcome { method, path, status, bytes, error: None }
    }

    /// The outcome of a request that was refused, or whose answer did not arrive.
    pub fn error(method: String, path: String, status: Status, error: &'static str) -> (outcome:
        RequestOutcome)
        ensures
            outcome@ == failure(method@, path@, status, 0, error@),
    {
        RequestOutcome::error_with_bytes(method, path, status, 0, error)
    }

    /// The outcome of a request that was refused with so many bytes.
    pub fn error_with_bytes(
        method: String,
        path: String,
        status: Status,
        bytes: u64,
        error: &'static str,
    ) -> (outcome: RequestOutcome)
        ensures
            outcome@ == failure(method@, path@, status, bytes, error@),
    {
        RequestOutcome { method, path, status, bytes, error: Some(error) }
    }
}

/// The outcome of a request that was refused, or whose answer did not arrive.
pub open spec fn failure(
    method: Seq<char>,
    path: Seq<char>,
    status: Status,
    bytes: u64,
    error: Seq<char>,
) -> OutcomeModel {
    OutcomeModel { method, path, status, bytes, error: Some(error) }
}

/// In what form a file is served.
#[derive(Clone, Copy, Debug, PartialEq, Eq, Structural)]
pub enum RepresentationEncoding {
    Identity,
    Br,
    Gzip,
}

/// The `Content-Encoding` of a form.
pub open spec fn encoding_name(form: RepresentationEncoding) -> Option<Seq<char>> {
    match form {
        RepresentationEncoding::Identity => None,
        RepresentationEncoding::Br => Some("br"@),
        RepresentationEncoding::Gzip => Some("gzip"@),
    }
}

impl RepresentationEncoding {
    /// The `Content-Encoding` of the form.
    pub fn header_value(self) -> (value: Option<&'static str>)
        ensures
            response::optional_text(value) == encoding_name(self),
    {
        match self {
            RepresentationEncoding::Identity => None,
            RepresentationEncoding::Br => Some("br"),
            RepresentationEncoding::Gzip => Some("gzip"),
        }
    }
}

/// What follows the head of a response.
#[derive(Debug)]
pub enum Body {
    Nothing,
    Bytes(Vec<u8>),
    /// The first bytes of the file that was opened last, so many of them.
    File(u64),
}

/// What a [`Body`] holds.
pub enum BodyModel {
    Nothing,
    Bytes(Seq<u8>),
    File(u64),
}

impl View for Body {
    type V = BodyModel;

    open spec fn view(&self) -> BodyModel {
        match self {
            Body::Nothing => BodyModel::Nothing,
            Body::Bytes(bytes) => BodyModel::Bytes(bytes@),
            Body::File(length) => BodyModel::File(*length),
        }
    }
}

/// A response, and what is logged of it.
#[derive(Debug)]
pub struct Reply {
    pub method: String,
    pub path: String,
    pub status: Status,
    pub head: Vec<u8>,
    pub body: Body,
    pub deadline: u64,
    pub error: Option<&'static str>,
}

/// What a [`Reply`] holds.
#[verifier::ext_equal]
pub struct ReplyModel {
    pub method: Seq<char>,
    pub path: Seq<char>,
    pub status: Status,
    pub head: Seq<u8>,
    pub body: BodyModel,
    pub deadline: u64,
    pub error: Option<Seq<char>>,
}

impl View for Reply {
    type V = ReplyModel;

    open spec fn view(&self) -> ReplyModel {
        ReplyModel {
            method: self.method@,
            path: self.path@,
            status: self.status,
            head: self.head@,
            body: self.body@,
            deadline: self.deadline,
            error: response::optional_text(self.error),
        }
    }
}

/// Appends the configured headers.
pub fn append_extra_headers<'a>(
    headers: &mut Vec<(&'a str, &'a str)>,
    extra_headers: &'a [Header],
)
    ensures
        response::texts(final(headers)@) == response::texts(old(headers)@) + config::header_pairs(
            extra_headers@,
        ),
{
    let ghost before = headers@;
    assert(response::texts(before) + config::header_pairs(extra_headers@.take(0))
        =~= response::texts(before));
    for i in 0..extra_headers.len()
        invariant
            response::texts(headers@) == response::texts(before) + config::header_pairs(
                extra_headers@.take(i as int),
            ),
    {
        let ghost held = headers@;
        headers.push((extra_headers[i].name(), extra_headers[i].value()));
        assert(response::texts(headers@) =~= response::texts(held).push(extra_headers@[i as int]@));
        assert(config::header_pairs(extra_headers@.take(i + 1)) =~= config::header_pairs(
            extra_headers@.take(i as int),
        ).push(extra_headers@[i as int]@));
    }
    assert(extra_headers@.take(extra_headers@.len() as int) =~= extra_headers@);
}

/// The text that goes with an error.
pub open spec fn error_text(status: Status) -> Seq<char> {
    match status {
        Status::BadRequest => "bad request\n"@,
        Status::NotFound => "not found\n"@,
        Status::MethodNotAllowed => "method not allowed\n"@,
        Status::RequestTimeout => "request timeout\n"@,
        Status::HeaderTooLarge => "request headers too large\n"@,
        _ => "internal server error\n"@,
    }
}

/// The headers of an error response.
pub open spec fn error_headers(
    status: Status,
    extra: Seq<(Seq<char>, Seq<char>)>,
) -> Seq<(Seq<char>, Seq<char>)> {
    let allow = if status is MethodNotAllowed {
        seq![("Allow"@, "GET, HEAD"@)]
    } else {
        seq![]
    };
    seq![("Cache-Control"@, "no-store"@)] + allow + extra
}

/// Until when an error response may take: at least a quarter of a second from now.
pub open spec fn error_deadline(deadline: u64, now: u64) -> u64 {
    let least = if now <= u64::MAX - ERROR_RESPONSE_NANOS {
        (now + ERROR_RESPONSE_NANOS) as u64
    } else {
        u64::MAX
    };
    if deadline >= least {
        deadline
    } else {
        least
    }
}

/// The response to a request that is refused. The answer to `HEAD` has no body.
#[verifier::opaque]
pub open spec fn error_reply(
    deadline: u64,
    method: Seq<char>,
    path: Seq<char>,
    status: Status,
    error: Seq<char>,
    extra: Seq<(Seq<char>, Seq<char>)>,
    clock: Clock,
) -> ReplyModel {
    let body = encode_utf8(error_text(status));
    ReplyModel {
        method,
        path,
        status,
        head: response::head_bytes(
            status,
            body.len() as u64,
            Some("text/plain; charset=utf-8"@),
            error_headers(status, extra),
            clock.unix_seconds,
        ),
        body: if method == "HEAD"@ {
            BodyModel::Nothing
        } else {
            BodyModel::Bytes(body)
        },
        deadline: error_deadline(deadline, clock.nanos),
        error: Some(error),
    }
}

fn error_body(status: Status) -> (body: &'static str)
    ensures
        body@ == error_text(status),
{
    match status {
        Status::BadRequest => "bad request\n",
        Status::NotFound => "not found\n",
        Status::MethodNotAllowed => "method not allowed\n",
        Status::RequestTimeout => "request timeout\n",
        Status::HeaderTooLarge => "request headers too large\n",
        _ => "internal server error\n",
    }
}

/// The response to a request that is refused.
pub fn simple_error(
    deadline: u64,
    method: &str,
    path: &str,
    status: Status,
    error: &'static str,
    extra_headers: &[Header],
    clock: Clock,
) -> (reply: Reply)
    ensures
        reply@ == error_reply(
            deadline,
            method@,
            path@,
            status,
            error@,
            config::header_pairs(extra_headers@),
            clock,
        ),
{
    reveal(error_reply);
    let least = if clock.nanos <= u64::MAX - ERROR_RESPONSE_NANOS {
        clock.nanos + ERROR_RESPONSE_NANOS
    } else {
        u64::MAX
    };
    let body = error_body(status).as_bytes();
    let mut headers: Vec<(&str, &str)> = Vec::new();
    headers.push(("Cache-Control", "no-store"));
    if status == Status::MethodNotAllowed {
        headers.push(("Allow", "GET, HEAD"));
    }
    let ghost own = headers@;
    append_extra_headers(&mut headers, extra_headers);
    assert(response::texts(own) + config::header_pairs(extra_headers@) =~= error_headers(
        status,
        config::header_pairs(extra_headers@),
    ));
    let head = response_head_at(
        status,
        body.len() as u64,
        Some("text/plain; charset=utf-8"),
        headers.as_slice(),
        clock.unix_seconds,
    );
    let body = if same_text(method, "HEAD") {
        Body::Nothing
    } else {
        Body::Bytes(slice_to_vec(body))
    };
    Reply {
        method: String::from_str(method),
        path: String::from_str(path),
        status,
        head,
        body,
        deadline: if deadline >= least {
            deadline
        } else {
            least
        },
        error: Some(error),
    }
}

/// A response with a text as its body. The answer to `HEAD` has no body.
#[verifier::opaque]
pub open spec fn text_reply(
    deadline: u64,
    method: Method,
    path: Seq<char>,
    status: Status,
    body: Seq<char>,
    kind: Seq<char>,
    headers: Seq<(Seq<char>, Seq<char>)>,
    clock: Clock,
) -> ReplyModel {
    ReplyModel {
        method: http::method_name(method),
        path,
        status,
        head: response::head_bytes(
            status,
            encode_utf8(body).len() as u64,
            Some(kind),
            headers,
            clock.unix_seconds,
        ),
        body: if method is Head {
            BodyModel::Nothing
        } else {
            BodyModel::Bytes(encode_utf8(body))
        },
        deadline,
        error: None,
    }
}

/// The response to a health check.
pub open spec fn health_reply(
    deadline: u64,
    method: Method,
    path: Seq<char>,
    extra: Seq<(Seq<char>, Seq<char>)>,
    clock: Clock,
) -> ReplyModel {
    text_reply(
        deadline,
        method,
        path,
        Status::Okay,
        "ok\n"@,
        "text/plain; charset=utf-8"@,
        seq![("Cache-Control"@, "no-store"@)] + extra,
        clock,
    )
}

/// A response with a text as its body.
pub fn simple_response(
    deadline: u64,
    method: Method,
    path: &str,
    status: Status,
    body: &str,
    kind: &str,
    headers: &[(&str, &str)],
    extra_headers: &[Header],
    clock: Clock,
) -> (reply: Reply)
    ensures
        reply@ == text_reply(
            deadline,
            method,
            path@,
            status,
            body@,
            kind@,
            response::texts(headers@) + config::header_pairs(extra_headers@),
            clock,
        ),
{
    reveal(text_reply);
    let mut all: Vec<(&str, &str)> = Vec::new();
    for i in 0..headers.len()
        invariant
            all@ == headers@.take(i as int),
    {
        all.push(headers[i]);
        assert(headers@.take(i + 1) =~= headers@.take(i as int).push(headers@[i as int]));
    }
    assert(headers@.take(headers@.len() as int) =~= headers@);
    append_extra_headers(&mut all, extra_headers);
    let body = body.as_bytes();
    let head = response_head_at(
        status,
        body.len() as u64,
        Some(kind),
        all.as_slice(),
        clock.unix_seconds,
    );
    let body = match method {
        Method::Head => Body::Nothing,
        Method::Get => Body::Bytes(slice_to_vec(body)),
    };
    Reply {
        method: String::from_str(method.as_str()),
        path: String::from_str(path),
        status,
        head,
        body,
        deadline,
        error: None,
    }
}

/// The path of a target as it is logged: without the query.
pub open spec fn logged_path(target: Seq<u8>) -> Seq<char> {
    text::lossy(target::target_path(target))
}

/// The path of a target as it is logged: without the query.
pub fn request_path_for_log(target: &[u8]) -> (path: String)
    ensures
        path@ == logged_path(target@),
{
    let end = find(target, QUESTION_MARK);
    assert(target@.subrange(0, end as int) =~= target@.take(end as int));
    from_utf8_lossy(slice_subrange(target, 0, end))
}

/// Whether a path asks for the health of the server.
pub open spec fn health_path(path: Seq<Seq<u8>>) -> bool {
    path.len() == 1 && (path[0] == encode_utf8("health"@) || path[0] == encode_utf8("healthz"@))
}

/// Whether a path asks for the health of the server.
pub fn is_health_path(components: &[Vec<u8>]) -> (yes: bool)
    ensures
        yes == health_path(bytes::parts(components@)),
{
    components.len() == 1 && (equal_text(components[0].as_slice(), "health") || equal_text(
        components[0].as_slice(),
        "healthz",
    ))
}

/// Whether a path begins with the components of another.
pub fn starts_with_components(path: &[Vec<u8>], prefix: &[Vec<u8>]) -> (yes: bool)
    ensures
        yes == bytes::parts(prefix@).is_prefix_of(bytes::parts(path@)),
{
    parts_start_with(path, prefix)
}

/// Whether the component of this index is a dotfile, other than a leading `.well-known`.
pub open spec fn denied_component(path: Seq<Seq<u8>>, i: int) -> bool {
    path[i].len() > 0 && path[i][0] == DOT && !(i == 0 && path[i] == encode_utf8(".well-known"@))
}

/// Whether a path leads through a dotfile, other than a leading `.well-known`.
pub open spec fn denied_path(path: Seq<Seq<u8>>) -> bool {
    exists|i: int| 0 <= i < path.len() && #[trigger] denied_component(path, i)
}

/// Whether a path leads through a dotfile, other than a leading `.well-known`.
pub fn contains_denied_dotfile(components: &[Vec<u8>]) -> (yes: bool)
    ensures
        yes == denied_path(bytes::parts(components@)),
{
    let ghost path = bytes::parts(components@);
    for i in 0..components.len()
        invariant
            path == bytes::parts(components@),
            forall|j: int| 0 <= j < i ==> !#[trigger] denied_component(path, j),
    {
        let component = components[i].as_slice();
        assert(path[i as int] == component@);
        if component.len() > 0 && component[0] == DOT && !(i == 0 && equal_text(
            component,
            ".well-known",
        )) {
            assert(denied_component(path, i as int));
            return true;
        }
    }
    assert(path.len() == components@.len());
    false
}

/// The forms in which a file is looked for, in their order: the compressed ones that the client
/// accepts and the configuration allows, by quality and Brotli first where it is equal, and then
/// the file itself.
pub open spec fn forms(
    request: http::RequestModel,
    settings: config::ConfigModel,
) -> Seq<RepresentationEncoding> {
    let br = settings.brotli_enabled && request.br_q > 0;
    let gzip = settings.gzip_enabled && request.gzip_q > 0;
    let identity = RepresentationEncoding::Identity;
    if br && gzip && request.br_q >= request.gzip_q {
        seq![RepresentationEncoding::Br, RepresentationEncoding::Gzip, identity]
    } else if br && gzip {
        seq![RepresentationEncoding::Gzip, RepresentationEncoding::Br, identity]
    } else if br {
        seq![RepresentationEncoding::Br, identity]
    } else if gzip {
        seq![RepresentationEncoding::Gzip, identity]
    } else {
        seq![identity]
    }
}

/// The path of a file in one of its forms.
pub open spec fn form_path(path: Seq<Seq<u8>>, form: RepresentationEncoding) -> Seq<Seq<u8>> {
    match form {
        RepresentationEncoding::Identity => path,
        RepresentationEncoding::Br => fs::sidecar(path, ".br"@),
        RepresentationEncoding::Gzip => fs::sidecar(path, ".gz"@),
    }
}

fn forms_to_try(accepted: AcceptedEncodings, settings: &Config) -> (tried: Vec<
    RepresentationEncoding,
>)
    ensures
        forall|request: http::RequestModel|
            request.br_q == accepted.br_q && request.gzip_q == accepted.gzip_q ==> tried@
                == #[trigger] forms(request, settings@),
        tried@.len() > 0,
{
    let try_brotli = settings.brotli_enabled() && accepted.accepts_br();
    let try_gzip = settings.gzip_enabled() && accepted.accepts_gzip();
    let mut tried: Vec<RepresentationEncoding> = Vec::new();
    if try_brotli && accepted.prefer_br() {
        tried.push(RepresentationEncoding::Br);
    }
    if try_gzip {
        tried.push(RepresentationEncoding::Gzip);
    }
    if try_brotli && !accepted.prefer_br() {
        tried.push(RepresentationEncoding::Br);
    }
    tried.push(RepresentationEncoding::Identity);
    assert forall|request: http::RequestModel|
        request.br_q == accepted.br_q && request.gzip_q == accepted.gzip_q implies tried@
        == #[trigger] forms(request, settings@) by {
        assert(tried@ =~= forms(request, settings@));
    }
    tried
}

/// The headers of a response with a file.
pub open spec fn file_headers(
    settings: config::ConfigModel,
    path: Seq<Seq<u8>>,
    form: RepresentationEncoding,
    fallback: bool,
    meta: FileMeta,
) -> Seq<(Seq<char>, Seq<char>)> {
    let vary = if settings.gzip_enabled || settings.brotli_enabled {
        seq![("Vary"@, "Accept-Encoding"@)]
    } else {
        seq![]
    };
    let coding = match encoding_name(form) {
        Some(name) => seq![("Content-Encoding"@, name)],
        None => seq![],
    };
    seq![
        ("Cache-Control"@, cache::cache_policy(path, fallback, settings)),
        ("ETag"@, cache::etag_text(meta)),
        ("Last-Modified"@, date::http_date_text(meta.mtime as int)),
    ] + vary + coding + settings.extra_headers
}

/// The response with a file: without the file when the client already has it, and without a body
/// for `HEAD`.
#[verifier::opaque]
pub open spec fn file_reply(
    settings: config::ConfigModel,
    wanted: FileModel,
    meta: FileMeta,
    clock: Clock,
) -> ReplyModel {
    let headers = file_headers(settings, wanted.path, wanted.form, wanted.fallback, meta);
    let unchanged = cache::not_modified(
        wanted.request,
        cache::etag_text(meta),
        meta.mtime as int,
    );
    let kind = mime::media_type(mime::extension(wanted.path));
    ReplyModel {
        method: http::method_name(wanted.request.method),
        path: logged_path(wanted.request.target),
        status: if unchanged {
            Status::NotModified
        } else {
            Status::Okay
        },
        head: if unchanged {
            response::head_bytes(Status::NotModified, meta.len, None, headers, clock.unix_seconds)
        } else {
            response::head_bytes(Status::Okay, meta.len, Some(kind), headers, clock.unix_seconds)
        },
        body: if unchanged || wanted.request.method is Head {
            BodyModel::Nothing
        } else {
            BodyModel::File(meta.len)
        },
        deadline: wanted.deadline,
        error: None,
    }
}

/// What a [`Search`] holds: the request, the path that is looked for, the forms that are left to
/// look for, whether the path is one of an asset and whether it is the index that stands in for
/// another.
#[verifier::ext_equal]
pub struct SearchModel {
    pub request: http::RequestModel,
    pub path: Seq<Seq<u8>>,
    pub left: Seq<RepresentationEncoding>,
    pub asset: bool,
    pub fallback: bool,
    pub deadline: u64,
}

/// What an [`OpenedFile`] holds: the request and the file that was opened.
#[verifier::ext_equal]
pub struct FileModel {
    pub request: http::RequestModel,
    pub path: Seq<Seq<u8>>,
    pub form: RepresentationEncoding,
    pub fallback: bool,
    pub deadline: u64,
}

/// What an [`Exchange`] holds.
#[verifier::ext_equal]
pub enum ExchangeModel {
    Read(u64),
    Open(SearchModel),
    Inspect(FileModel),
    WriteHead(ReplyModel),
    WriteBody(ReplyModel),
    SendFile(ReplyModel),
    Done(OutcomeModel),
}

/// A request that is awaited.
#[derive(Debug)]
pub struct Pending {
    pub deadline: u64,
}

/// A file that is looked for.
#[derive(Debug)]
pub struct Search {
    request: Request,
    log_path: String,
    path: Vec<Vec<u8>>,
    forms: Vec<RepresentationEncoding>,
    tried: usize,
    asset: bool,
    fallback: bool,
    deadline: u64,
}

/// A file that was opened.
#[derive(Debug)]
pub struct OpenedFile {
    request: Request,
    log_path: String,
    path: Vec<Vec<u8>>,
    form: RepresentationEncoding,
    fallback: bool,
    deadline: u64,
}

/// What to do next.
#[derive(Debug)]
pub enum Exchange {
    /// Read the request.
    Read(Pending),
    /// Open the file that is looked for.
    Open(Search),
    /// Ask for what identifies the file that was opened.
    Inspect(OpenedFile),
    /// Write the head of the response.
    WriteHead(Reply),
    /// Write the body of the response.
    WriteBody(Reply),
    /// Send the file that was opened as the body of the response.
    SendFile(Reply),
    /// Nothing: the exchange is over.
    Done(RequestOutcome),
}

impl View for Search {
    type V = SearchModel;

    closed spec fn view(&self) -> SearchModel {
        SearchModel {
            request: self.request@,
            path: bytes::parts(self.path@),
            left: self.forms@.skip(self.tried as int),
            asset: self.asset,
            fallback: self.fallback,
            deadline: self.deadline,
        }
    }
}

impl View for OpenedFile {
    type V = FileModel;

    closed spec fn view(&self) -> FileModel {
        FileModel {
            request: self.request@,
            path: bytes::parts(self.path@),
            form: self.form,
            fallback: self.fallback,
            deadline: self.deadline,
        }
    }
}

impl View for Exchange {
    type V = ExchangeModel;

    open spec fn view(&self) -> ExchangeModel {
        match self {
            Exchange::Read(pending) => ExchangeModel::Read(pending.deadline),
            Exchange::Open(search) => ExchangeModel::Open(search@),
            Exchange::Inspect(file) => ExchangeModel::Inspect(file@),
            Exchange::WriteHead(reply) => ExchangeModel::WriteHead(reply@),
            Exchange::WriteBody(reply) => ExchangeModel::WriteBody(reply@),
            Exchange::SendFile(reply) => ExchangeModel::SendFile(reply@),
            Exchange::Done(outcome) => ExchangeModel::Done(outcome@),
        }
    }
}

/// What to do with a connection that waited its turn until now: read the request, unless its time
/// is over.
pub open spec fn begun(settings: config::ConfigModel, deadline: u64, clock: Clock) -> ExchangeModel {
    if clock.nanos >= deadline {
        ExchangeModel::WriteHead(
            error_reply(
                deadline,
                "UNKNOWN"@,
                ""@,
                Status::RequestTimeout,
                "queue_timeout"@,
                settings.extra_headers,
                clock,
            ),
        )
    } else {
        ExchangeModel::Read(deadline)
    }
}

/// What to do about a request that is refused: answer it, unless the connection is broken.
pub open spec fn refused(
    settings: config::ConfigModel,
    deadline: u64,
    refusal: http::Refusal,
    clock: Clock,
) -> ExchangeModel {
    let answer = |method: Seq<char>, status: Status, error: Seq<char>|
        ExchangeModel::WriteHead(
            error_reply(deadline, method, ""@, status, error, settings.extra_headers, clock),
        );
    match refusal {
        http::Refusal::BadRequest => answer("UNKNOWN"@, Status::BadRequest, "bad_request"@),
        http::Refusal::HeaderTooLarge => answer(
            "UNKNOWN"@,
            Status::HeaderTooLarge,
            "header_too_large"@,
        ),
        http::Refusal::MethodNotAllowed(method) => answer(
            method,
            Status::MethodNotAllowed,
            "method_not_allowed"@,
        ),
        http::Refusal::Timeout => answer("UNKNOWN"@, Status::RequestTimeout, "timeout"@),
        http::Refusal::Io => ExchangeModel::Done(
            failure("UNKNOWN"@, ""@, Status::InternalServerError, 0, "read_io"@),
        ),
    }
}

/// The answer to a request that was understood but is not met with a file.
pub open spec fn turned_down(
    settings: config::ConfigModel,
    request: http::RequestModel,
    deadline: u64,
    status: Status,
    error: Seq<char>,
    clock: Clock,
) -> ExchangeModel {
    ExchangeModel::WriteHead(
        error_reply(
            deadline,
            http::method_name(request.method),
            logged_path(request.target),
            status,
            error,
            settings.extra_headers,
            clock,
        ),
    )
}

/// The path of the file that a decoded target asks for: below a directory, its index.
pub open spec fn wanted_path(
    settings: config::ConfigModel,
    decoded: target::PathModel,
) -> Seq<Seq<u8>> {
    if decoded.components.len() == 0 || decoded.trailing_slash {
        decoded.components + settings.index
    } else {
        decoded.components
    }
}

/// What to do about a request: look for a file, unless it has a bad target, asks for the health of
/// the server or for a dotfile.
pub open spec fn routed(
    settings: config::ConfigModel,
    deadline: u64,
    request: http::RequestModel,
    clock: Clock,
) -> ExchangeModel {
    match target::decoded_target(request.target) {
        None => turned_down(
            settings,
            request,
            deadline,
            Status::BadRequest,
            "bad_target"@,
            clock,
        ),
        Some(decoded) => {
            let path = wanted_path(settings, decoded);
            if health_path(decoded.components) {
                ExchangeModel::WriteHead(
                    health_reply(
                        deadline,
                        request.method,
                        logged_path(request.target),
                        settings.extra_headers,
                        clock,
                    ),
                )
            } else if settings.deny_dotfiles && denied_path(path) {
                turned_down(
                    settings,
                    request,
                    deadline,
                    Status::NotFound,
                    "dotfile_denied"@,
                    clock,
                )
            } else {
                ExchangeModel::Open(
                    SearchModel {
                        request,
                        path,
                        left: forms(request, settings),
                        asset: settings.assets_prefix.is_prefix_of(decoded.components),
                        fallback: false,
                        deadline,
                    },
                )
            }
        },
    }
}

/// What to do with what came of reading the request.
pub open spec fn received(
    settings: config::ConfigModel,
    deadline: u64,
    result: Result<http::RequestModel, http::Refusal>,
    clock: Clock,
) -> ExchangeModel {
    match result {
        Ok(request) => routed(settings, deadline, request, clock),
        Err(refusal) => refused(settings, deadline, refusal, clock),
    }
}

/// What came of opening a file.
pub enum OpenResult {
    Opened,
    Missing,
    Failed,
}

/// What an error, or none, tells of opening a file.
pub open spec fn open_result(error: Option<error::IoErrorModel>) -> OpenResult {
    match error {
        None => OpenResult::Opened,
        Some(e) => if fs::means_missing(e) {
            OpenResult::Missing
        } else {
            OpenResult::Failed
        },
    }
}

/// What to do with what came of opening a file in the first form that was left: serve it, look for
/// the next form, or for the index in place of what is no asset.
pub open spec fn searched(
    settings: config::ConfigModel,
    search: SearchModel,
    result: OpenResult,
    clock: Clock,
) -> ExchangeModel {
    let turn_down = |status: Status, error: Seq<char>|
        turned_down(settings, search.request, search.deadline, status, error, clock);
    match result {
        OpenResult::Opened => ExchangeModel::Inspect(
            FileModel {
                request: search.request,
                path: search.path,
                form: search.left[0],
                fallback: search.fallback,
                deadline: search.deadline,
            },
        ),
        OpenResult::Missing => if search.left.len() > 1 {
            ExchangeModel::Open(SearchModel { left: search.left.skip(1), ..search })
        } else if search.fallback || search.asset {
            turn_down(Status::NotFound, "not_found"@)
        } else if settings.deny_dotfiles && denied_path(settings.index) {
            turn_down(Status::NotFound, "dotfile_denied"@)
        } else {
            ExchangeModel::Open(
                SearchModel {
                    path: settings.index,
                    left: forms(search.request, settings),
                    fallback: true,
                    ..search
                },
            )
        },
        OpenResult::Failed => if search.fallback {
            turn_down(Status::InternalServerError, "open_index"@)
        } else {
            turn_down(Status::InternalServerError, "open_file"@)
        },
    }
}

/// What to do with what identifies the file that was opened, if that is known.
pub open spec fn inspected(
    settings: config::ConfigModel,
    file: FileModel,
    meta: Option<FileMeta>,
    clock: Clock,
) -> ExchangeModel {
    match meta {
        Some(meta) => ExchangeModel::WriteHead(file_reply(settings, file, meta, clock)),
        None => turned_down(
            settings,
            file.request,
            file.deadline,
            Status::InternalServerError,
            "metadata"@,
            clock,
        ),
    }
}

/// How many bytes a body takes that is not a file.
pub open spec fn body_bytes(body: BodyModel) -> u64 {
    match body {
        BodyModel::Bytes(bytes) => bytes.len() as u64,
        _ => 0,
    }
}

/// The outcome of a response that was delivered with so many bytes of a body.
pub open spec fn delivered(reply: ReplyModel, bytes: u64) -> OutcomeModel {
    OutcomeModel {
        method: reply.method,
        path: reply.path,
        status: reply.status,
        bytes,
        error: reply.error,
    }
}

/// The outcome of a response that was not delivered.
pub open spec fn undelivered(reply: ReplyModel, error: Seq<char>) -> OutcomeModel {
    failure(reply.method, reply.path, reply.status, 0, error)
}

/// What to do behind writing the head of a response.
pub open spec fn head_done(reply: ReplyModel, written: bool) -> ExchangeModel {
    if !written {
        ExchangeModel::Done(undelivered(reply, "write_header"@))
    } else {
        match reply.body {
            BodyModel::Nothing => ExchangeModel::Done(delivered(reply, 0)),
            BodyModel::Bytes(_) => ExchangeModel::WriteBody(reply),
            BodyModel::File(_) => ExchangeModel::SendFile(reply),
        }
    }
}

/// The outcome behind writing the body of a response.
pub open spec fn body_done(reply: ReplyModel, written: bool) -> OutcomeModel {
    if written {
        delivered(reply, body_bytes(reply.body))
    } else {
        undelivered(reply, "write_body"@)
    }
}

/// The outcome behind sending a file, of which so many bytes were sent, if it was sent.
pub open spec fn file_done(reply: ReplyModel, sent: Option<u64>) -> OutcomeModel {
    match sent {
        Some(bytes) => delivered(reply, bytes),
        None => undelivered(reply, "send_file"@),
    }
}

impl Reply {
    /// Takes whether the head was written.
    pub fn head_written(self, written: bool) -> (next: Exchange)
        ensures
            next@ == head_done(self@, written),
    {
        if !written {
            return Exchange::Done(
                RequestOutcome::error(self.method, self.path, self.status, "write_header"),
            );
        }
        match self.body {
            Body::Nothing => Exchange::Done(self.delivered(0)),
            Body::Bytes(_) => Exchange::WriteBody(self),
            Body::File(_) => Exchange::SendFile(self),
        }
    }

    /// Takes whether the body was written.
    pub fn body_written(self, written: bool) -> (outcome: RequestOutcome)
        ensures
            outcome@ == body_done(self@, written),
    {
        if !written {
            return RequestOutcome::error(self.method, self.path, self.status, "write_body");
        }
        let bytes: u64 = match &self.body {
            Body::Bytes(bytes) => bytes.len() as u64,
            _ => 0,
        };
        self.delivered(bytes)
    }

    /// Takes how many bytes of the file were sent, if it was sent.
    pub fn file_sent(self, sent: Option<u64>) -> (outcome: RequestOutcome)
        ensures
            outcome@ == file_done(self@, sent),
    {
        match sent {
            Some(bytes) => self.delivered(bytes),
            None => RequestOutcome::error(self.method, self.path, self.status, "send_file"),
        }
    }

    fn delivered(self, bytes: u64) -> (outcome: RequestOutcome)
        ensures
            outcome@ == delivered(self@, bytes),
    {
        match self.error {
            Some(error) => RequestOutcome::error_with_bytes(
                self.method,
                self.path,
                self.status,
                bytes,
                error,
            ),
            None => RequestOutcome::new(self.method, self.path, self.status, bytes),
        }
    }
}

fn turn_down(
    settings: &Config,
    method: Method,
    log_path: &str,
    deadline: u64,
    status: Status,
    error: &'static str,
    clock: Clock,
) -> (next: Exchange)
    ensures
        forall|request: http::RequestModel|
            request.method == method && log_path@ == #[trigger] logged_path(request.target)
                ==> next@ == turned_down(settings@, request, deadline, status, error@, clock),
{
    Exchange::WriteHead(
        simple_error(
            deadline,
            method.as_str(),
            log_path,
            status,
            error,
            settings.extra_headers(),
            clock,
        ),
    )
}

impl Exchange {
    /// Begins with a connection that waited its turn until now.
    pub fn begin(settings: &Config, deadline: u64, clock: Clock) -> (next: Exchange)
        ensures
            next@ == begun(settings@, deadline, clock),
    {
        if clock.nanos >= deadline {
            return Exchange::WriteHead(
                simple_error(
                    deadline,
                    "UNKNOWN",
                    "",
                    Status::RequestTimeout,
                    "queue_timeout",
                    settings.extra_headers(),
                    clock,
                ),
            );
        }
        Exchange::Read(Pending { deadline })
    }
}

fn refuse(settings: &Config, deadline: u64, refusal: RequestError, clock: Clock) -> (next: Exchange)
    ensures
        next@ == refused(settings@, deadline, refusal@, clock),
{
    let extra = settings.extra_headers();
    let reply = match refusal {
        RequestError::BadRequest => simple_error(
            deadline,
            "UNKNOWN",
            "",
            Status::BadRequest,
            "bad_request",
            extra,
            clock,
        ),
        RequestError::HeaderTooLarge => simple_error(
            deadline,
            "UNKNOWN",
            "",
            Status::HeaderTooLarge,
            "header_too_large",
            extra,
            clock,
        ),
        RequestError::MethodNotAllowed(method) => simple_error(
            deadline,
            method.as_str(),
            "",
            Status::MethodNotAllowed,
            "method_not_allowed",
            extra,
            clock,
        ),
        RequestError::Timeout => simple_error(
            deadline,
            "UNKNOWN",
            "",
            Status::RequestTimeout,
            "timeout",
            extra,
            clock,
        ),
        RequestError::Io => {
            return Exchange::Done(
                RequestOutcome::error(
                    String::from_str("UNKNOWN"),
                    String::from_str(""),
                    Status::InternalServerError,
                    "read_io",
                ),
            );
        },
    };
    Exchange::WriteHead(reply)
}

fn route(settings: &Config, deadline: u64, request: Request, clock: Clock) -> (next: Exchange)
    ensures
        next@ == routed(settings@, deadline, request@, clock),
{
    let log_path = request_path_for_log(request.target.as_slice());
    let method = request.method;
    let decoded = match decode_target(request.target.as_slice()) {
        Ok(decoded) => decoded,
        Err(_) => {
            return turn_down(
                settings,
                method,
                log_path.as_str(),
                deadline,
                Status::BadRequest,
                "bad_target",
                clock,
            );
        },
    };
    if is_health_path(decoded.components.as_slice()) {
        let headers = [("Cache-Control", "no-store")];
        assert(response::texts(headers@) =~= seq![("Cache-Control"@, "no-store"@)]);
        return Exchange::WriteHead(
            simple_response(
                deadline,
                method,
                log_path.as_str(),
                Status::Okay,
                "ok\n",
                "text/plain; charset=utf-8",
                headers.as_slice(),
                settings.extra_headers(),
                clock,
            ),
        );
    }
    let asset = starts_with_components(decoded.components.as_slice(), settings.assets_prefix());
    let path = wanted_components(settings, decoded);
    if settings.deny_dotfiles() && contains_denied_dotfile(path.as_slice()) {
        return turn_down(
            settings,
            method,
            log_path.as_str(),
            deadline,
            Status::NotFound,
            "dotfile_denied",
            clock,
        );
    }
    let forms = forms_to_try(request.accepted_encodings, settings);
    assert(forms@.skip(0) =~= forms@);
    Exchange::Open(
        Search { request, log_path, path, forms, tried: 0, asset, fallback: false, deadline },
    )
}

fn wanted_components(settings: &Config, decoded: DecodedPath) -> (path: Vec<Vec<u8>>)
    ensures
        bytes::parts(path@) == wanted_path(settings@, decoded@),
{
    let below_directory = decoded.components.len() == 0 || decoded.trailing_slash;
    let mut path = decoded.components;
    let ghost before = path@;
    if below_directory {
        let mut index = copy_parts(settings.index());
        let ghost added = index@;
        path.append(&mut index);
        assert(bytes::parts(path@) =~= bytes::parts(before) + bytes::parts(added));
    }
    path
}

impl Pending {
    /// Takes what came of reading the request.
    pub fn received(
        self,
        settings: &Config,
        result: Result<Request, RequestError>,
        clock: Clock,
    ) -> (next: Exchange)
        ensures
            next@ == received(settings@, self.deadline, reader::request_result(result), clock),
    {
        match result {
            Ok(request) => route(settings, self.deadline, request, clock),
            Err(refusal) => refuse(settings, self.deadline, refusal, clock),
        }
    }
}

/// What an error that may be absent holds.
pub open spec fn optional_error(error: Option<&IoError>) -> Option<error::IoErrorModel> {
    match error {
        Some(e) => Some(e@),
        None => None,
    }
}

impl Search {
    #[verifier::type_invariant]
    pub closed spec fn consistent(self) -> bool {
        &&& self.tried < self.forms@.len()
        &&& self.log_path@ == logged_path(self.request.target@)
    }

    /// The path to open, below the document root: that of the file in the first form that is left.
    pub fn path(&self) -> (path: Vec<Vec<u8>>)
        ensures
            self@.left.len() > 0,
            bytes::parts(path@) == form_path(self@.path, self@.left[0]),
    {
        proof {
            use_type_invariant(self);
        }
        match self.forms[self.tried] {
            RepresentationEncoding::Identity => copy_parts(self.path.as_slice()),
            RepresentationEncoding::Br => br_path(self.path.as_slice()),
            RepresentationEncoding::Gzip => gzip_path(self.path.as_slice()),
        }
    }

    /// Takes the error of opening that path, if there was one.
    pub fn opened(self, settings: &Config, error: Option<&IoError>, clock: Clock) -> (next: Exchange)
        ensures
            next@ == searched(settings@, self@, open_result(optional_error(error)), clock),
    {
        proof {
            use_type_invariant(&self);
        }
        let method = self.request.method;
        let missing = match error {
            None => {
                return Exchange::Inspect(
                    OpenedFile {
                        form: self.forms[self.tried],
                        request: self.request,
                        log_path: self.log_path,
                        path: self.path,
                        fallback: self.fallback,
                        deadline: self.deadline,
                    },
                );
            },
            Some(error) => is_not_found(error),
        };
        if !missing {
            return turn_down(
                settings,
                method,
                self.log_path.as_str(),
                self.deadline,
                Status::InternalServerError,
                if self.fallback {
                    "open_index"
                } else {
                    "open_file"
                },
                clock,
            );
        }
        if self.forms.len() - self.tried > 1 {
            assert(self.forms@.skip(self.tried as int).skip(1) =~= self.forms@.skip(
                self.tried + 1,
            ));
            return Exchange::Open(
                Search {
                    request: self.request,
                    log_path: self.log_path,
                    path: self.path,
                    forms: self.forms,
                    tried: self.tried + 1,
                    asset: self.asset,
                    fallback: self.fallback,
                    deadline: self.deadline,
                },
            );
        }
        if self.fallback || self.asset {
            return turn_down(
                settings,
                method,
                self.log_path.as_str(),
                self.deadline,
                Status::NotFound,
                "not_found",
                clock,
            );
        }
        if settings.deny_dotfiles() && contains_denied_dotfile(settings.index()) {
            return turn_down(
                settings,
                method,
                self.log_path.as_str(),
                self.deadline,
                Status::NotFound,
                "dotfile_denied",
                clock,
            );
        }
        let forms = forms_to_try(self.request.accepted_encodings, settings);
        assert(forms@.skip(0) =~= forms@);
        Exchange::Open(
            Search {
                request: self.request,
                log_path: self.log_path,
                path: copy_parts(settings.index()),
                forms,
                tried: 0,
                asset: self.asset,
                fallback: true,
                deadline: self.deadline,
            },
        )
    }
}

impl OpenedFile {
    #[verifier::type_invariant]
    pub closed spec fn consistent(self) -> bool {
        self.log_path@ == logged_path(self.request.target@)
    }

    /// Takes what identifies the file, if that is known.
    pub fn inspected(self, settings: &Config, meta: Option<FileMeta>, clock: Clock) -> (next:
        Exchange)
        ensures
            next@ == inspected(settings@, self@, meta, clock),
    {
        proof {
            use_type_invariant(&self);
        }
        match meta {
            Some(meta) => Exchange::WriteHead(self.reply(settings, meta, clock)),
            None => turn_down(
                settings,
                self.request.method,
                self.log_path.as_str(),
                self.deadline,
                Status::InternalServerError,
                "metadata",
                clock,
            ),
        }
    }

    fn reply(self, settings: &Config, meta: FileMeta, clock: Clock) -> (reply: Reply)
        ensures
            reply@ == file_reply(settings@, self@, meta, clock),
    {
        proof {
            use_type_invariant(&self);
            reveal(file_reply);
        }
        let tag = etag(&meta);
        let last_modified = http_date(meta.mtime);
        let policy = cache_control(self.path.as_slice(), self.fallback, settings);
        let mut headers: Vec<(&str, &str)> = Vec::new();
        headers.push(("Cache-Control", policy));
        headers.push(("ETag", tag.as_str()));
        headers.push(("Last-Modified", last_modified.as_str()));
        if settings.gzip_enabled() || settings.brotli_enabled() {
            headers.push(("Vary", "Accept-Encoding"));
        }
        if let Some(value) = self.form.header_value() {
            headers.push(("Content-Encoding", value));
        }
        let ghost own = response::texts(headers@);
        append_extra_headers(&mut headers, settings.extra_headers());
        assert(own + settings@.extra_headers =~= file_headers(
            settings@,
            self@.path,
            self@.form,
            self@.fallback,
            meta,
        ));
        let unchanged = is_not_modified(&self.request, tag.as_str(), meta.mtime);
        let status = if unchanged {
            Status::NotModified
        } else {
            Status::Okay
        };
        let kind = if unchanged {
            None
        } else {
            Some(content_type(self.path.as_slice()))
        };
        let head = response_head_at(status, meta.len, kind, headers.as_slice(), clock.unix_seconds);
        let body = if unchanged || self.request.method == Method::Head {
            Body::Nothing
        } else {
            Body::File(meta.len)
        };
        Reply {
            method: String::from_str(self.request.method.as_str()),
            path: self.log_path,
            status,
            head,
            body,
            deadline: self.deadline,
            error: None,
        }
    }
}

} // verus!
