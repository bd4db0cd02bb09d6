//! What requests get, from the bytes of their targets on, and what is logged of them.

use vstd::prelude::*;
use vstd::utf8::*;

use crate::behavior;
use crate::behavior::Entry;
use crate::cache::FileMeta;
use crate::config;
use crate::exchange;
use crate::exchange::{Clock, RepresentationEncoding};
use crate::fields;
use crate::fs;
use crate::http;
use crate::http::Method;
use crate::response::Status;
use crate::target;
use crate::text;

verus! {

/// Whether a target is a path, alone or with a query behind it.
pub open spec fn asks_for(target: Seq<u8>, path: Seq<u8>) -> bool {
    target == path || exists|query: Seq<u8>| target == #[trigger] (path + seq![63u8] + query)
}

proof fn lemma_asks_for(target: Seq<u8>, path: Seq<u8>)
    requires
        asks_for(target, path),
        !path.contains(63u8),
    ensures
        target::decoded_target(target) == target::decoded_target(path),
{
    if target != path {
        let query = choose|query: Seq<u8>| target == #[trigger] (path + seq![63u8] + query);
        target::queries_play_no_part(path, query);
    }
}

/// A target of one slash and one word names that word.
proof fn lemma_one_word(word: Seq<u8>)
    requires
        word.len() > 2,
        forall|i: int| 0 <= i < word.len() ==> 97 <= #[trigger] word[i] <= 122,
    ensures
        !(seq![47u8] + word).contains(63u8),
        target::decoded_target(seq![47u8] + word) == Some(
            target::PathModel { components: seq![word], trailing_slash: false },
        ),
{
    let path = seq![word];
    assert forall|i: int| 0 <= i < word.len() implies word[i] != 37 && word[i] != 47 && word[i] != 63
        && word[i] != 92 && word[i] != 0 && !target::control(word[i]) by {}
    assert(!word.contains(37u8) && !word.contains(47u8) && !word.contains(63u8));
    assert(!word.contains(92u8) && !word.contains(0u8));
    target::plain_bytes_stand_for_themselves(word);
    assert(target::safe_component(word));
    assert(target::printable(path));
    target::targets_name_their_paths(path, path);
    assert(target::joined(path.skip(1)) =~= Seq::<u8>::empty());
    assert(target::joined(path) =~= seq![47u8] + word);
}

proof fn lemma_health_words()
    ensures
        encode_utf8("health"@) == seq![104u8, 101, 97, 108, 116, 104],
        encode_utf8("healthz"@) == seq![104u8, 101, 97, 108, 116, 104, 122],
        encode_utf8("/health"@) == seq![47u8] + seq![104u8, 101, 97, 108, 116, 104],
        encode_utf8("/healthz"@) == seq![47u8] + seq![104u8, 101, 97, 108, 116, 104, 122],
{
    reveal_strlit("health");
    reveal_strlit("healthz");
    reveal_strlit("/health");
    reveal_strlit("/healthz");
    assert(is_ascii_chars("health"@) && is_ascii_chars("healthz"@));
    assert(is_ascii_chars("/health"@) && is_ascii_chars("/healthz"@));
    is_ascii_chars_encode_utf8("health"@);
    is_ascii_chars_encode_utf8("healthz"@);
    is_ascii_chars_encode_utf8("/health"@);
    is_ascii_chars_encode_utf8("/healthz"@);
    assert(encode_utf8("health"@) =~= seq![104u8, 101, 97, 108, 116, 104]);
    assert(encode_utf8("healthz"@) =~= seq![104u8, 101, 97, 108, 116, 104, 122]);
    assert(encode_utf8("/health"@) =~= seq![47u8] + seq![104u8, 101, 97, 108, 116, 104]);
    assert(encode_utf8("/healthz"@) =~= seq![47u8] + seq![104u8, 101, 97, 108, 116, 104, 122]);
}

/// A request for `/health` or `/healthz`, with or without a query, is answered with `200 OK` and
/// `ok` on a line, whatever the disk holds, and without the body to `HEAD`; the answer is not to be
/// kept.
pub proof fn health_targets_are_answered(
    settings: config::ConfigModel,
    deadline: u64,
    request: http::RequestModel,
    disk: spec_fn(Seq<Seq<u8>>) -> Entry,
    clock: Clock,
)
    requires
        settings.valid(),
        asks_for(request.target, encode_utf8("/health"@)) || asks_for(
            request.target,
            encode_utf8("/healthz"@),
        ),
    ensures
        ({
            let reply = behavior::answer(settings, deadline, request, disk, clock);
            &&& exchange::routed(settings, deadline, request, clock)
                == exchange::ExchangeModel::WriteHead(reply)
            &&& reply.status is Okay
            &&& reply.error is None
            &&& reply.path == exchange::logged_path(request.target)
            &&& reply.deadline == deadline
            &&& request.method is Get ==> reply.body == exchange::BodyModel::Bytes(
                seq![111u8, 107, 10],
            )
            &&& request.method is Head ==> reply.body is Nothing
            &&& exists|found: Seq<(Seq<char>, Seq<char>)>| #[trigger]
                fields::is_head(reply.head, Status::Okay, found) && fields::text_fields(
                    found,
                    3,
                    clock,
                )
        }),
{
    lemma_health_words();
    let short = seq![104u8, 101, 97, 108, 116, 104];
    let long = seq![104u8, 101, 97, 108, 116, 104, 122];
    lemma_one_word(short);
    lemma_one_word(long);
    if asks_for(request.target, encode_utf8("/health"@)) {
        lemma_asks_for(request.target, encode_utf8("/health"@));
    } else {
        lemma_asks_for(request.target, encode_utf8("/healthz"@));
    }
    fields::health_replies_are_ok(
        settings,
        deadline,
        request.method,
        exchange::logged_path(request.target),
        clock,
    );
}

/// Only the paths `health` and `healthz` ask for the health of the server.
pub proof fn health_paths_are_these(path: Seq<Seq<u8>>)
    ensures
        exchange::health_path(path) <==> path == seq![seq![104u8, 101, 97, 108, 116, 104]] || path
            == seq![seq![104u8, 101, 97, 108, 116, 104, 122]],
{
    lemma_health_words();
    if exchange::health_path(path) {
        assert(path =~= seq![path[0]]);
    }
}

/// A path leads through a denied dotfile exactly when one of its components begins with a dot,
/// other than `.well-known` as the first.
pub proof fn denied_paths_are_these(path: Seq<Seq<u8>>)
    ensures
        exchange::denied_path(path) <==> exists|i: int|
            0 <= i < path.len() && (#[trigger] path[i]).len() > 0 && path[i][0] == 46 && (i > 0
                || path[i] != encode_utf8(".well-known"@)),
{
    if exchange::denied_path(path) {
        let i = choose|i: int| 0 <= i < path.len() && exchange::denied_component(path, i);
        assert(path[i].len() > 0);
    }
    if exists|i: int|
        0 <= i < path.len() && (#[trigger] path[i]).len() > 0 && path[i][0] == 46 && (i > 0
            || path[i] != encode_utf8(".well-known"@)) {
        let i = choose|i: int|
            0 <= i < path.len() && (#[trigger] path[i]).len() > 0 && path[i][0] == 46 && (i > 0
                || path[i] != encode_utf8(".well-known"@));
        assert(exchange::denied_component(path, i));
    }
}

/// A request is for the file that its target names; below a directory, which a slash at the end
/// tells, for the index there; and it is for an asset exactly when the path begins with the prefix
/// of the assets. The query plays no part.
pub proof fn requests_are_for_what_they_name(
    settings: config::ConfigModel,
    request: http::RequestModel,
    encoded: Seq<Seq<u8>>,
    path: Seq<Seq<u8>>,
    directory: bool,
)
    requires
        path.len() > 0,
        target::safe_path(path),
        target::printable(path),
        target::spelled(encoded, path),
        asks_for(
            request.target,
            if directory {
                target::joined(encoded) + seq![47u8]
            } else {
                target::joined(encoded)
            },
        ),
    ensures
        behavior::path_of(settings, request) == if directory {
            path + settings.index
        } else {
            path
        },
        behavior::for_asset(settings, request) <==> settings.assets_prefix.is_prefix_of(path),
        behavior::for_file(settings, request) <==> !exchange::health_path(path) && !(
        settings.deny_dotfiles && exchange::denied_path(
            if directory {
                path + settings.index
            } else {
                path
            },
        )),
{
    let target = if directory {
        target::joined(encoded) + seq![47u8]
    } else {
        target::joined(encoded)
    };
    lemma_no_question_mark(encoded, path);
    assert forall|j: int| 0 <= j < target.len() implies target[j] != 63 by {
        if j < target::joined(encoded).len() {
            assert(target[j] == target::joined(encoded)[j]);
            assert(target::joined(encoded).contains(target[j]));
        }
    }
    lemma_asks_for(request.target, target);
    if directory {
        target::trailing_slashes_are_noticed(encoded, path);
    } else {
        target::targets_name_their_paths(encoded, path);
    }
}

proof fn lemma_no_question_mark(encoded: Seq<Seq<u8>>, path: Seq<Seq<u8>>)
    requires
        target::spelled(encoded, path),
    ensures
        !target::joined(encoded).contains(63u8),
    decreases encoded.len(),
{
    let whole = target::joined(encoded);
    if encoded.len() > 0 {
        let (rest, others) = (encoded.skip(1), path.skip(1));
        assert(target::percent_decoded(encoded[0]) == Some(path[0]));
        assert forall|i: int| 0 <= i < rest.len() implies ({
            &&& target::percent_decoded(#[trigger] rest[i]) == Some(others[i])
            &&& !rest[i].contains(47u8)
            &&& !rest[i].contains(63u8)
        }) by {
            assert(rest[i] == encoded[i + 1]);
        }
        lemma_no_question_mark(rest, others);
        let tail = target::joined(rest);
        assert(whole == seq![47u8] + encoded[0] + tail);
        assert forall|j: int| 0 <= j < whole.len() implies whole[j] != 63 by {
            if 1 <= j <= encoded[0].len() {
                assert(whole[j] == encoded[0][j - 1]);
                assert(encoded[0].contains(encoded[0][j - 1]));
            } else if j > encoded[0].len() {
                assert(whole[j] == tail[j - 1 - encoded[0].len()]);
                assert(tail.contains(tail[j - 1 - encoded[0].len()]));
            }
        }
    }
}

/// A request for `/`, with or without a query, is for the index.
pub proof fn the_root_is_answered_with_the_index(
    settings: config::ConfigModel,
    request: http::RequestModel,
)
    requires
        settings.valid(),
        asks_for(request.target, seq![47u8]),
    ensures
        behavior::path_of(settings, request) == settings.index,
        !behavior::for_asset(settings, request),
        behavior::for_file(settings, request) <==> !(settings.deny_dotfiles
            && exchange::denied_path(settings.index)),
{
    assert(!seq![47u8].contains(63u8));
    lemma_asks_for(request.target, seq![47u8]);
    target::the_root_is_a_lone_slash();
    let none = Seq::<Seq<u8>>::empty();
    assert(none + settings.index =~= settings.index);
    assert(!settings.assets_prefix.is_prefix_of(none));
    assert(!exchange::health_path(none));
}

/// The forms of a file lie beside it, with `.br` and `.gz` behind their names.
pub proof fn forms_lie_beside_the_file(directory: Seq<Seq<u8>>, name: Seq<u8>)
    ensures
        exchange::form_path(directory.push(name), RepresentationEncoding::Identity)
            == directory.push(name),
        exchange::form_path(directory.push(name), RepresentationEncoding::Br) == directory.push(
            name + seq![46u8, 98, 114],
        ),
        exchange::form_path(directory.push(name), RepresentationEncoding::Gzip) == directory.push(
            name + seq![46u8, 103, 122],
        ),
        fs::sidecar(directory.push(name), ".br"@) == directory.push(name + seq![46u8, 98, 114]),
        fs::sidecar(directory.push(name), ".gz"@) == directory.push(name + seq![46u8, 103, 122]),
{
    reveal_strlit(".br");
    reveal_strlit(".gz");
    assert(is_ascii_chars(".br"@) && is_ascii_chars(".gz"@));
    is_ascii_chars_encode_utf8(".br"@);
    is_ascii_chars_encode_utf8(".gz"@);
    assert(encode_utf8(".br"@) =~= seq![46u8, 98, 114]);
    assert(encode_utf8(".gz"@) =~= seq![46u8, 103, 122]);
    assert(directory.push(name).drop_last() =~= directory);
}

/// The file that is inspected, and then sent, is the one that was opened.
pub proof fn the_opened_file_is_sent(
    settings: config::ConfigModel,
    search: exchange::SearchModel,
    clock: Clock,
)
    ensures
        exchange::searched(settings, search, exchange::OpenResult::Opened, clock)
            matches exchange::ExchangeModel::Inspect(file) && {
            &&& exchange::form_path(file.path, file.form) == exchange::form_path(
                search.path,
                search.left[0],
            )
            &&& file.path == search.path
            &&& file.form == search.left[0]
            &&& file.request == search.request
            &&& file.fallback == search.fallback
            &&& file.deadline == search.deadline
        },
{
}

/// The answer with a file, whether or not the index stands in, has the method and the path of the
/// request, all the time that is left, the file as its body unless the client has it or asks with
/// `HEAD`, and fields that say what is sent: among them the coding exactly when it is a sidecar.
pub proof fn answers_with_files_say_what_is_sent(
    settings: config::ConfigModel,
    file: exchange::FileModel,
    meta: FileMeta,
    clock: Clock,
)
    requires
        settings.valid(),
    ensures
        exchange::inspected(settings, file, Some(meta), clock)
            matches exchange::ExchangeModel::WriteHead(reply) && {
            let unchanged = crate::cache::not_modified(
                file.request,
                crate::cache::etag_text(meta),
                meta.mtime as int,
            );
            &&& reply.method == if file.request.method is Get {
                "GET"@
            } else {
                "HEAD"@
            }
            &&& reply.path == exchange::logged_path(file.request.target)
            &&& reply.deadline == file.deadline
            &&& reply.error is None
            &&& reply.status == if unchanged {
                Status::NotModified
            } else {
                Status::Okay
            }
            &&& reply.body == if unchanged || file.request.method is Head {
                exchange::BodyModel::Nothing
            } else {
                exchange::BodyModel::File(meta.len)
            }
            &&& exists|found: Seq<(Seq<char>, Seq<char>)>| #[trigger]
                fields::is_head(reply.head, reply.status, found) && fields::file_fields(
                    found,
                    settings,
                    file,
                    meta,
                    unchanged,
                    clock,
                )
        },
{
    fields::file_replies_say_what_is_sent(settings, file, meta, clock);
    reveal(exchange::file_reply);
}

/// What cannot be opened for another reason than that it is not there, or cannot be inspected, is
/// answered with `500 Internal Server Error`.
pub proof fn failures_are_reported(
    settings: config::ConfigModel,
    search: exchange::SearchModel,
    file: exchange::FileModel,
    clock: Clock,
)
    ensures
        exchange::searched(settings, search, exchange::OpenResult::Failed, clock)
            matches exchange::ExchangeModel::WriteHead(reply) && {
            &&& reply.status is InternalServerError
            &&& reply.error == Some(
                if search.fallback {
                    "open_index"@
                } else {
                    "open_file"@
                },
            )
        },
        exchange::inspected(settings, file, None, clock)
            matches exchange::ExchangeModel::WriteHead(reply) && {
            &&& reply.status is InternalServerError
            &&& reply.error == Some("metadata"@)
        },
{
    reveal(exchange::error_reply);
}

/// Whether a step answers with an error: so, for that reason, and with that method and path in the
/// log.
pub open spec fn answers_error(
    step: exchange::ExchangeModel,
    method: Seq<char>,
    path: Seq<char>,
    status: Status,
    error: Seq<char>,
) -> bool {
    step matches exchange::ExchangeModel::WriteHead(reply) && {
        &&& reply.method == method
        &&& reply.path == path
        &&& reply.status == status
        &&& reply.error == Some(error)
    }
}

/// Every request that cannot be understood is answered with the error that says why; only a broken
/// connection is not answered, and one that waited too long is told so.
pub proof fn refusals_say_why(
    settings: config::ConfigModel,
    deadline: u64,
    method: Seq<char>,
    clock: Clock,
)
    ensures
        answers_error(
            exchange::received(settings, deadline, Err(http::Refusal::BadRequest), clock),
            "UNKNOWN"@,
            ""@,
            Status::BadRequest,
            "bad_request"@,
        ),
        answers_error(
            exchange::received(settings, deadline, Err(http::Refusal::HeaderTooLarge), clock),
            "UNKNOWN"@,
            ""@,
            Status::HeaderTooLarge,
            "header_too_large"@,
        ),
        answers_error(
            exchange::received(
                settings,
                deadline,
                Err(http::Refusal::MethodNotAllowed(method)),
                clock,
            ),
            method,
            ""@,
            Status::MethodNotAllowed,
            "method_not_allowed"@,
        ),
        answers_error(
            exchange::received(settings, deadline, Err(http::Refusal::Timeout), clock),
            "UNKNOWN"@,
            ""@,
            Status::RequestTimeout,
            "timeout"@,
        ),
        clock.nanos >= deadline ==> answers_error(
            exchange::begun(settings, deadline, clock),
            "UNKNOWN"@,
            ""@,
            Status::RequestTimeout,
            "queue_timeout"@,
        ),
        exchange::received(settings, deadline, Err(http::Refusal::Io), clock)
            == exchange::ExchangeModel::Done(
            exchange::OutcomeModel {
                method: "UNKNOWN"@,
                path: ""@,
                status: Status::InternalServerError,
                bytes: 0,
                error: Some("read_io"@),
            },
        ),
{
    reveal(exchange::error_reply);
}

/// A request whose target is refused, or leads through a denied dotfile, is answered with the error
/// for that, and a missing file with another, each with the method and the path of the request in
/// the log.
pub proof fn unmet_requests_say_why(
    settings: config::ConfigModel,
    deadline: u64,
    request: http::RequestModel,
    search: exchange::SearchModel,
    clock: Clock,
)
    ensures
        ({
            let method = |asked: http::RequestModel| if asked.method is Get {
                "GET"@
            } else {
                "HEAD"@
            };
            &&& exchange::received(settings, deadline, Ok(request), clock) == exchange::routed(
                settings,
                deadline,
                request,
                clock,
            )
            &&& target::decoded_target(request.target) is None ==> answers_error(
                exchange::received(settings, deadline, Ok(request), clock),
                method(request),
                exchange::logged_path(request.target),
                Status::BadRequest,
                "bad_target"@,
            )
            &&& search.left.len() <= 1 && (search.asset || search.fallback) ==> answers_error(
                exchange::searched(settings, search, exchange::OpenResult::Missing, clock),
                method(search.request),
                exchange::logged_path(search.request.target),
                Status::NotFound,
                "not_found"@,
            )
        }),
{
    reveal(exchange::error_reply);
}

/// The path that is logged is that of the target as text, without the query.
pub proof fn queries_are_not_logged(path: Seq<char>, query: Seq<u8>)
    requires
        !encode_utf8(path).contains(63u8),
    ensures
        exchange::logged_path(encode_utf8(path)) == path,
        exchange::logged_path(encode_utf8(path) + seq![63u8] + query) == path,
{
    let bytes = encode_utf8(path);
    let target = bytes + seq![63u8] + query;
    assert forall|j: int| 0 <= j < bytes.len() implies bytes[j] != 63 && target[j] != 63 by {
        assert(target[j] == bytes[j]);
        assert(bytes.contains(bytes[j]));
    }
    crate::bytes::lemma_index_of_first_is(bytes, 63u8, bytes.len() as int);
    crate::bytes::lemma_index_of_first_is(target, 63u8, bytes.len() as int);
    assert(target::target_path(bytes) =~= bytes);
    assert(target::target_path(target) =~= bytes);
    text::written_texts_are_read_back(path);
}

/// What is logged of a response is the method, the path and the status that it answers, with the
/// error that it reports, if any.
pub open spec fn logged_as(
    outcome: exchange::OutcomeModel,
    reply: exchange::ReplyModel,
    bytes: u64,
    error: Option<Seq<char>>,
) -> bool {
    &&& outcome.method == reply.method
    &&& outcome.path == reply.path
    &&& outcome.status == reply.status
    &&& outcome.bytes == bytes
    &&& outcome.error == error
}

/// Behind its head a response is done, or goes on with its body; one whose head was not written is
/// over, with no bytes and that error.
pub proof fn heads_come_before_bodies(reply: exchange::ReplyModel)
    ensures
        exchange::head_done(reply, false) matches exchange::ExchangeModel::Done(outcome)
            && logged_as(outcome, reply, 0, Some("write_header"@)),
        reply.body is Nothing ==> (exchange::head_done(reply, true)
            matches exchange::ExchangeModel::Done(outcome) && logged_as(
            outcome,
            reply,
            0,
            reply.error,
        )),
        reply.body is Bytes ==> exchange::head_done(reply, true)
            == exchange::ExchangeModel::WriteBody(reply),
        reply.body is File ==> exchange::head_done(reply, true)
            == exchange::ExchangeModel::SendFile(reply),
        forall|bytes: u64, error: Seq<char>|
            {
                &&& logged_as(
                    #[trigger] exchange::delivered(reply, bytes),
                    reply,
                    bytes,
                    reply.error,
                )
                &&& logged_as(
                    #[trigger] exchange::undelivered(reply, error),
                    reply,
                    0,
                    Some(error),
                )
            },
        reply.body matches exchange::BodyModel::Bytes(body) ==> (body.len() <= u64::MAX
            ==> exchange::body_bytes(reply.body) == body.len()),
{
}

/// The names of the methods, and that they differ.
pub proof fn methods_have_their_names(method: Method)
    ensures
        http::method_name(method) == if method is Get {
            seq!['G', 'E', 'T']
        } else {
            seq!['H', 'E', 'A', 'D']
        },
{
    reveal_strlit("GET");
    reveal_strlit("HEAD");
    assert("GET"@ =~= seq!['G', 'E', 'T']);
    assert("HEAD"@ =~= seq!['H', 'E', 'A', 'D']);
}

/// Opening succeeds without an error. A name that is not there, that may not be read or that leads
/// through what is no directory counts as missing, and so does a symbolic link; every other error
/// is a failure.
pub proof fn opening_errors_are_told_apart(error: crate::error::IoErrorModel)
    ensures
        exchange::open_result(None) is Opened,
        exchange::open_result(Some(error)) is Missing <==> {
            ||| error.kind is NotFound
            ||| error.kind is PermissionDenied
            ||| error.kind is NotADirectory
            ||| error.code == Some(40i32)
        },
        exchange::open_result(Some(error)) is Missing || exchange::open_result(Some(error))
            is Failed,
{
}

/// Where dotfiles are denied and the index is one, or lies below one, it does not stand in for what
/// is missing either.
pub proof fn denied_indexes_do_not_stand_in(
    settings: config::ConfigModel,
    deadline: u64,
    request: http::RequestModel,
    disk: spec_fn(Seq<Seq<u8>>) -> Entry,
    clock: Clock,
)
    requires
        behavior::for_file(settings, request),
        !behavior::for_asset(settings, request),
        behavior::all_absent(
            disk,
            behavior::path_of(settings, request),
            exchange::forms(request, settings),
        ),
        settings.deny_dotfiles,
        exchange::denied_path(settings.index),
    ensures
        ({
            let reply = behavior::answer(settings, deadline, request, disk, clock);
            reply.status is NotFound && reply.error == Some("dotfile_denied"@)
        }),
{
    reveal(exchange::error_reply);
    behavior::requests_for_files_are_answered(settings, deadline, request, disk, clock);
    behavior::lemma_all_absent(
        disk,
        behavior::path_of(settings, request),
        exchange::forms(request, settings),
    );
}

/// A text is answered as it is, with its type and the headers given, and without the body to
/// `HEAD`.
pub proof fn texts_are_sent_as_they_are(
    deadline: u64,
    method: Method,
    path: Seq<char>,
    status: Status,
    body: Seq<char>,
    kind: Seq<char>,
    headers: Seq<(Seq<char>, Seq<char>)>,
    clock: Clock,
)
    requires
        encode_utf8(body).len() <= u64::MAX,
    ensures
        ({
            let reply = exchange::text_reply(
                deadline,
                method,
                path,
                status,
                body,
                kind,
                headers,
                clock,
            );
            &&& reply.method == if method is Get {
                "GET"@
            } else {
                "HEAD"@
            }
            &&& reply.path == path
            &&& reply.status == status
            &&& reply.deadline == deadline
            &&& reply.error is None
            &&& reply.body == if method is Get {
                exchange::BodyModel::Bytes(encode_utf8(body))
            } else {
                exchange::BodyModel::Nothing
            }
            &&& fields::is_head(
                reply.head,
                status,
                seq![
                    ("Server"@, "statika"@),
                    ("Connection"@, "close"@),
                    ("X-Content-Type-Options"@, "nosniff"@),
                    ("Date"@, crate::date::http_date_text(clock.unix_seconds as int)),
                    ("Content-Length"@, text::decimal(encode_utf8(body).len())),
                    ("Content-Type"@, kind),
                ] + headers,
            )
        }),
{
    reveal(exchange::text_reply);
    let length = encode_utf8(body).len() as u64;
    let all = crate::response::head_fields(length, Some(kind), headers, clock.unix_seconds);
    assert(all =~= seq![
        ("Server"@, "statika"@),
        ("Connection"@, "close"@),
        ("X-Content-Type-Options"@, "nosniff"@),
        ("Date"@, crate::date::http_date_text(clock.unix_seconds as int)),
        ("Content-Length"@, text::decimal(encode_utf8(body).len())),
        ("Content-Type"@, kind),
    ] + headers);
}

/// A response whose body was written is logged with all bytes of it, one whose file was sent with
/// as many as were sent; what was not delivered is logged without any, and with that error.
pub proof fn bodies_are_counted(reply: exchange::ReplyModel, bytes: u64)
    ensures
        reply.body matches exchange::BodyModel::Bytes(body) ==> (body.len() <= u64::MAX
            ==> logged_as(
            exchange::body_done(reply, true),
            reply,
            body.len() as u64,
            reply.error,
        )),
        logged_as(exchange::body_done(reply, false), reply, 0, Some("write_body"@)),
        logged_as(exchange::file_done(reply, Some(bytes)), reply, bytes, reply.error),
        logged_as(exchange::file_done(reply, None), reply, 0, Some("send_file"@)),
{
}

/// What is found of a file is there in the form that is found.
proof fn lemma_found_is_present(
    disk: spec_fn(Seq<Seq<u8>>) -> Entry,
    path: Seq<Seq<u8>>,
    left: Seq<RepresentationEncoding>,
)
    ensures
        behavior::first_form(disk, path, left) matches behavior::Found::File(form, meta) ==> disk(
            exchange::form_path(path, form),
        ) == Entry::Present(meta),
    decreases left.len(),
{
    if left.len() > 0 {
        lemma_found_is_present(disk, path, left.skip(1));
    }
}

/// Whether a response sends what is on the disk for a file, in that form, and says so.
pub open spec fn sends(
    reply: exchange::ReplyModel,
    settings: config::ConfigModel,
    file: exchange::FileModel,
    meta: FileMeta,
    disk: spec_fn(Seq<Seq<u8>>) -> Entry,
    clock: Clock,
) -> bool {
    &&& disk(exchange::form_path(file.path, file.form)) == Entry::Present(meta)
    &&& reply.status is NotModified || file.request.method is Head || reply.body
        == exchange::BodyModel::File(meta.len)
    &&& exists|found: Seq<(Seq<char>, Seq<char>)>|
        {
            &&& #[trigger] fields::is_head(reply.head, reply.status, found)
            &&& fields::values_of(found, "Content-Encoding"@) == match file.form {
                RepresentationEncoding::Br => seq!["br"@],
                RepresentationEncoding::Gzip => seq!["gzip"@],
                RepresentationEncoding::Identity => Seq::<Seq<char>>::empty(),
            }
            &&& fields::values_of(found, "Content-Length"@) == seq![text::decimal(meta.len as nat)]
            &&& fields::values_of(found, "ETag"@) == seq![crate::cache::etag_text(meta)]
        }
}

/// Every request for a file is answered with an error, or with the file that it is for or the index
/// in its place, in a form that is on the disk: a `.br` sidecar with the coding `br`, a `.gz`
/// sidecar with the coding `gzip`, and the file itself with none.
pub proof fn every_answer_says_what_is_sent(
    settings: config::ConfigModel,
    deadline: u64,
    request: http::RequestModel,
    disk: spec_fn(Seq<Seq<u8>>) -> Entry,
    clock: Clock,
)
    requires
        settings.valid(),
        behavior::for_file(settings, request),
    ensures
        ({
            let reply = behavior::answer(settings, deadline, request, disk, clock);
            reply.error is Some || exists|file: exchange::FileModel, meta: FileMeta|
                {
                    &&& #[trigger] sends(reply, settings, file, meta, disk, clock)
                    &&& file.request == request
                    &&& file.path == if file.fallback {
                        settings.index
                    } else {
                        behavior::path_of(settings, request)
                    }
                }
        }),
{
    let reply = behavior::answer(settings, deadline, request, disk, clock);
    let wanted = behavior::path_of(settings, request);
    let left = exchange::forms(request, settings);
    behavior::requests_for_files_are_answered(settings, deadline, request, disk, clock);
    lemma_found_is_present(disk, wanted, left);
    lemma_found_is_present(disk, settings.index, left);
    assert(reply.error is None ==> behavior::first_form(disk, wanted, left) is File
        || behavior::first_form(disk, settings.index, left) is File) by {
        reveal(exchange::error_reply);
    }
    if reply.error is None {
        let fallback = !(behavior::first_form(disk, wanted, left) is File);
        let path = if fallback {
            settings.index
        } else {
            wanted
        };
        let found = behavior::first_form(disk, path, left);
        let (form, meta) = (found->File_0, found->File_1);
        let file = exchange::FileModel { request, path, form, fallback, deadline };
        assert(reply == exchange::file_reply(settings, file, meta, clock)) by {
            reveal(exchange::error_reply);
        }
        answers_with_files_say_what_is_sent(settings, file, meta, clock);
        assert(sends(reply, settings, file, meta, disk, clock));
    }
}

} // verus!
