//! What the server promises of its answers, whatever the disk holds.

use vstd::prelude::*;
use vstd::utf8::*;

use crate::cache;
use crate::cache::FileMeta;
use crate::config;
use crate::exchange;
use crate::exchange::{Clock, RepresentationEncoding};
use crate::fs;
use crate::http;
use crate::http::Method;
use crate::mime;
use crate::response;
use crate::response::Status;
use crate::target;

verus! {

/// What there is at a path below the document root: a file that can be opened, nothing, or
/// something that fails to open for another reason.
pub enum Entry {
    Present(FileMeta),
    Absent,
    Failing,
}

/// What comes of opening what there is at a path.
pub open spec fn opening(entry: Entry) -> exchange::OpenResult {
    match entry {
        Entry::Present(_) => exchange::OpenResult::Opened,
        Entry::Absent => exchange::OpenResult::Missing,
        Entry::Failing => exchange::OpenResult::Failed,
    }
}

/// Where a search ends on a disk that does not change: each path is opened as the search asks for
/// it, and what came of it is handed back, until the search is over.
pub open spec fn settled(
    settings: config::ConfigModel,
    search: exchange::SearchModel,
    disk: spec_fn(Seq<Seq<u8>>) -> Entry,
    clock: Clock,
) -> exchange::ExchangeModel
    decreases
            if search.fallback {
                0int
            } else {
                1
            },
            search.left.len(),
{
    let opened = opening(disk(exchange::form_path(search.path, search.left[0])));
    match exchange::searched(settings, search, opened, clock) {
        exchange::ExchangeModel::Open(next) => settled(settings, next, disk, clock),
        other => other,
    }
}

/// The response to a request on a disk that does not change.
pub open spec fn answer(
    settings: config::ConfigModel,
    deadline: u64,
    request: http::RequestModel,
    disk: spec_fn(Seq<Seq<u8>>) -> Entry,
    clock: Clock,
) -> exchange::ReplyModel {
    let start = exchange::routed(settings, deadline, request, clock);
    let end = match start {
        exchange::ExchangeModel::Open(search) => settled(settings, search, disk, clock),
        other => other,
    };
    match end {
        exchange::ExchangeModel::Inspect(file) => {
            let meta = match disk(exchange::form_path(file.path, file.form)) {
                Entry::Present(meta) => Some(meta),
                _ => None,
            };
            exchange::inspected(settings, file, meta, clock)->WriteHead_0
        },
        other => other->WriteHead_0,
    }
}

/// What is found of a file in the forms that it is looked for in.
pub enum Found {
    File(RepresentationEncoding, FileMeta),
    Nothing,
    Failure,
}

/// What is found of a file: the first of the forms that there is anything of.
pub open spec fn first_form(
    disk: spec_fn(Seq<Seq<u8>>) -> Entry,
    path: Seq<Seq<u8>>,
    left: Seq<RepresentationEncoding>,
) -> Found
    decreases left.len(),
{
    if left.len() == 0 {
        Found::Nothing
    } else {
        match disk(exchange::form_path(path, left[0])) {
            Entry::Present(meta) => Found::File(left[0], meta),
            Entry::Failing => Found::Failure,
            Entry::Absent => first_form(disk, path, left.skip(1)),
        }
    }
}

/// The response with a file that was found.
pub open spec fn served(
    settings: config::ConfigModel,
    deadline: u64,
    request: http::RequestModel,
    path: Seq<Seq<u8>>,
    fallback: bool,
    form: RepresentationEncoding,
    meta: FileMeta,
    clock: Clock,
) -> exchange::ReplyModel {
    exchange::file_reply(
        settings,
        exchange::FileModel { request, path, form, fallback, deadline },
        meta,
        clock,
    )
}

/// The response to a request that is turned down.
pub open spec fn turned_down(
    settings: config::ConfigModel,
    deadline: u64,
    request: http::RequestModel,
    status: Status,
    error: Seq<char>,
    clock: Clock,
) -> exchange::ReplyModel {
    exchange::error_reply(
        deadline,
        http::method_name(request.method),
        exchange::logged_path(request.target),
        status,
        error,
        settings.extra_headers,
        clock,
    )
}

/// The response in place of a file that is not there: the index, but not for assets.
pub open spec fn without_file(
    settings: config::ConfigModel,
    deadline: u64,
    request: http::RequestModel,
    asset: bool,
    disk: spec_fn(Seq<Seq<u8>>) -> Entry,
    clock: Clock,
) -> exchange::ReplyModel {
    let turn_down = |status: Status, error: Seq<char>|
        turned_down(settings, deadline, request, status, error, clock);
    if asset {
        turn_down(Status::NotFound, "not_found"@)
    } else if settings.deny_dotfiles && exchange::denied_path(settings.index) {
        turn_down(Status::NotFound, "dotfile_denied"@)
    } else {
        match first_form(disk, settings.index, exchange::forms(request, settings)) {
            Found::File(form, meta) => served(
                settings,
                deadline,
                request,
                settings.index,
                true,
                form,
                meta,
                clock,
            ),
            Found::Nothing => turn_down(Status::NotFound, "not_found"@),
            Found::Failure => turn_down(Status::InternalServerError, "open_index"@),
        }
    }
}

/// The response to a request for a path, on a disk that does not change.
pub open spec fn expected(
    settings: config::ConfigModel,
    deadline: u64,
    request: http::RequestModel,
    path: Seq<Seq<u8>>,
    asset: bool,
    disk: spec_fn(Seq<Seq<u8>>) -> Entry,
    clock: Clock,
) -> exchange::ReplyModel {
    match first_form(disk, path, exchange::forms(request, settings)) {
        Found::File(form, meta) => served(
            settings,
            deadline,
            request,
            path,
            false,
            form,
            meta,
            clock,
        ),
        Found::Nothing => without_file(settings, deadline, request, asset, disk, clock),
        Found::Failure => turned_down(
            settings,
            deadline,
            request,
            Status::InternalServerError,
            "open_file"@,
            clock,
        ),
    }
}

/// Whether a request is one for a file: not for the health of the server, and not for a dotfile
/// that is denied.
pub open spec fn for_file(settings: config::ConfigModel, request: http::RequestModel) -> bool {
    match target::decoded_target(request.target) {
        Some(decoded) => {
            &&& !exchange::health_path(decoded.components)
            &&& !(settings.deny_dotfiles && exchange::denied_path(
                exchange::wanted_path(settings, decoded),
            ))
        },
        None => false,
    }
}

/// The path of the file that a request is for.
pub open spec fn path_of(settings: config::ConfigModel, request: http::RequestModel) -> Seq<
    Seq<u8>,
> {
    exchange::wanted_path(settings, target::decoded_target(request.target)->0)
}

/// Whether a request is one for an asset.
pub open spec fn for_asset(settings: config::ConfigModel, request: http::RequestModel) -> bool {
    settings.assets_prefix.is_prefix_of(target::decoded_target(request.target)->0.components)
}

proof fn lemma_settled_index(
    settings: config::ConfigModel,
    search: exchange::SearchModel,
    disk: spec_fn(Seq<Seq<u8>>) -> Entry,
    clock: Clock,
)
    requires
        search.fallback,
        search.left.len() > 0,
    ensures
        settled(settings, search, disk, clock) == match first_form(disk, search.path, search.left) {
            Found::File(form, meta) => exchange::ExchangeModel::Inspect(
                exchange::FileModel {
                    request: search.request,
                    path: search.path,
                    form,
                    fallback: true,
                    deadline: search.deadline,
                },
            ),
            Found::Nothing => exchange::turned_down(
                settings,
                search.request,
                search.deadline,
                Status::NotFound,
                "not_found"@,
                clock,
            ),
            Found::Failure => exchange::turned_down(
                settings,
                search.request,
                search.deadline,
                Status::InternalServerError,
                "open_index"@,
                clock,
            ),
        },
        first_form(disk, search.path, search.left) matches Found::File(form, meta) ==> disk(
            exchange::form_path(search.path, form),
        ) == Entry::Present(meta),
    decreases search.left.len(),
{
    let entry = disk(exchange::form_path(search.path, search.left[0]));
    if entry is Absent {
        if search.left.len() > 1 {
            let next = exchange::SearchModel { left: search.left.skip(1), ..search };
            lemma_settled_index(settings, next, disk, clock);
        } else {
            assert(search.left.skip(1).len() == 0);
            assert(first_form(disk, search.path, search.left.skip(1)) is Nothing);
        }
    }
}

proof fn lemma_settled(
    settings: config::ConfigModel,
    search: exchange::SearchModel,
    disk: spec_fn(Seq<Seq<u8>>) -> Entry,
    clock: Clock,
)
    requires
        !search.fallback,
        search.left.len() > 0,
    ensures
        first_form(disk, search.path, search.left) matches Found::File(form, meta) ==> {
            &&& disk(exchange::form_path(search.path, form)) == Entry::Present(meta)
            &&& settled(settings, search, disk, clock) == exchange::ExchangeModel::Inspect(
                exchange::FileModel {
                    request: search.request,
                    path: search.path,
                    form,
                    fallback: false,
                    deadline: search.deadline,
                },
            )
        },
        first_form(disk, search.path, search.left) is Failure ==> settled(
            settings,
            search,
            disk,
            clock,
        ) == exchange::turned_down(
            settings,
            search.request,
            search.deadline,
            Status::InternalServerError,
            "open_file"@,
            clock,
        ),
        first_form(disk, search.path, search.left) is Nothing ==> settled(
            settings,
            search,
            disk,
            clock,
        ) == if search.asset {
            exchange::turned_down(
                settings,
                search.request,
                search.deadline,
                Status::NotFound,
                "not_found"@,
                clock,
            )
        } else if settings.deny_dotfiles && exchange::denied_path(settings.index) {
            exchange::turned_down(
                settings,
                search.request,
                search.deadline,
                Status::NotFound,
                "dotfile_denied"@,
                clock,
            )
        } else {
            settled(
                settings,
                exchange::SearchModel {
                    path: settings.index,
                    left: exchange::forms(search.request, settings),
                    fallback: true,
                    ..search
                },
                disk,
                clock,
            )
        },
    decreases search.left.len(),
{
    let entry = disk(exchange::form_path(search.path, search.left[0]));
    if entry is Absent {
        if search.left.len() > 1 {
            let next = exchange::SearchModel { left: search.left.skip(1), ..search };
            lemma_settled(settings, next, disk, clock);
        } else {
            assert(search.left.skip(1).len() == 0);
            assert(first_form(disk, search.path, search.left.skip(1)) is Nothing);
        }
    }
}

/// Every request for a file is answered: with the first form of the file that is there, else,
/// unless it is an asset, with that of the index, else with an error.
pub proof fn requests_for_files_are_answered(
    settings: config::ConfigModel,
    deadline: u64,
    request: http::RequestModel,
    disk: spec_fn(Seq<Seq<u8>>) -> Entry,
    clock: Clock,
)
    requires
        for_file(settings, request),
    ensures
        answer(settings, deadline, request, disk, clock) == expected(
            settings,
            deadline,
            request,
            path_of(settings, request),
            for_asset(settings, request),
            disk,
            clock,
        ),
{
    let search = exchange::routed(settings, deadline, request, clock)->Open_0;
    lemma_settled(settings, search, disk, clock);
    let next = exchange::SearchModel {
        path: settings.index,
        left: exchange::forms(request, settings),
        fallback: true,
        ..search
    };
    lemma_settled_index(settings, next, disk, clock);
}

/// Whether there is nothing of a file, in none of the forms that a client takes.
pub open spec fn all_absent(
    disk: spec_fn(Seq<Seq<u8>>) -> Entry,
    path: Seq<Seq<u8>>,
    left: Seq<RepresentationEncoding>,
) -> bool {
    forall|i: int| 0 <= i < left.len() ==> disk(exchange::form_path(path, #[trigger] left[i])) is Absent
}

pub(crate) proof fn lemma_all_absent(
    disk: spec_fn(Seq<Seq<u8>>) -> Entry,
    path: Seq<Seq<u8>>,
    left: Seq<RepresentationEncoding>,
)
    requires
        all_absent(disk, path, left),
    ensures
        first_form(disk, path, left) is Nothing,
    decreases left.len(),
{
    if left.len() > 0 {
        assert(disk(exchange::form_path(path, left[0])) is Absent);
        let rest = left.skip(1);
        assert forall|i: int| 0 <= i < rest.len() implies disk(
            exchange::form_path(path, #[trigger] rest[i]),
        ) is Absent by {
            assert(rest[i] == left[i + 1]);
        }
        lemma_all_absent(disk, path, rest);
    }
}

proof fn lemma_found_form(
    disk: spec_fn(Seq<Seq<u8>>) -> Entry,
    path: Seq<Seq<u8>>,
    left: Seq<RepresentationEncoding>,
)
    ensures
        first_form(disk, path, left) matches Found::File(form, meta) ==> left.contains(form),
    decreases left.len(),
{
    if left.len() > 0 {
        assert(left.contains(left[0]));
        let rest = left.skip(1);
        lemma_found_form(disk, path, rest);
        if first_form(disk, path, rest) is File {
            let form = first_form(disk, path, rest)->File_0;
            let i = choose|i: int| 0 <= i < rest.len() && rest[i] == form;
            assert(left[i + 1] == form);
        }
    }
}

/// A missing asset is answered with `404 Not Found`, never with the index.
pub proof fn missing_assets_are_not_found(
    settings: config::ConfigModel,
    deadline: u64,
    request: http::RequestModel,
    disk: spec_fn(Seq<Seq<u8>>) -> Entry,
    clock: Clock,
)
    requires
        for_file(settings, request),
        for_asset(settings, request),
        all_absent(disk, path_of(settings, request), exchange::forms(request, settings)),
    ensures
        answer(settings, deadline, request, disk, clock) == turned_down(
            settings,
            deadline,
            request,
            Status::NotFound,
            "not_found"@,
            clock,
        ),
{
    requests_for_files_are_answered(settings, deadline, request, disk, clock);
    lemma_all_absent(disk, path_of(settings, request), exchange::forms(request, settings));
}

/// A missing path outside the assets is answered with the index, where that can be served.
pub proof fn missing_paths_fall_back_to_the_index(
    settings: config::ConfigModel,
    deadline: u64,
    request: http::RequestModel,
    disk: spec_fn(Seq<Seq<u8>>) -> Entry,
    clock: Clock,
)
    requires
        for_file(settings, request),
        !for_asset(settings, request),
        all_absent(disk, path_of(settings, request), exchange::forms(request, settings)),
        !(settings.deny_dotfiles && exchange::denied_path(settings.index)),
        first_form(disk, settings.index, exchange::forms(request, settings)) is File,
    ensures
        ({
            let found = first_form(disk, settings.index, exchange::forms(request, settings));
            answer(settings, deadline, request, disk, clock) == served(
                settings,
                deadline,
                request,
                settings.index,
                true,
                found->File_0,
                found->File_1,
                clock,
            )
        }),
{
    requests_for_files_are_answered(settings, deadline, request, disk, clock);
    lemma_all_absent(disk, path_of(settings, request), exchange::forms(request, settings));
}

/// Where neither the path nor the index is there, the answer is `404 Not Found`.
pub proof fn without_an_index_missing_paths_are_not_found(
    settings: config::ConfigModel,
    deadline: u64,
    request: http::RequestModel,
    disk: spec_fn(Seq<Seq<u8>>) -> Entry,
    clock: Clock,
)
    requires
        for_file(settings, request),
        all_absent(disk, path_of(settings, request), exchange::forms(request, settings)),
        all_absent(disk, settings.index, exchange::forms(request, settings)),
    ensures
        answer(settings, deadline, request, disk, clock).status is NotFound,
{
    reveal(exchange::error_reply);
    requests_for_files_are_answered(settings, deadline, request, disk, clock);
    lemma_all_absent(disk, path_of(settings, request), exchange::forms(request, settings));
    lemma_all_absent(disk, settings.index, exchange::forms(request, settings));
}

proof fn lemma_gzip_form(
    settings: config::ConfigModel,
    request: http::RequestModel,
    disk: spec_fn(Seq<Seq<u8>>) -> Entry,
    path: Seq<Seq<u8>>,
    meta: FileMeta,
)
    requires
        settings.gzip_enabled,
        request.gzip_q > 0,
        disk(fs::sidecar(path, ".gz"@)) == Entry::Present(meta),
        settings.brotli_enabled && request.br_q >= request.gzip_q ==> disk(
            fs::sidecar(path, ".br"@),
        ) is Absent,
    ensures
        first_form(disk, path, exchange::forms(request, settings)) == Found::File(
            RepresentationEncoding::Gzip,
            meta,
        ),
{
    let left = exchange::forms(request, settings);
    if left[0] is Br {
        assert(left.skip(1)[0] is Gzip);
        assert(first_form(disk, path, left.skip(1)) == Found::File(
            RepresentationEncoding::Gzip,
            meta,
        ));
    }
}

proof fn lemma_brotli_form(
    settings: config::ConfigModel,
    request: http::RequestModel,
    disk: spec_fn(Seq<Seq<u8>>) -> Entry,
    path: Seq<Seq<u8>>,
    meta: FileMeta,
)
    requires
        settings.brotli_enabled,
        request.br_q > 0,
        disk(fs::sidecar(path, ".br"@)) == Entry::Present(meta),
        settings.gzip_enabled && request.gzip_q > request.br_q ==> disk(
            fs::sidecar(path, ".gz"@),
        ) is Absent,
    ensures
        first_form(disk, path, exchange::forms(request, settings)) == Found::File(
            RepresentationEncoding::Br,
            meta,
        ),
{
    let left = exchange::forms(request, settings);
    if left[0] is Gzip {
        assert(left.skip(1)[0] is Br);
        assert(first_form(disk, path, left.skip(1)) == Found::File(
            RepresentationEncoding::Br,
            meta,
        ));
    }
}

proof fn lemma_plain_form(
    settings: config::ConfigModel,
    request: http::RequestModel,
    disk: spec_fn(Seq<Seq<u8>>) -> Entry,
    path: Seq<Seq<u8>>,
    meta: FileMeta,
)
    requires
        disk(path) == Entry::Present(meta),
        settings.brotli_enabled && request.br_q > 0 ==> disk(fs::sidecar(path, ".br"@)) is Absent,
        settings.gzip_enabled && request.gzip_q > 0 ==> disk(fs::sidecar(path, ".gz"@)) is Absent,
    ensures
        first_form(disk, path, exchange::forms(request, settings)) == Found::File(
            RepresentationEncoding::Identity,
            meta,
        ),
{
    let left = exchange::forms(request, settings);
    let plain = Found::File(RepresentationEncoding::Identity, meta);
    if left.len() == 2 {
        assert(left.skip(1)[0] is Identity);
        assert(first_form(disk, path, left.skip(1)) == plain);
    } else if left.len() == 3 {
        let last = left.skip(1).skip(1);
        assert(last[0] is Identity);
        assert(first_form(disk, path, last) == plain);
        assert(first_form(disk, path, left.skip(1)) == plain);
    }
}

/// A gzip sidecar is served to a client that accepts gzip, unless the client takes Brotli just as
/// gladly and there is anything of a Brotli sidecar.
pub proof fn gzip_sidecars_are_served(
    settings: config::ConfigModel,
    deadline: u64,
    request: http::RequestModel,
    disk: spec_fn(Seq<Seq<u8>>) -> Entry,
    meta: FileMeta,
    clock: Clock,
)
    requires
        for_file(settings, request),
        settings.gzip_enabled,
        request.gzip_q > 0,
        disk(fs::sidecar(path_of(settings, request), ".gz"@)) == Entry::Present(meta),
        settings.brotli_enabled && request.br_q >= request.gzip_q ==> disk(
            fs::sidecar(path_of(settings, request), ".br"@),
        ) is Absent,
    ensures
        answer(settings, deadline, request, disk, clock) == served(
            settings,
            deadline,
            request,
            path_of(settings, request),
            false,
            RepresentationEncoding::Gzip,
            meta,
            clock,
        ),
{
    requests_for_files_are_answered(settings, deadline, request, disk, clock);
    lemma_gzip_form(settings, request, disk, path_of(settings, request), meta);
}

/// A Brotli sidecar is served to a client that accepts Brotli, unless the client prefers gzip and
/// there is anything of a gzip sidecar: Brotli wins ties.
pub proof fn brotli_sidecars_are_served(
    settings: config::ConfigModel,
    deadline: u64,
    request: http::RequestModel,
    disk: spec_fn(Seq<Seq<u8>>) -> Entry,
    meta: FileMeta,
    clock: Clock,
)
    requires
        for_file(settings, request),
        settings.brotli_enabled,
        request.br_q > 0,
        disk(fs::sidecar(path_of(settings, request), ".br"@)) == Entry::Present(meta),
        settings.gzip_enabled && request.gzip_q > request.br_q ==> disk(
            fs::sidecar(path_of(settings, request), ".gz"@),
        ) is Absent,
    ensures
        answer(settings, deadline, request, disk, clock) == served(
            settings,
            deadline,
            request,
            path_of(settings, request),
            false,
            RepresentationEncoding::Br,
            meta,
            clock,
        ),
{
    requests_for_files_are_answered(settings, deadline, request, disk, clock);
    lemma_brotli_form(settings, request, disk, path_of(settings, request), meta);
}

/// The file itself is served to a client when there is nothing of a sidecar that the client
/// accepts.
pub proof fn plain_files_are_served(
    settings: config::ConfigModel,
    deadline: u64,
    request: http::RequestModel,
    disk: spec_fn(Seq<Seq<u8>>) -> Entry,
    meta: FileMeta,
    clock: Clock,
)
    requires
        for_file(settings, request),
        disk(path_of(settings, request)) == Entry::Present(meta),
        settings.brotli_enabled && request.br_q > 0 ==> disk(
            fs::sidecar(path_of(settings, request), ".br"@),
        ) is Absent,
        settings.gzip_enabled && request.gzip_q > 0 ==> disk(
            fs::sidecar(path_of(settings, request), ".gz"@),
        ) is Absent,
    ensures
        answer(settings, deadline, request, disk, clock) == served(
            settings,
            deadline,
            request,
            path_of(settings, request),
            false,
            RepresentationEncoding::Identity,
            meta,
            clock,
        ),
{
    requests_for_files_are_answered(settings, deadline, request, disk, clock);
    lemma_plain_form(settings, request, disk, path_of(settings, request), meta);
}

/// A client is never served a form that it does not accept or that the configuration forbids.
pub proof fn refused_forms_are_not_served(
    settings: config::ConfigModel,
    request: http::RequestModel,
    disk: spec_fn(Seq<Seq<u8>>) -> Entry,
    path: Seq<Seq<u8>>,
)
    ensures
        first_form(disk, path, exchange::forms(request, settings)) matches Found::File(form, meta)
            ==> match form {
            RepresentationEncoding::Br => settings.brotli_enabled && request.br_q > 0,
            RepresentationEncoding::Gzip => settings.gzip_enabled && request.gzip_q > 0,
            RepresentationEncoding::Identity => true,
        },
{
    lemma_found_form(disk, path, exchange::forms(request, settings));
}

/// A health check is answered with `200 OK`, whatever the disk holds and without looking at it.
pub proof fn health_checks_are_answered(
    settings: config::ConfigModel,
    deadline: u64,
    request: http::RequestModel,
    clock: Clock,
)
    requires
        target::decoded_target(request.target) matches Some(decoded) && exchange::health_path(
            decoded.components,
        ),
    ensures
        exchange::routed(settings, deadline, request, clock)
            matches exchange::ExchangeModel::WriteHead(reply) && {
            &&& reply.status is Okay
            &&& request.method is Get ==> reply.body == exchange::BodyModel::Bytes(
                encode_utf8("ok\n"@),
            )
            &&& request.method is Head ==> reply.body is Nothing
        },
{
    reveal(exchange::text_reply);
}

/// A target that leads out of the document root, or cannot be decoded, is answered with
/// `400 Bad Request`, without looking at the disk.
pub proof fn bad_targets_are_refused(
    settings: config::ConfigModel,
    deadline: u64,
    request: http::RequestModel,
    clock: Clock,
)
    requires
        target::decoded_target(request.target) is None,
    ensures
        exchange::routed(settings, deadline, request, clock)
            matches exchange::ExchangeModel::WriteHead(reply) && reply.status is BadRequest,
{
    reveal(exchange::error_reply);
}

/// Where dotfiles are denied, a request whose path leads through one, be it in the target or in the
/// index below a directory, is answered with `404 Not Found` for that reason. Nothing is opened and
/// the index does not stand in, so the answer is the same whatever the disk holds: it does not
/// reveal whether the dotfile exists. Health checks are answered before.
pub proof fn dotfiles_are_not_served(
    settings: config::ConfigModel,
    deadline: u64,
    request: http::RequestModel,
    disk: spec_fn(Seq<Seq<u8>>) -> Entry,
    other_disk: spec_fn(Seq<Seq<u8>>) -> Entry,
    clock: Clock,
)
    requires
        settings.deny_dotfiles,
        target::decoded_target(request.target) matches Some(decoded) && !exchange::health_path(
            decoded.components,
        ) && exchange::denied_path(exchange::wanted_path(settings, decoded)),
    ensures
        ({
            let reply = turned_down(
                settings,
                deadline,
                request,
                Status::NotFound,
                "dotfile_denied"@,
                clock,
            );
            &&& exchange::routed(settings, deadline, request, clock)
                == exchange::ExchangeModel::WriteHead(reply)
            &&& answer(settings, deadline, request, disk, clock) == reply
            &&& answer(settings, deadline, request, other_disk, clock) == reply
            &&& reply.status is NotFound
            &&& reply.error == Some("dotfile_denied"@)
        }),
{
    reveal(exchange::error_reply);
}

/// A target with a dotfile in it is never one of a health check, so that, where dotfiles are
/// denied, every such request is answered as one for a dotfile.
pub proof fn targets_with_dotfiles_are_denied(
    settings: config::ConfigModel,
    deadline: u64,
    request: http::RequestModel,
    disk: spec_fn(Seq<Seq<u8>>) -> Entry,
    clock: Clock,
)
    requires
        settings.deny_dotfiles,
        target::decoded_target(request.target) matches Some(decoded) && exchange::denied_path(
            decoded.components,
        ),
    ensures
        answer(settings, deadline, request, disk, clock) == turned_down(
            settings,
            deadline,
            request,
            Status::NotFound,
            "dotfile_denied"@,
            clock,
        ),
{
    let decoded = target::decoded_target(request.target)->0;
    let path = exchange::wanted_path(settings, decoded);
    let i = choose|i: int|
        0 <= i < decoded.components.len() && exchange::denied_component(decoded.components, i);
    assert(path[i] == decoded.components[i]);
    assert(exchange::denied_component(path, i));
    if exchange::health_path(decoded.components) {
        reveal_strlit("health");
        reveal_strlit("healthz");
        is_ascii_chars_encode_utf8("health"@);
        is_ascii_chars_encode_utf8("healthz"@);
        assert(decoded.components[0][0] == 104u8);
    }
    dotfiles_are_not_served(settings, deadline, request, disk, disk, clock);
}

/// A request with any other method than `GET` and `HEAD` is answered with `405 Method Not Allowed`
/// and the methods that are allowed.
pub proof fn other_methods_are_refused(
    settings: config::ConfigModel,
    deadline: u64,
    method: Seq<char>,
    clock: Clock,
)
    ensures
        exchange::refused(settings, deadline, http::Refusal::MethodNotAllowed(method), clock)
            matches exchange::ExchangeModel::WriteHead(reply) && reply.status is MethodNotAllowed,
        exchange::error_headers(Status::MethodNotAllowed, settings.extra_headers).contains(
            ("Allow"@, "GET, HEAD"@),
        ),
{
    reveal(exchange::error_reply);
    let headers = exchange::error_headers(Status::MethodNotAllowed, settings.extra_headers);
    assert(headers[1] == ("Allow"@, "GET, HEAD"@));
}

/// Whether a search is one that may be made: below the document root, for a path that is not
/// denied.
pub open spec fn permitted(settings: config::ConfigModel, search: exchange::SearchModel) -> bool {
    &&& search.left.len() > 0
    &&& search.path.len() > 0
    &&& target::safe_path(search.path)
    &&& settings.deny_dotfiles ==> !exchange::denied_path(search.path)
}

/// Every search that a request begins stays below the document root and away from denied dotfiles.
pub proof fn searches_begin_permitted(
    settings: config::ConfigModel,
    deadline: u64,
    request: http::RequestModel,
    clock: Clock,
)
    requires
        settings.valid(),
    ensures
        exchange::routed(settings, deadline, request, clock)
            matches exchange::ExchangeModel::Open(search) ==> permitted(settings, search),
{
    if exchange::routed(settings, deadline, request, clock) is Open {
        target::decoded_paths_stay_below_the_root(request.target);
    }
}

/// Every search stays permitted, whatever comes of opening a file.
pub proof fn searches_stay_permitted(
    settings: config::ConfigModel,
    search: exchange::SearchModel,
    result: exchange::OpenResult,
    clock: Clock,
)
    requires
        settings.valid(),
        permitted(settings, search),
    ensures
        exchange::searched(settings, search, result, clock)
            matches exchange::ExchangeModel::Open(next) ==> permitted(settings, next),
{
}

/// A permitted search opens nothing outside the document root.
pub proof fn opened_paths_stay_below_the_root(
    settings: config::ConfigModel,
    search: exchange::SearchModel,
)
    requires
        permitted(settings, search),
    ensures
        exchange::form_path(search.path, search.left[0]).len() > 0,
        target::safe_path(exchange::form_path(search.path, search.left[0])),
{
    fs::sidecars_stay_below_the_root(search.path);
}

/// Where dotfiles are denied, a permitted search opens none, unless the file itself is the leading
/// `.well-known`, whose sidecars have other names.
pub proof fn opened_paths_are_not_denied(
    settings: config::ConfigModel,
    search: exchange::SearchModel,
)
    requires
        permitted(settings, search),
        settings.deny_dotfiles,
        search.path != seq![encode_utf8(".well-known"@)],
    ensures
        !exchange::denied_path(exchange::form_path(search.path, search.left[0])),
{
    let path = exchange::form_path(search.path, search.left[0]);
    assert forall|i: int| 0 <= i < path.len() implies !#[trigger] exchange::denied_component(
        path,
        i,
    ) by {
        assert(!exchange::denied_component(search.path, i));
        if search.left[0] !is Identity {
            if i < path.len() - 1 {
                assert(path[i] == search.path[i]);
            } else {
                assert(search.path[i].len() > 0 ==> path[i][0] == search.path[i][0]);
                if i == 0 && search.path[0] == encode_utf8(".well-known"@) {
                    assert(search.path =~= seq![encode_utf8(".well-known"@)]);
                }
            }
        }
    }
}

/// The answer to `HEAD` has the head of the answer to `GET` and no body.
pub proof fn head_is_get_without_the_body(
    settings: config::ConfigModel,
    file: exchange::FileModel,
    meta: FileMeta,
    clock: Clock,
)
    requires
        file.request.method is Head,
    ensures
        ({
            let get = exchange::FileModel {
                request: http::RequestModel { method: Method::Get, ..file.request },
                ..file
            };
            let to_head = exchange::file_reply(settings, file, meta, clock);
            let to_get = exchange::file_reply(settings, get, meta, clock);
            &&& to_head.head == to_get.head
            &&& to_head.status == to_get.status
            &&& to_head.body is Nothing
        }),
{
    reveal(exchange::file_reply);
}

/// A client that already has the file is told so, and is not sent the file.
pub proof fn unchanged_files_are_not_sent(
    settings: config::ConfigModel,
    file: exchange::FileModel,
    meta: FileMeta,
    clock: Clock,
)
    ensures
        ({
            let reply = exchange::file_reply(settings, file, meta, clock);
            let unchanged = cache::not_modified(
                file.request,
                cache::etag_text(meta),
                meta.mtime as int,
            );
            &&& reply.status == if unchanged {
                Status::NotModified
            } else {
                Status::Okay
            }
            &&& unchanged ==> reply.body is Nothing
            &&& !unchanged && file.request.method is Get ==> reply.body
                == exchange::BodyModel::File(meta.len)
        }),
{
    reveal(exchange::file_reply);
}

/// Fingerprinted assets may be kept for a year, other assets for an hour; the index, what it stands
/// in for and everything that is no asset has to be checked every time.
pub proof fn cache_lifetimes(
    settings: config::ConfigModel,
    path: Seq<Seq<u8>>,
    fallback: bool,
    form: RepresentationEncoding,
    meta: FileMeta,
)
    ensures
        ({
            let policy = exchange::file_headers(settings, path, form, fallback, meta)[0];
            let asset = settings.assets_prefix.is_prefix_of(path) && path != settings.index
                && !fallback;
            &&& policy.0 == "Cache-Control"@
            &&& asset && mime::fingerprinted(path) ==> policy.1
                == "public, max-age=31536000, immutable"@
            &&& asset && !mime::fingerprinted(path) ==> policy.1 == "public, max-age=3600"@
            &&& !asset ==> policy.1 == "no-cache"@
        }),
{
}

/// Waiting in the queue counts toward the time that a connection has: its request is read only
/// before the time is over, and else it is told so.
pub proof fn waiting_counts(settings: config::ConfigModel, deadline: u64, clock: Clock)
    ensures
        clock.nanos < deadline ==> exchange::begun(settings, deadline, clock)
            == exchange::ExchangeModel::Read(deadline),
        clock.nanos >= deadline ==> (exchange::begun(settings, deadline, clock)
            matches exchange::ExchangeModel::WriteHead(reply) && reply.status is RequestTimeout),
{
    reveal(exchange::error_reply);
}

/// Whether a response gets no more time than its connection has, or, to report an error, no more
/// than a quarter of a second from now.
pub open spec fn in_time(reply: exchange::ReplyModel, deadline: u64, clock: Clock) -> bool {
    reply.deadline == deadline || reply.error is Some && reply.deadline <= clock.nanos
        + exchange::ERROR_RESPONSE_NANOS
}

/// Whether a response carries the configured headers behind its own.
pub open spec fn carries_configured_headers(
    reply: exchange::ReplyModel,
    settings: config::ConfigModel,
    clock: Clock,
) -> bool {
    exists|length: u64, kind: Option<Seq<char>>, own: Seq<(Seq<char>, Seq<char>)>|
        reply.head == #[trigger] response::head_bytes(
            reply.status,
            length,
            kind,
            own + settings.extra_headers,
            clock.unix_seconds,
        )
}

/// Every error response is in time, and carries the configured headers.
pub proof fn error_replies_are_in_order(
    settings: config::ConfigModel,
    deadline: u64,
    method: Seq<char>,
    path: Seq<char>,
    status: Status,
    error: Seq<char>,
    clock: Clock,
)
    ensures
        ({
            let reply = exchange::error_reply(
                deadline,
                method,
                path,
                status,
                error,
                settings.extra_headers,
                clock,
            );
            in_time(reply, deadline, clock) && carries_configured_headers(reply, settings, clock)
        }),
{
    reveal(exchange::error_reply);
    let reply = exchange::error_reply(
        deadline,
        method,
        path,
        status,
        error,
        settings.extra_headers,
        clock,
    );
    let own = exchange::error_headers(status, seq![]);
    assert(own + settings.extra_headers =~= exchange::error_headers(
        status,
        settings.extra_headers,
    ));
    assert(reply.head == response::head_bytes(
        status,
        encode_utf8(exchange::error_text(status)).len() as u64,
        Some("text/plain; charset=utf-8"@),
        own + settings.extra_headers,
        clock.unix_seconds,
    ));
}

proof fn lemma_file_replies_are_in_order(
    settings: config::ConfigModel,
    file: exchange::FileModel,
    meta: FileMeta,
    clock: Clock,
)
    ensures
        ({
            let reply = exchange::file_reply(settings, file, meta, clock);
            in_time(reply, file.deadline, clock) && carries_configured_headers(
                reply,
                settings,
                clock,
            )
        }),
{
    reveal(exchange::file_reply);
    let reply = exchange::file_reply(settings, file, meta, clock);
    let bare = config::ConfigModel { extra_headers: seq![], ..settings };
    let own = exchange::file_headers(bare, file.path, file.form, file.fallback, meta);
    assert(cache::cache_policy(file.path, file.fallback, bare) == cache::cache_policy(
        file.path,
        file.fallback,
        settings,
    ));
    assert(own + settings.extra_headers =~= exchange::file_headers(
        settings,
        file.path,
        file.form,
        file.fallback,
        meta,
    ));
    let kind = if reply.status is NotModified {
        None
    } else {
        Some(mime::media_type(mime::extension(file.path)))
    };
    assert(reply.head == response::head_bytes(
        reply.status,
        meta.len,
        kind,
        own + settings.extra_headers,
        clock.unix_seconds,
    ));
}

/// Every response to a request is in time, and carries the configured headers.
pub proof fn answers_are_in_order(
    settings: config::ConfigModel,
    deadline: u64,
    request: http::RequestModel,
    disk: spec_fn(Seq<Seq<u8>>) -> Entry,
    clock: Clock,
)
    ensures
        in_time(answer(settings, deadline, request, disk, clock), deadline, clock),
        carries_configured_headers(
            answer(settings, deadline, request, disk, clock),
            settings,
            clock,
        ),
{
    let method = http::method_name(request.method);
    let path = exchange::logged_path(request.target);
    let (missing, broken) = (Status::NotFound, Status::InternalServerError);
    error_replies_are_in_order(
        settings,
        deadline,
        method,
        path,
        Status::BadRequest,
        "bad_target"@,
        clock,
    );
    error_replies_are_in_order(
        settings,
        deadline,
        method,
        path,
        missing,
        "dotfile_denied"@,
        clock,
    );
    error_replies_are_in_order(settings, deadline, method, path, missing, "not_found"@, clock);
    error_replies_are_in_order(settings, deadline, method, path, broken, "open_file"@, clock);
    error_replies_are_in_order(settings, deadline, method, path, broken, "open_index"@, clock);
    if for_file(settings, request) {
        requests_for_files_are_answered(settings, deadline, request, disk, clock);
        let wanted = path_of(settings, request);
        let left = exchange::forms(request, settings);
        lemma_served_in_order(
            settings,
            deadline,
            request,
            wanted,
            false,
            first_form(disk, wanted, left),
            clock,
        );
        lemma_served_in_order(
            settings,
            deadline,
            request,
            settings.index,
            true,
            first_form(disk, settings.index, left),
            clock,
        );
    } else if target::decoded_target(request.target) matches Some(decoded)
        && exchange::health_path(decoded.components) {
        lemma_health_replies_are_in_order(settings, deadline, request.method, path, clock);
    }
}

proof fn lemma_served_in_order(
    settings: config::ConfigModel,
    deadline: u64,
    request: http::RequestModel,
    path: Seq<Seq<u8>>,
    fallback: bool,
    found: Found,
    clock: Clock,
)
    ensures
        found matches Found::File(form, meta) ==> {
            let reply = served(settings, deadline, request, path, fallback, form, meta, clock);
            in_time(reply, deadline, clock) && carries_configured_headers(reply, settings, clock)
        },
{
    if let Found::File(form, meta) = found {
        let file = exchange::FileModel { request, path, form, fallback, deadline };
        lemma_file_replies_are_in_order(settings, file, meta, clock);
    }
}

proof fn lemma_health_replies_are_in_order(
    settings: config::ConfigModel,
    deadline: u64,
    method: Method,
    path: Seq<char>,
    clock: Clock,
)
    ensures
        ({
            let reply = exchange::health_reply(
                deadline,
                method,
                path,
                settings.extra_headers,
                clock,
            );
            in_time(reply, deadline, clock) && carries_configured_headers(reply, settings, clock)
        }),
{
    reveal(exchange::text_reply);
    let reply = exchange::health_reply(deadline, method, path, settings.extra_headers, clock);
    assert(reply.head == response::head_bytes(
        Status::Okay,
        encode_utf8("ok\n"@).len() as u64,
        Some("text/plain; charset=utf-8"@),
        seq![("Cache-Control"@, "no-store"@)] + settings.extra_headers,
        clock.unix_seconds,
    ));
}

} // verus!
