//! What the header fields of responses say: which there are, how often, and with what values.

use vstd::prelude::*;
use vstd::utf8::*;

use crate::cache;
use crate::cache::FileMeta;
use crate::config;
use crate::date;
use crate::exchange;
use crate::exchange::{Clock, RepresentationEncoding};
use crate::http;
use crate::http::Method;
use crate::mime;
use crate::response;
use crate::response::Status;
use crate::text;

verus! {

/// Whether two names of header fields are the same but for the case of their letters.
pub open spec fn same_name(first: Seq<char>, second: Seq<char>) -> bool {
    text::lowered(first) == text::lowered(second)
}

/// The values of all fields with a name, in their order.
pub open spec fn values_of(fields: Seq<(Seq<char>, Seq<char>)>, name: Seq<char>) -> Seq<Seq<char>>
    decreases fields.len(),
{
    if fields.len() == 0 {
        seq![]
    } else if same_name(fields.last().0, name) {
        values_of(fields.drop_last(), name).push(fields.last().1)
    } else {
        values_of(fields.drop_last(), name)
    }
}

/// Whether bytes are the head of a response with a status and header fields.
pub open spec fn is_head(
    head: Seq<u8>,
    status: Status,
    fields: Seq<(Seq<char>, Seq<char>)>,
) -> bool {
    head == encode_utf8(
        "HTTP/1.1 "@ + text::decimal(response::status_code(status) as nat) + " "@
            + response::status_reason(status) + "\r\n"@ + response::field_lines(fields) + "\r\n"@,
    )
}

proof fn lemma_values_concat(
    first: Seq<(Seq<char>, Seq<char>)>,
    second: Seq<(Seq<char>, Seq<char>)>,
    name: Seq<char>,
)
    ensures
        values_of(first + second, name) == values_of(first, name) + values_of(second, name),
    decreases second.len(),
{
    let whole = first + second;
    if second.len() == 0 {
        assert(whole =~= first);
        assert(values_of(first, name) + values_of(second, name) =~= values_of(first, name));
    } else {
        lemma_values_concat(first, second.drop_last(), name);
        assert(whole.drop_last() =~= first + second.drop_last());
        assert(whole.last() == second.last());
        assert(values_of(whole, name) =~= values_of(first, name) + values_of(second, name));
    }
}

proof fn lemma_values_push(
    fields: Seq<(Seq<char>, Seq<char>)>,
    field: (Seq<char>, Seq<char>),
    name: Seq<char>,
)
    ensures
        values_of(fields.push(field), name) == if same_name(field.0, name) {
            values_of(fields, name).push(field.1)
        } else {
            values_of(fields, name)
        },
{
    assert(fields.push(field).drop_last() =~= fields);
}

proof fn lemma_values_one(field: (Seq<char>, Seq<char>), name: Seq<char>)
    ensures
        values_of(seq![field], name) == if same_name(field.0, name) {
            seq![field.1]
        } else {
            Seq::<Seq<char>>::empty()
        },
{
    let none = Seq::<(Seq<char>, Seq<char>)>::empty();
    assert(values_of(none, name) =~= Seq::<Seq<char>>::empty());
    lemma_values_push(none, field, name);
    assert(none.push(field) =~= seq![field]);
    assert(Seq::<Seq<char>>::empty().push(field.1) =~= seq![field.1]);
}

proof fn lemma_server()
    ensures
        text::lowered("Server"@) == "server"@,
        "server"@.len() == 6,
        "server"@[0] == 's',
{
    reveal_strlit("Server");
    reveal_strlit("server");
    assert(text::lowered("Server"@) =~= "server"@);
}

proof fn lemma_connection()
    ensures
        text::lowered("Connection"@) == "connection"@,
        "connection"@.len() == 10,
        "connection"@[0] == 'c',
{
    reveal_strlit("Connection");
    reveal_strlit("connection");
    assert(text::lowered("Connection"@) =~= "connection"@);
}

proof fn lemma_x_content_type_options()
    ensures
        text::lowered("X-Content-Type-Options"@) == "x-content-type-options"@,
        "x-content-type-options"@.len() == 22,
        "x-content-type-options"@[0] == 'x',
{
    reveal_strlit("X-Content-Type-Options");
    reveal_strlit("x-content-type-options");
    assert(text::lowered("X-Content-Type-Options"@) =~= "x-content-type-options"@);
}

proof fn lemma_date()
    ensures
        text::lowered("Date"@) == "date"@,
        "date"@.len() == 4,
        "date"@[0] == 'd',
{
    reveal_strlit("Date");
    reveal_strlit("date");
    assert(text::lowered("Date"@) =~= "date"@);
}

proof fn lemma_content_length()
    ensures
        text::lowered("Content-Length"@) == "content-length"@,
        "content-length"@.len() == 14,
        "content-length"@[0] == 'c',
{
    reveal_strlit("Content-Length");
    reveal_strlit("content-length");
    assert(text::lowered("Content-Length"@) =~= "content-length"@);
}

proof fn lemma_content_type()
    ensures
        text::lowered("Content-Type"@) == "content-type"@,
        "content-type"@.len() == 12,
        "content-type"@[0] == 'c',
{
    reveal_strlit("Content-Type");
    reveal_strlit("content-type");
    assert(text::lowered("Content-Type"@) =~= "content-type"@);
}

proof fn lemma_cache_control()
    ensures
        text::lowered("Cache-Control"@) == "cache-control"@,
        "cache-control"@.len() == 13,
        "cache-control"@[0] == 'c',
{
    reveal_strlit("Cache-Control");
    reveal_strlit("cache-control");
    assert(text::lowered("Cache-Control"@) =~= "cache-control"@);
}

proof fn lemma_etag()
    ensures
        text::lowered("ETag"@) == "etag"@,
        "etag"@.len() == 4,
        "etag"@[0] == 'e',
{
    reveal_strlit("ETag");
    reveal_strlit("etag");
    assert(text::lowered("ETag"@) =~= "etag"@);
}

proof fn lemma_last_modified()
    ensures
        text::lowered("Last-Modified"@) == "last-modified"@,
        "last-modified"@.len() == 13,
        "last-modified"@[0] == 'l',
{
    reveal_strlit("Last-Modified");
    reveal_strlit("last-modified");
    assert(text::lowered("Last-Modified"@) =~= "last-modified"@);
}

proof fn lemma_vary()
    ensures
        text::lowered("Vary"@) == "vary"@,
        "vary"@.len() == 4,
        "vary"@[0] == 'v',
{
    reveal_strlit("Vary");
    reveal_strlit("vary");
    assert(text::lowered("Vary"@) =~= "vary"@);
}

proof fn lemma_content_encoding()
    ensures
        text::lowered("Content-Encoding"@) == "content-encoding"@,
        "content-encoding"@.len() == 16,
        "content-encoding"@[0] == 'c',
{
    reveal_strlit("Content-Encoding");
    reveal_strlit("content-encoding");
    assert(text::lowered("Content-Encoding"@) =~= "content-encoding"@);
}

proof fn lemma_allow()
    ensures
        text::lowered("Allow"@) == "allow"@,
        "allow"@.len() == 5,
        "allow"@[0] == 'a',
{
    reveal_strlit("Allow");
    reveal_strlit("allow");
    assert(text::lowered("Allow"@) =~= "allow"@);
}

/// By their lengths and their first letters, the names of the fields that the server sets are all
/// different.
proof fn lemma_names_differ()
    ensures
        text::lowered("Server"@).len() == 6 && text::lowered("Server"@)[0] == 's',
        text::lowered("Connection"@).len() == 10 && text::lowered("Connection"@)[0] == 'c',
        text::lowered("X-Content-Type-Options"@).len() == 22 && text::lowered("X-Content-Type-Options"@)[0] == 'x',
        text::lowered("Date"@).len() == 4 && text::lowered("Date"@)[0] == 'd',
        text::lowered("Content-Length"@).len() == 14 && text::lowered("Content-Length"@)[0] == 'c',
        text::lowered("Content-Type"@).len() == 12 && text::lowered("Content-Type"@)[0] == 'c',
        text::lowered("Cache-Control"@).len() == 13 && text::lowered("Cache-Control"@)[0] == 'c',
        text::lowered("ETag"@).len() == 4 && text::lowered("ETag"@)[0] == 'e',
        text::lowered("Last-Modified"@).len() == 13 && text::lowered("Last-Modified"@)[0] == 'l',
        text::lowered("Vary"@).len() == 4 && text::lowered("Vary"@)[0] == 'v',
        text::lowered("Content-Encoding"@).len() == 16 && text::lowered("Content-Encoding"@)[0] == 'c',
        text::lowered("Allow"@).len() == 5 && text::lowered("Allow"@)[0] == 'a',
{
    lemma_server();
    lemma_connection();
    lemma_x_content_type_options();
    lemma_date();
    lemma_content_length();
    lemma_content_type();
    lemma_cache_control();
    lemma_etag();
    lemma_last_modified();
    lemma_vary();
    lemma_content_encoding();
    lemma_allow();
}

/// No configured header has the name of a field that the server sets itself, but for `Allow` and
/// `X-Content-Type-Options`.
proof fn lemma_configured_values(extra: Seq<(Seq<char>, Seq<char>)>, name: Seq<char>)
    requires
        forall|i: int| 0 <= i < extra.len() ==> config::allowed_header(#[trigger] extra[i]),
        config::reserved_header(name),
    ensures
        values_of(extra, name) == Seq::<Seq<char>>::empty(),
    decreases extra.len(),
{
    if extra.len() > 0 {
        let before = extra.drop_last();
        assert forall|i: int| 0 <= i < before.len() implies config::allowed_header(
            #[trigger] before[i],
        ) by {
            assert(before[i] == extra[i]);
        }
        lemma_configured_values(before, name);
        assert(config::allowed_header(extra[extra.len() - 1]));
    } else {
        assert(values_of(extra, name) =~= Seq::<Seq<char>>::empty());
    }
}

pub(crate) proof fn lemma_reserved()
    ensures
        config::reserved_header("Server"@),
        config::reserved_header("Connection"@),
        config::reserved_header("Date"@),
        config::reserved_header("Content-Length"@),
        config::reserved_header("Content-Type"@),
        config::reserved_header("Cache-Control"@),
        config::reserved_header("ETag"@),
        config::reserved_header("Last-Modified"@),
        config::reserved_header("Vary"@),
        config::reserved_header("Content-Encoding"@),
{
    lemma_server();
    lemma_connection();
    lemma_date();
    lemma_content_length();
    lemma_content_type();
    lemma_cache_control();
    lemma_etag();
    lemma_last_modified();
    lemma_vary();
    lemma_content_encoding();
}

/// The names that are reserved are those of the fields that the server sets, in any case.
pub(crate) proof fn lemma_reserved_names(name: Seq<char>)
    ensures
        config::reserved_header(name) <==> {
            ||| same_name(name, "Cache-Control"@)
            ||| same_name(name, "Connection"@)
            ||| same_name(name, "Content-Encoding"@)
            ||| same_name(name, "Content-Length"@)
            ||| same_name(name, "Content-Type"@)
            ||| same_name(name, "Date"@)
            ||| same_name(name, "ETag"@)
            ||| same_name(name, "Last-Modified"@)
            ||| same_name(name, "Server"@)
            ||| same_name(name, "Transfer-Encoding"@)
            ||| same_name(name, "Vary"@)
        },
{
    lemma_cache_control();
    lemma_connection();
    lemma_content_encoding();
    lemma_content_length();
    lemma_content_type();
    lemma_date();
    lemma_etag();
    lemma_last_modified();
    lemma_server();
    lemma_vary();
    reveal_strlit("Transfer-Encoding");
    reveal_strlit("transfer-encoding");
    assert(text::lowered("Transfer-Encoding"@) =~= "transfer-encoding"@);
}

/// A configured header cannot set any of the fields by which a response is framed, typed, cached or
/// dated, in whatever case its name is written.
pub proof fn these_fields_cannot_be_configured(header: (Seq<char>, Seq<char>))
    requires
        config::allowed_header(header),
    ensures
        !same_name(header.0, "Server"@),
        !same_name(header.0, "Connection"@),
        !same_name(header.0, "Date"@),
        !same_name(header.0, "Content-Length"@),
        !same_name(header.0, "Content-Type"@),
        !same_name(header.0, "Cache-Control"@),
        !same_name(header.0, "ETag"@),
        !same_name(header.0, "Last-Modified"@),
        !same_name(header.0, "Vary"@),
        !same_name(header.0, "Content-Encoding"@),
        !same_name(header.0, "Transfer-Encoding"@),
{
    lemma_reserved();
    reveal_strlit("Transfer-Encoding");
    reveal_strlit("transfer-encoding");
    assert(text::lowered("Transfer-Encoding"@) =~= "transfer-encoding"@);
}

/// The values of a name among the fields that every head begins with and the type.
proof fn lemma_head_values(
    content_length: u64,
    kind: Option<Seq<char>>,
    headers: Seq<(Seq<char>, Seq<char>)>,
    unix_seconds: i64,
    name: Seq<char>,
)
    ensures
        ({
            let fields = response::head_fields(content_length, kind, headers, unix_seconds);
            let one = |key: Seq<char>, value: Seq<char>|
                if same_name(key, name) {
                    seq![value]
                } else {
                    Seq::<Seq<char>>::empty()
                };
            values_of(fields, name) == one("Server"@, "statika"@) + one("Connection"@, "close"@)
                + one("X-Content-Type-Options"@, "nosniff"@) + one(
                "Date"@,
                date::http_date_text(unix_seconds as int),
            ) + one("Content-Length"@, text::decimal(content_length as nat)) + match kind {
                Some(k) => one("Content-Type"@, k),
                None => Seq::<Seq<char>>::empty(),
            } + values_of(headers, name)
        }),
{
    let fields = response::head_fields(content_length, kind, headers, unix_seconds);
    let common = response::common_fields(content_length, unix_seconds);
    let typed = match kind {
        Some(k) => seq![("Content-Type"@, k)],
        None => Seq::<(Seq<char>, Seq<char>)>::empty(),
    };
    assert(fields =~= common + typed + headers);
    lemma_values_concat(common + typed, headers, name);
    lemma_values_concat(common, typed, name);
    if kind is Some {
        lemma_values_one(("Content-Type"@, kind->0), name);
    } else {
        assert(values_of(typed, name) =~= Seq::<Seq<char>>::empty());
    }
    let one = seq![common[0]];
    let two = one + seq![common[1]];
    let three = two + seq![common[2]];
    let four = three + seq![common[3]];
    assert(common =~= four + seq![common[4]]);
    lemma_values_concat(one, seq![common[1]], name);
    lemma_values_concat(two, seq![common[2]], name);
    lemma_values_concat(three, seq![common[3]], name);
    lemma_values_concat(four, seq![common[4]], name);
    lemma_values_one(common[0], name);
    lemma_values_one(common[1], name);
    lemma_values_one(common[2], name);
    lemma_values_one(common[3], name);
    lemma_values_one(common[4], name);
}

proof fn lemma_is_head(
    status: Status,
    content_length: u64,
    kind: Option<Seq<char>>,
    headers: Seq<(Seq<char>, Seq<char>)>,
    unix_seconds: i64,
)
    ensures
        is_head(
            response::head_bytes(status, content_length, kind, headers, unix_seconds),
            status,
            response::head_fields(content_length, kind, headers, unix_seconds),
        ),
{
}

/// The values of a name among the headers of a response with a file.
proof fn lemma_file_values(
    settings: config::ConfigModel,
    path: Seq<Seq<u8>>,
    form: RepresentationEncoding,
    fallback: bool,
    meta: FileMeta,
    name: Seq<char>,
)
    ensures
        ({
            let one = |key: Seq<char>, value: Seq<char>|
                if same_name(key, name) {
                    seq![value]
                } else {
                    Seq::<Seq<char>>::empty()
                };
            let none = Seq::<Seq<char>>::empty();
            values_of(exchange::file_headers(settings, path, form, fallback, meta), name) == one(
                "Cache-Control"@,
                cache::cache_policy(path, fallback, settings),
            ) + one("ETag"@, cache::etag_text(meta)) + one(
                "Last-Modified"@,
                date::http_date_text(meta.mtime as int),
            ) + (if settings.gzip_enabled || settings.brotli_enabled {
                one("Vary"@, "Accept-Encoding"@)
            } else {
                none
            }) + (match form {
                RepresentationEncoding::Identity => none,
                RepresentationEncoding::Br => one("Content-Encoding"@, "br"@),
                RepresentationEncoding::Gzip => one("Content-Encoding"@, "gzip"@),
            }) + values_of(settings.extra_headers, name)
        }),
{
    let none = Seq::<(Seq<char>, Seq<char>)>::empty();
    let policy = ("Cache-Control"@, cache::cache_policy(path, fallback, settings));
    let tag = ("ETag"@, cache::etag_text(meta));
    let modified = ("Last-Modified"@, date::http_date_text(meta.mtime as int));
    let vary = if settings.gzip_enabled || settings.brotli_enabled {
        seq![("Vary"@, "Accept-Encoding"@)]
    } else {
        none
    };
    let coding = match form {
        RepresentationEncoding::Identity => none,
        RepresentationEncoding::Br => seq![("Content-Encoding"@, "br"@)],
        RepresentationEncoding::Gzip => seq![("Content-Encoding"@, "gzip"@)],
    };
    let one = seq![policy];
    let two = one + seq![tag];
    let three = two + seq![modified];
    let all = exchange::file_headers(settings, path, form, fallback, meta);
    assert(all =~= three + vary + coding + settings.extra_headers);
    lemma_values_concat(three + vary + coding, settings.extra_headers, name);
    lemma_values_concat(three + vary, coding, name);
    lemma_values_concat(three, vary, name);
    lemma_values_concat(two, seq![modified], name);
    lemma_values_concat(one, seq![tag], name);
    lemma_values_one(policy, name);
    lemma_values_one(tag, name);
    lemma_values_one(modified, name);
    lemma_values_one(("Vary"@, "Accept-Encoding"@), name);
    lemma_values_one(("Content-Encoding"@, "br"@), name);
    lemma_values_one(("Content-Encoding"@, "gzip"@), name);
    assert(values_of(none, name) =~= Seq::<Seq<char>>::empty());
}

/// Whether the fields of a response with a file say what they should: the coding of the form that
/// is sent, and none for the file itself; that the answer depends on the codings a client accepts,
/// where any are offered; how long it may be kept; what identifies the file, when it changed and
/// how long it is; and its type, unless the client already has it. Each of them once, whatever is
/// configured.
pub open spec fn file_fields(
    fields: Seq<(Seq<char>, Seq<char>)>,
    settings: config::ConfigModel,
    file: exchange::FileModel,
    meta: FileMeta,
    unchanged: bool,
    clock: Clock,
) -> bool {
    let none = Seq::<Seq<char>>::empty();
    &&& values_of(fields, "Content-Encoding"@) == match file.form {
        RepresentationEncoding::Br => seq!["br"@],
        RepresentationEncoding::Gzip => seq!["gzip"@],
        RepresentationEncoding::Identity => none,
    }
    &&& values_of(fields, "Vary"@) == if settings.gzip_enabled || settings.brotli_enabled {
        seq!["Accept-Encoding"@]
    } else {
        none
    }
    &&& values_of(fields, "Cache-Control"@) == if file.fallback || file.path == settings.index
        || !settings.assets_prefix.is_prefix_of(file.path) {
        seq!["no-cache"@]
    } else if mime::fingerprinted(file.path) {
        seq!["public, max-age=31536000, immutable"@]
    } else {
        seq!["public, max-age=3600"@]
    }
    &&& values_of(fields, "ETag"@) == seq![cache::etag_text(meta)]
    &&& values_of(fields, "Last-Modified"@) == seq![date::http_date_text(meta.mtime as int)]
    &&& values_of(fields, "Content-Length"@) == seq![text::decimal(meta.len as nat)]
    &&& values_of(fields, "Content-Type"@) == if unchanged {
        none
    } else {
        seq![mime::media_type(mime::extension(file.path))]
    }
    &&& values_of(fields, "Date"@) == seq![date::http_date_text(clock.unix_seconds as int)]
    &&& values_of(fields, "Server"@) == seq!["statika"@]
    &&& values_of(fields, "Connection"@) == seq!["close"@]
}

proof fn lemma_file_fields(
    settings: config::ConfigModel,
    file: exchange::FileModel,
    meta: FileMeta,
    unchanged: bool,
    clock: Clock,
)
    requires
        settings.valid(),
    ensures
        file_fields(
            response::head_fields(
                meta.len,
                if unchanged {
                    None
                } else {
                    Some(mime::media_type(mime::extension(file.path)))
                },
                exchange::file_headers(settings, file.path, file.form, file.fallback, meta),
                clock.unix_seconds,
            ),
            settings,
            file,
            meta,
            unchanged,
            clock,
        ),
{
    let kind = if unchanged {
        None
    } else {
        Some(mime::media_type(mime::extension(file.path)))
    };
    let headers = exchange::file_headers(settings, file.path, file.form, file.fallback, meta);
    let fields = response::head_fields(meta.len, kind, headers, clock.unix_seconds);
    lemma_names_differ();
    lemma_reserved();
    lemma_head_values(meta.len, kind, headers, clock.unix_seconds, "Server"@);
    lemma_file_values(settings, file.path, file.form, file.fallback, meta, "Server"@);
    lemma_configured_values(settings.extra_headers, "Server"@);
    lemma_head_values(meta.len, kind, headers, clock.unix_seconds, "Connection"@);
    lemma_file_values(settings, file.path, file.form, file.fallback, meta, "Connection"@);
    lemma_configured_values(settings.extra_headers, "Connection"@);
    lemma_head_values(meta.len, kind, headers, clock.unix_seconds, "Date"@);
    lemma_file_values(settings, file.path, file.form, file.fallback, meta, "Date"@);
    lemma_configured_values(settings.extra_headers, "Date"@);
    lemma_head_values(meta.len, kind, headers, clock.unix_seconds, "Content-Length"@);
    lemma_file_values(settings, file.path, file.form, file.fallback, meta, "Content-Length"@);
    lemma_configured_values(settings.extra_headers, "Content-Length"@);
    lemma_head_values(meta.len, kind, headers, clock.unix_seconds, "Content-Type"@);
    lemma_file_values(settings, file.path, file.form, file.fallback, meta, "Content-Type"@);
    lemma_configured_values(settings.extra_headers, "Content-Type"@);
    lemma_head_values(meta.len, kind, headers, clock.unix_seconds, "Cache-Control"@);
    lemma_file_values(settings, file.path, file.form, file.fallback, meta, "Cache-Control"@);
    lemma_configured_values(settings.extra_headers, "Cache-Control"@);
    lemma_head_values(meta.len, kind, headers, clock.unix_seconds, "ETag"@);
    lemma_file_values(settings, file.path, file.form, file.fallback, meta, "ETag"@);
    lemma_configured_values(settings.extra_headers, "ETag"@);
    lemma_head_values(meta.len, kind, headers, clock.unix_seconds, "Last-Modified"@);
    lemma_file_values(settings, file.path, file.form, file.fallback, meta, "Last-Modified"@);
    lemma_configured_values(settings.extra_headers, "Last-Modified"@);
    lemma_head_values(meta.len, kind, headers, clock.unix_seconds, "Vary"@);
    lemma_file_values(settings, file.path, file.form, file.fallback, meta, "Vary"@);
    lemma_configured_values(settings.extra_headers, "Vary"@);
    lemma_head_values(meta.len, kind, headers, clock.unix_seconds, "Content-Encoding"@);
    lemma_file_values(settings, file.path, file.form, file.fallback, meta, "Content-Encoding"@);
    lemma_configured_values(settings.extra_headers, "Content-Encoding"@);
    assert(values_of(fields, "Content-Encoding"@) =~= match file.form {
        RepresentationEncoding::Br => seq!["br"@],
        RepresentationEncoding::Gzip => seq!["gzip"@],
        RepresentationEncoding::Identity => Seq::<Seq<char>>::empty(),
    });
    assert(values_of(fields, "Vary"@) =~= if settings.gzip_enabled
        || settings.brotli_enabled {
        seq!["Accept-Encoding"@]
    } else {
        Seq::<Seq<char>>::empty()
    });
    assert(values_of(fields, "Cache-Control"@) =~= seq![
        cache::cache_policy(file.path, file.fallback, settings),
    ]);
    assert(values_of(fields, "ETag"@) =~= seq![cache::etag_text(meta)]);
    assert(values_of(fields, "Last-Modified"@) =~= seq![date::http_date_text(meta.mtime as int)]);
    assert(values_of(fields, "Content-Length"@) =~= seq![text::decimal(meta.len as nat)]);
    assert(values_of(fields, "Content-Type"@) =~= if unchanged {
        Seq::<Seq<char>>::empty()
    } else {
        seq![mime::media_type(mime::extension(file.path))]
    });
    assert(values_of(fields, "Date"@) =~= seq![date::http_date_text(clock.unix_seconds as int)]);
    assert(values_of(fields, "Server"@) =~= seq!["statika"@]);
    assert(values_of(fields, "Connection"@) =~= seq!["close"@]);
}

/// Every response with a file, whether or not the index stands in, says in its fields what is sent.
pub proof fn file_replies_say_what_is_sent(
    settings: config::ConfigModel,
    file: exchange::FileModel,
    meta: FileMeta,
    clock: Clock,
)
    requires
        settings.valid(),
    ensures
        ({
            let reply = exchange::file_reply(settings, file, meta, clock);
            let unchanged = cache::not_modified(
                file.request,
                cache::etag_text(meta),
                meta.mtime as int,
            );
            exists|fields: Seq<(Seq<char>, Seq<char>)>| #[trigger]
                is_head(reply.head, reply.status, fields) && file_fields(
                    fields,
                    settings,
                    file,
                    meta,
                    unchanged,
                    clock,
                )
        }),
{
    reveal(exchange::file_reply);
    let reply = exchange::file_reply(settings, file, meta, clock);
    let unchanged = cache::not_modified(
        file.request,
        cache::etag_text(meta),
        meta.mtime as int,
    );
    let kind = if unchanged {
        None
    } else {
        Some(mime::media_type(mime::extension(file.path)))
    };
    let headers = exchange::file_headers(settings, file.path, file.form, file.fallback, meta);
    let fields = response::head_fields(meta.len, kind, headers, clock.unix_seconds);
    lemma_file_fields(settings, file, meta, unchanged, clock);
    lemma_is_head(reply.status, meta.len, kind, headers, clock.unix_seconds);
    assert(is_head(reply.head, reply.status, fields));
}

/// Whether the fields of a response with a text say what they should: how long it is, that it is
/// plain text, uncoded, and not to be kept.
pub open spec fn text_fields(
    fields: Seq<(Seq<char>, Seq<char>)>,
    length: nat,
    clock: Clock,
) -> bool {
    let none = Seq::<Seq<char>>::empty();
    &&& values_of(fields, "Content-Length"@) == seq![text::decimal(length)]
    &&& values_of(fields, "Content-Type"@) == seq!["text/plain; charset=utf-8"@]
    &&& values_of(fields, "Cache-Control"@) == seq!["no-store"@]
    &&& values_of(fields, "Content-Encoding"@) == none
    &&& values_of(fields, "ETag"@) == none
    &&& values_of(fields, "Last-Modified"@) == none
    &&& values_of(fields, "Vary"@) == none
    &&& values_of(fields, "Date"@) == seq![date::http_date_text(clock.unix_seconds as int)]
    &&& values_of(fields, "Server"@) == seq!["statika"@]
    &&& values_of(fields, "Connection"@) == seq!["close"@]
}

/// The headers of a response with a text, before the configured ones.
spec fn text_headers(allow: bool) -> Seq<(Seq<char>, Seq<char>)> {
    let first = seq![("Cache-Control"@, "no-store"@)];
    if allow {
        first + seq![("Allow"@, "GET, HEAD"@)]
    } else {
        first
    }
}

/// The values of a name among the headers of a response with a text.
proof fn lemma_text_values(allow: bool, extra: Seq<(Seq<char>, Seq<char>)>, name: Seq<char>)
    ensures
        ({
            let one = |key: Seq<char>, value: Seq<char>|
                if same_name(key, name) {
                    seq![value]
                } else {
                    Seq::<Seq<char>>::empty()
                };
            values_of(text_headers(allow) + extra, name) == one("Cache-Control"@, "no-store"@) + (
            if allow {
                one("Allow"@, "GET, HEAD"@)
            } else {
                Seq::<Seq<char>>::empty()
            }) + values_of(extra, name)
        }),
{
    let first = seq![("Cache-Control"@, "no-store"@)];
    let second = seq![("Allow"@, "GET, HEAD"@)];
    lemma_values_concat(text_headers(allow), extra, name);
    lemma_values_concat(first, second, name);
    lemma_values_one(first[0], name);
    lemma_values_one(second[0], name);
}

proof fn lemma_text_fields(settings: config::ConfigModel, length: u64, allow: bool, clock: Clock)
    requires
        settings.valid(),
    ensures
        ({
            let fields = response::head_fields(
                length,
                Some("text/plain; charset=utf-8"@),
                text_headers(allow) + settings.extra_headers,
                clock.unix_seconds,
            );
            &&& text_fields(fields, length as nat, clock)
            &&& allow ==> values_of(fields, "Allow"@).contains("GET, HEAD"@)
        }),
{
    let kind = Some("text/plain; charset=utf-8"@);
    let extra = settings.extra_headers;
    let headers = text_headers(allow) + extra;
    let fields = response::head_fields(length, kind, headers, clock.unix_seconds);
    lemma_names_differ();
    lemma_reserved();
    lemma_head_values(length, kind, headers, clock.unix_seconds, "Server"@);
    lemma_text_values(allow, extra, "Server"@);
    lemma_configured_values(extra, "Server"@);
    lemma_head_values(length, kind, headers, clock.unix_seconds, "Connection"@);
    lemma_text_values(allow, extra, "Connection"@);
    lemma_configured_values(extra, "Connection"@);
    lemma_head_values(length, kind, headers, clock.unix_seconds, "Date"@);
    lemma_text_values(allow, extra, "Date"@);
    lemma_configured_values(extra, "Date"@);
    lemma_head_values(length, kind, headers, clock.unix_seconds, "Content-Length"@);
    lemma_text_values(allow, extra, "Content-Length"@);
    lemma_configured_values(extra, "Content-Length"@);
    lemma_head_values(length, kind, headers, clock.unix_seconds, "Content-Type"@);
    lemma_text_values(allow, extra, "Content-Type"@);
    lemma_configured_values(extra, "Content-Type"@);
    lemma_head_values(length, kind, headers, clock.unix_seconds, "Cache-Control"@);
    lemma_text_values(allow, extra, "Cache-Control"@);
    lemma_configured_values(extra, "Cache-Control"@);
    lemma_head_values(length, kind, headers, clock.unix_seconds, "ETag"@);
    lemma_text_values(allow, extra, "ETag"@);
    lemma_configured_values(extra, "ETag"@);
    lemma_head_values(length, kind, headers, clock.unix_seconds, "Last-Modified"@);
    lemma_text_values(allow, extra, "Last-Modified"@);
    lemma_configured_values(extra, "Last-Modified"@);
    lemma_head_values(length, kind, headers, clock.unix_seconds, "Vary"@);
    lemma_text_values(allow, extra, "Vary"@);
    lemma_configured_values(extra, "Vary"@);
    lemma_head_values(length, kind, headers, clock.unix_seconds, "Content-Encoding"@);
    lemma_text_values(allow, extra, "Content-Encoding"@);
    lemma_configured_values(extra, "Content-Encoding"@);
    lemma_head_values(length, kind, headers, clock.unix_seconds, "Allow"@);
    lemma_text_values(allow, extra, "Allow"@);
    assert(values_of(fields, "Content-Length"@) =~= seq![text::decimal(length as nat)]);
    assert(values_of(fields, "Content-Type"@) =~= seq!["text/plain; charset=utf-8"@]);
    assert(values_of(fields, "Cache-Control"@) =~= seq!["no-store"@]);
    assert(values_of(fields, "Content-Encoding"@) =~= Seq::<Seq<char>>::empty());
    assert(values_of(fields, "ETag"@) =~= Seq::<Seq<char>>::empty());
    assert(values_of(fields, "Last-Modified"@) =~= Seq::<Seq<char>>::empty());
    assert(values_of(fields, "Vary"@) =~= Seq::<Seq<char>>::empty());
    assert(values_of(fields, "Date"@) =~= seq![date::http_date_text(clock.unix_seconds as int)]);
    assert(values_of(fields, "Server"@) =~= seq!["statika"@]);
    assert(values_of(fields, "Connection"@) =~= seq!["close"@]);
    if allow {
        let found = values_of(fields, "Allow"@);
        assert(found =~= seq!["GET, HEAD"@] + values_of(extra, "Allow"@));
        assert(found[0] == "GET, HEAD"@);
    }
}

/// What is said to a client whose request is refused.
pub open spec fn refusal_words(status: Status) -> Seq<char> {
    match status {
        Status::BadRequest => "bad request\n"@,
        Status::NotFound => "not found\n"@,
        Status::MethodNotAllowed => "method not allowed\n"@,
        Status::RequestTimeout => "request timeout\n"@,
        Status::HeaderTooLarge => "request headers too large\n"@,
        _ => "internal server error\n"@,
    }
}

/// Every error response says in words what is wrong, but not to `HEAD`; its fields give the length
/// of those words even then, and, to a method that is not allowed, the methods that are. It has at
/// least a quarter of a second, and at least the time that the connection has left.
pub proof fn error_replies_say_what_is_wrong(
    settings: config::ConfigModel,
    deadline: u64,
    method: Seq<char>,
    path: Seq<char>,
    status: Status,
    error: Seq<char>,
    clock: Clock,
)
    requires
        settings.valid(),
        clock.nanos <= u64::MAX - 250_000_000,
    ensures
        ({
            let reply = exchange::error_reply(
                deadline,
                method,
                path,
                status,
                error,
                settings.extra_headers,
                clock,
            );
            let words = encode_utf8(refusal_words(status));
            &&& reply.status == status
            &&& reply.method == method
            &&& reply.path == path
            &&& reply.error == Some(error)
            &&& method == "HEAD"@ ==> reply.body is Nothing
            &&& method != "HEAD"@ ==> reply.body == exchange::BodyModel::Bytes(words)
            &&& reply.deadline >= deadline
            &&& reply.deadline >= clock.nanos + 250_000_000
            &&& reply.deadline == deadline || reply.deadline == clock.nanos + 250_000_000
            &&& exists|fields: Seq<(Seq<char>, Seq<char>)>| #[trigger]
                is_head(reply.head, status, fields) && text_fields(
                    fields,
                    words.len() as u64 as nat,
                    clock,
                ) && (status is MethodNotAllowed ==> values_of(fields, "Allow"@).contains(
                    "GET, HEAD"@,
                ))
        }),
{
    reveal(exchange::error_reply);
    let reply = exchange::error_reply(
        deadline,
        method,
        path,
        status,
        error,
        settings.extra_headers,
        clock,
    );
    let words = encode_utf8(refusal_words(status));
    let length = words.len() as u64;
    let kind = Some("text/plain; charset=utf-8"@);
    let allow = status is MethodNotAllowed;
    let headers = text_headers(allow) + settings.extra_headers;
    assert(headers =~= exchange::error_headers(status, settings.extra_headers));
    let fields = response::head_fields(length, kind, headers, clock.unix_seconds);
    lemma_text_fields(settings, length, allow, clock);
    lemma_is_head(status, length, kind, headers, clock.unix_seconds);
    assert(is_head(reply.head, status, fields));
}

/// The response to a health check is `200 OK` with `ok` on a line, not to be kept; without the body
/// to `HEAD`.
pub proof fn health_replies_are_ok(
    settings: config::ConfigModel,
    deadline: u64,
    method: Method,
    path: Seq<char>,
    clock: Clock,
)
    requires
        settings.valid(),
    ensures
        ({
            let reply = exchange::health_reply(
                deadline,
                method,
                path,
                settings.extra_headers,
                clock,
            );
            &&& reply.status is Okay
            &&& reply.error is None
            &&& reply.deadline == deadline
            &&& reply.path == path
            &&& reply.method == if method is Get {
                "GET"@
            } else {
                "HEAD"@
            }
            &&& method is Get ==> reply.body == exchange::BodyModel::Bytes(seq![111u8, 107, 10])
            &&& method is Head ==> reply.body is Nothing
            &&& exists|fields: Seq<(Seq<char>, Seq<char>)>| #[trigger]
                is_head(reply.head, Status::Okay, fields) && text_fields(fields, 3, clock)
        }),
{
    reveal(exchange::text_reply);
    let reply = exchange::health_reply(deadline, method, path, settings.extra_headers, clock);
    reveal_strlit("ok\n");
    assert(is_ascii_chars("ok\n"@));
    is_ascii_chars_encode_utf8("ok\n"@);
    let words = encode_utf8("ok\n"@);
    assert(words[0] == 'o' as u8 && words[1] == 'k' as u8 && words[2] == '\n' as u8);
    assert(words =~= seq![111u8, 107, 10]);
    let kind = Some("text/plain; charset=utf-8"@);
    let headers = text_headers(false) + settings.extra_headers;
    assert(headers =~= seq![("Cache-Control"@, "no-store"@)] + settings.extra_headers);
    let fields = response::head_fields(3, kind, headers, clock.unix_seconds);
    lemma_text_fields(settings, 3, false, clock);
    lemma_is_head(Status::Okay, 3, kind, headers, clock.unix_seconds);
    assert(is_head(reply.head, Status::Okay, fields));
}

} // verus!
