//! Requests.

use vstd::prelude::*;
use vstd::slice::*;
use vstd::utf8::*;

use crate::bytes;
use crate::bytes::{
    eq_ignore_ascii_case, equal_text, find, is_white, split_at_each, trim_ascii, COLON, COMMA, CR,
    LF, SLASH, SPACE,
};
use crate::date;
use crate::date::parse_http_date_bytes;
use crate::encoding;
use crate::encoding::{accepted_encodings, AcceptedEncodings};
use crate::target;
use crate::target::contains_ctl;
use crate::text;
use crate::text::from_utf8_lossy;

verus! {

/// The longest request line or header field that is read.
pub const MAX_HEADER_LINE_BYTES: usize = 8192;

/// The methods that are served.
#[derive(Clone, Copy, Debug, PartialEq, Eq, Structural)]
pub enum Method {
    Get,
    Head,
}

/// The name of a method.
pub open spec fn method_name(method: Method) -> Seq<char> {
    match method {
        Method::Get => "GET"@,
        Method::Head => "HEAD"@,
    }
}

impl Method {
    /// The name of the method.
    pub fn as_str(self) -> (name: &'static str)
        ensures
            name@ == method_name(self),
    {
        match self {
            Method::Get => "GET",
            Method::Head => "HEAD",
        }
    }
}

/// Why a request is refused.
#[derive(Debug)]
pub enum RequestError {
    BadRequest,
    HeaderTooLarge,
    MethodNotAllowed(String),
    Timeout,
    Io,
}

/// A request as far as it is looked at.
#[derive(Debug)]
pub struct Request {
    pub method: Method,
    pub target: Vec<u8>,
    pub accepted_encodings: AcceptedEncodings,
    pub if_none_match: Option<String>,
    pub if_modified_since: Option<i64>,
}

/// What a [`Request`] holds.
#[verifier::ext_equal]
pub struct RequestModel {
    pub method: Method,
    pub target: Seq<u8>,
    pub br_q: int,
    pub gzip_q: int,
    pub if_none_match: Option<Seq<char>>,
    pub if_modified_since: Option<int>,
}

/// Why a request is refused, with the text of the method.
#[verifier::ext_equal]
pub enum Refusal {
    BadRequest,
    HeaderTooLarge,
    MethodNotAllowed(Seq<char>),
    Timeout,
    Io,
}

impl View for Request {
    type V = RequestModel;

    open spec fn view(&self) -> RequestModel {
        RequestModel {
            method: self.method,
            target: self.target@,
            br_q: self.accepted_encodings.br_q as int,
            gzip_q: self.accepted_encodings.gzip_q as int,
            if_none_match: match self.if_none_match {
                Some(value) => Some(value@),
                None => None,
            },
            if_modified_since: match self.if_modified_since {
                Some(seconds) => Some(seconds as int),
                None => None,
            },
        }
    }
}

impl View for RequestError {
    type V = Refusal;

    open spec fn view(&self) -> Refusal {
        match self {
            RequestError::BadRequest => Refusal::BadRequest,
            RequestError::HeaderTooLarge => Refusal::HeaderTooLarge,
            RequestError::MethodNotAllowed(method) => Refusal::MethodNotAllowed(method@),
            RequestError::Timeout => Refusal::Timeout,
            RequestError::Io => Refusal::Io,
        }
    }
}

/// Whether a byte may not stand in a request target: a control character, a space or the start of
/// a fragment.
pub open spec fn unsafe_in_target(b: u8) -> bool {
    b <= 32 || b == 127 || b == 35
}

/// Whether every byte may stand in a request target.
pub fn is_request_target_safe(bytes: &[u8]) -> (safe: bool)
    ensures
        safe == forall|i: int| 0 <= i < bytes@.len() ==> !unsafe_in_target(#[trigger] bytes@[i]),
{
    for i in 0..bytes.len()
        invariant
            forall|j: int| 0 <= j < i ==> !unsafe_in_target(#[trigger] bytes@[j]),
    {
        if bytes[i] <= 32 || bytes[i] == 127 || bytes[i] == 35 {
            assert(unsafe_in_target(bytes@[i as int]));
            return false;
        }
    }
    true
}

/// Whether a byte may not stand in a header field: a control character other than the tab.
pub open spec fn invalid_in_value(b: u8) -> bool {
    b <= 8 || 10 <= b <= 31 || b == 127
}

/// Whether a byte may not stand in a header field: a control character other than the tab.
pub fn is_invalid_header_value_byte(byte: u8) -> (yes: bool)
    ensures
        yes == invalid_in_value(byte),
{
    match byte {
        0..=8 | 10..=31 | 127 => true,
        _ => false,
    }
}

/// Whether there is a byte that may not stand in a header field.
pub fn value_contains_invalid_ctl(bytes: &[u8]) -> (found: bool)
    ensures
        found == exists|i: int| 0 <= i < bytes@.len() && invalid_in_value(#[trigger] bytes@[i]),
{
    for i in 0..bytes.len()
        invariant
            forall|j: int| 0 <= j < i ==> !invalid_in_value(#[trigger] bytes@[j]),
    {
        if is_invalid_header_value_byte(bytes[i]) {
            return true;
        }
    }
    false
}

/// Whether a byte may stand in the name of a header field: a letter, a digit or one of
/// ``! # $ % & ' * + - . ^ _ ` | ~``.
pub open spec fn name_byte(b: u8) -> bool {
    ||| 48 <= b <= 57
    ||| 65 <= b <= 90
    ||| 97 <= b <= 122
    ||| b == 33
    ||| 35 <= b <= 39
    ||| b == 42
    ||| b == 43
    ||| b == 45
    ||| b == 46
    ||| 94 <= b <= 96
    ||| b == 124
    ||| b == 126
}

/// Whether a byte may stand in the name of a header field.
pub fn is_header_name_byte(byte: u8) -> (yes: bool)
    ensures
        yes == name_byte(byte),
{
    match byte {
        33 | 35..=39 | 42 | 43 | 45 | 46 | 48..=57 | 65..=90 | 94..=96 | 97..=122 | 124 | 126 => true,
        _ => false,
    }
}

/// Whether every byte may stand in the name of a header field.
pub fn is_header_name(bytes: &[u8]) -> (yes: bool)
    ensures
        yes == forall|i: int| 0 <= i < bytes@.len() ==> name_byte(#[trigger] bytes@[i]),
{
    for i in 0..bytes.len()
        invariant
            forall|j: int| 0 <= j < i ==> name_byte(#[trigger] bytes@[j]),
    {
        if !is_header_name_byte(bytes[i]) {
            return false;
        }
    }
    true
}

/// Whether a line ends in a carriage return.
pub open spec fn ends_in_cr(line: Seq<u8>) -> bool {
    line.len() > 0 && line.last() == CR
}

/// Whether a request line, without its line end, is well formed, whatever its method.
pub open spec fn request_line_ok(line: Seq<u8>) -> bool {
    let fields = bytes::split(line, SPACE);
    &&& line.len() <= MAX_HEADER_LINE_BYTES
    &&& forall|i: int| 0 <= i < line.len() ==> !target::control(#[trigger] line[i])
    &&& fields.len() == 3
    &&& fields[1].len() > 0
    &&& fields[1][0] == SLASH
    &&& forall|i: int| 0 <= i < fields[1].len() ==> !unsafe_in_target(#[trigger] fields[1][i])
    &&& fields[2] == encode_utf8("HTTP/1.1"@) || fields[2] == encode_utf8("HTTP/1.0"@)
}

/// The header fields, without their line ends: the lines up to the first empty one. None when a
/// line among them does not end in a carriage return.
pub open spec fn header_fields(lines: Seq<Seq<u8>>) -> Option<Seq<Seq<u8>>>
    decreases lines.len(),
{
    if lines.len() == 0 {
        Some(seq![])
    } else if !ends_in_cr(lines[0]) {
        None
    } else if lines[0].len() == 1 {
        Some(seq![])
    } else {
        match header_fields(lines.skip(1)) {
            Some(rest) => Some(seq![lines[0].drop_last()] + rest),
            None => None,
        }
    }
}

/// The name of a header field.
pub open spec fn field_name(field: Seq<u8>) -> Seq<u8> {
    bytes::trimmed(field.take(bytes::index_of_first(field, COLON)))
}

/// The value of a header field.
pub open spec fn field_value(field: Seq<u8>) -> Seq<u8> {
    bytes::trimmed(field.skip(bytes::index_of_first(field, COLON) + 1))
}

/// Whether a header field has the name, in any case of its letters.
pub open spec fn is_named(field: Seq<u8>, name: Seq<char>) -> bool {
    bytes::same_letters(field_name(field), encode_utf8(name))
}

/// Whether a header field is well formed: not too long, not a continuation line, free of control
/// characters but the tab, with a colon behind a name of the right bytes, and not an empty `Host`.
pub open spec fn field_ok(field: Seq<u8>) -> bool {
    &&& field.len() <= MAX_HEADER_LINE_BYTES
    &&& field.len() > 0 ==> !bytes::white(field[0])
    &&& forall|i: int| 0 <= i < field.len() ==> !invalid_in_value(#[trigger] field[i])
    &&& bytes::index_of_first(field, COLON) < field.len()
    &&& field_name(field).len() > 0
    &&& forall|i: int|
        0 <= i < field_name(field).len() ==> name_byte(#[trigger] field_name(field)[i])
    &&& is_named(field, "host"@) ==> field_value(field).len() > 0
}

/// How many fields have the name.
pub open spec fn count_named(fields: Seq<Seq<u8>>, name: Seq<char>) -> nat
    decreases fields.len(),
{
    if fields.len() == 0 {
        0
    } else {
        count_named(fields.drop_last(), name) + if is_named(fields.last(), name) {
            1nat
        } else {
            0
        }
    }
}

/// The value of the last field with the name.
pub open spec fn last_named(fields: Seq<Seq<u8>>, name: Seq<char>) -> Option<Seq<u8>>
    decreases fields.len(),
{
    if fields.len() == 0 {
        None
    } else if is_named(fields.last(), name) {
        Some(field_value(fields.last()))
    } else {
        last_named(fields.drop_last(), name)
    }
}

/// The values of all fields with the name, one after the other, each with a comma behind it.
pub open spec fn joined_named(fields: Seq<Seq<u8>>, name: Seq<char>) -> Seq<u8>
    decreases fields.len(),
{
    if fields.len() == 0 {
        seq![]
    } else if is_named(fields.last(), name) {
        joined_named(fields.drop_last(), name) + field_value(fields.last()) + seq![COMMA]
    } else {
        joined_named(fields.drop_last(), name)
    }
}

/// The moment that a header value gives as an HTTP date.
pub open spec fn value_seconds(value: Option<Seq<u8>>) -> Option<int> {
    match value {
        Some(v) => if valid_utf8(v) {
            date::http_date_seconds(v)
        } else {
            None
        },
        None => None,
    }
}

/// The request that a header block holds, or why it is refused.
pub open spec fn parsed_request(header: Seq<u8>) -> Result<RequestModel, Refusal> {
    let lines = bytes::split(header, LF);
    let line = lines[0].drop_last();
    let words = bytes::split(line, SPACE);
    if !ends_in_cr(lines[0]) || !request_line_ok(line) {
        Err(Refusal::BadRequest)
    } else if words[0] != encode_utf8("GET"@) && words[0] != encode_utf8("HEAD"@) {
        Err(Refusal::MethodNotAllowed(text::lossy(words[0])))
    } else {
        match header_fields(lines.skip(1)) {
            Some(fields) => {
                if (forall|i: int| 0 <= i < fields.len() ==> field_ok(#[trigger] fields[i])) && (
                words[2] == encode_utf8("HTTP/1.1"@) ==> count_named(fields, "host"@) == 1) {
                    Ok(
                        RequestModel {
                            method: if words[0] == encode_utf8("GET"@) {
                                Method::Get
                            } else {
                                Method::Head
                            },
                            target: words[1],
                            br_q: encoding::encoding_quality(
                                joined_named(fields, "accept-encoding"@),
                                "br"@,
                            ),
                            gzip_q: encoding::encoding_quality(
                                joined_named(fields, "accept-encoding"@),
                                "gzip"@,
                            ),
                            if_none_match: match last_named(fields, "if-none-match"@) {
                                Some(value) => Some(text::lossy(value)),
                                None => None,
                            },
                            if_modified_since: value_seconds(
                                last_named(fields, "if-modified-since"@),
                            ),
                        },
                    )
                } else {
                    Err(Refusal::BadRequest)
                }
            },
            None => Err(Refusal::BadRequest),
        }
    }
}

/// What the header fields of a request say.
struct Collected {
    hosts: usize,
    accept_encoding: Vec<u8>,
    if_none_match: Option<String>,
    if_modified_since: Option<i64>,
}

impl Collected {
    /// Whether this is what the fields say.
    spec fn says(&self, fields: Seq<Seq<u8>>) -> bool {
        &&& self.hosts == count_named(fields, "host"@)
        &&& self.hosts <= fields.len()
        &&& self.accept_encoding@ == joined_named(fields, "accept-encoding"@)
        &&& self.if_none_match is Some <==> last_named(fields, "if-none-match"@) is Some
        &&& self.if_none_match matches Some(value) ==> value@ == text::lossy(
            last_named(fields, "if-none-match"@)->0,
        )
        &&& self.if_modified_since is Some <==> value_seconds(
            last_named(fields, "if-modified-since"@),
        ) is Some
        &&& self.if_modified_since matches Some(seconds) ==> seconds == value_seconds(
            last_named(fields, "if-modified-since"@),
        )->0
    }

    /// Takes one more field in; `false` when it is malformed.
    fn take_in(&mut self, field: &[u8], Ghost(seen): Ghost<Seq<Seq<u8>>>) -> (ok: bool)
        requires
            old(self).says(seen),
            seen.len() < usize::MAX,
        ensures
            ok == field_ok(field@),
            ok ==> final(self).says(seen.push(field@)),
    {
        if field.len() > MAX_HEADER_LINE_BYTES || (field.len() > 0 && is_white(field[0]))
            || value_contains_invalid_ctl(field) {
            return false;
        }
        let colon = find(field, COLON);
        if colon == field.len() {
            return false;
        }
        let name = trim_ascii(slice_subrange(field, 0, colon));
        let value = trim_ascii(slice_subrange(field, colon + 1, field.len()));
        assert(field@.subrange(0, colon as int) =~= field@.take(colon as int));
        assert(field@.subrange(colon + 1, field@.len() as int) =~= field@.skip(colon + 1));
        if name.len() == 0 || !is_header_name(name) {
            return false;
        }
        assert(seen.push(field@).drop_last() =~= seen);
        if eq_ignore_ascii_case(name, "host") {
            if value.len() == 0 {
                return false;
            }
            self.hosts = self.hosts + 1;
        }
        if eq_ignore_ascii_case(name, "accept-encoding") {
            let ghost before = self.accept_encoding@;
            self.accept_encoding.extend_from_slice(value);
            assert(self.accept_encoding@ =~= before + value@);
            self.accept_encoding.push(COMMA);
            assert(self.accept_encoding@ =~= before + value@ + seq![COMMA]);
        }
        if eq_ignore_ascii_case(name, "if-none-match") {
            self.if_none_match = Some(from_utf8_lossy(value));
        }
        if eq_ignore_ascii_case(name, "if-modified-since") {
            self.if_modified_since = parse_http_date_bytes(value);
        }
        true
    }
}

/// Reads the header fields up to the first empty line; none when they are malformed.
fn read_fields(lines: &[&[u8]]) -> (collected: Option<Collected>)
    ensures
        collected is Some <==> header_fields(bytes::pieces(lines@)) is Some && (forall|i: int|
            0 <= i < header_fields(bytes::pieces(lines@))->0.len() ==> field_ok(
                #[trigger] header_fields(bytes::pieces(lines@))->0[i],
            )),
        collected matches Some(c) ==> c.says(header_fields(bytes::pieces(lines@))->0),
{
    let mut collected = Collected {
        hosts: 0,
        accept_encoding: Vec::new(),
        if_none_match: None,
        if_modified_since: None,
    };
    let ghost whole = bytes::pieces(lines@);
    let ghost mut seen: Seq<Seq<u8>> = seq![];
    let mut i: usize = 0;
    assert(whole.skip(0) =~= whole);
    assert(header_fields(whole) matches Some(rest) ==> seen + rest =~= rest);
    while i < lines.len()
        invariant
            i <= lines.len(),
            whole == bytes::pieces(lines@),
            seen.len() == i,
            collected.says(seen),
            forall|j: int| 0 <= j < seen.len() ==> field_ok(#[trigger] seen[j]),
            header_fields(whole) is Some <==> header_fields(whole.skip(i as int)) is Some,
            header_fields(whole.skip(i as int)) matches Some(rest) ==> header_fields(whole) == Some(
                seen + rest,
            ),
        decreases lines.len() - i,
    {
        let line = lines[i];
        let ghost rest = whole.skip(i as int);
        assert(rest[0] == line@);
        assert(rest.skip(1) =~= whole.skip(i + 1));
        if line.len() == 0 || line[line.len() - 1] != CR {
            return None;
        }
        if line.len() == 1 {
            assert(seen + Seq::<Seq<u8>>::empty() =~= seen);
            return Some(collected);
        }
        let field = slice_subrange(line, 0, line.len() - 1);
        assert(field@ =~= line@.drop_last());
        assert(header_fields(rest.skip(1)) matches Some(tail) ==> seen + (seq![field@] + tail)
            =~= seen.push(field@) + tail);
        if !collected.take_in(field, Ghost(seen)) {
            assert(header_fields(whole) matches Some(all) ==> all[seen.len() as int] == field@);
            return None;
        }
        proof {
            seen = seen.push(field@);
        }
        i = i + 1;
    }
    assert(whole.skip(whole.len() as int) =~= seq![]);
    assert(seen + Seq::<Seq<u8>>::empty() =~= seen);
    Some(collected)
}

/// Reads a header block: the request line and the header fields, up to the empty line that ends
/// them.
pub fn parse_request(header: &[u8]) -> (request: Result<Request, RequestError>)
    ensures
        match parsed_request(header@) {
            Ok(model) => request matches Ok(r) && r@ == model,
            Err(refusal) => request matches Err(e) && e@ == refusal,
        },
{
    let lines = split_at_each(header, LF);
    let ghost whole = bytes::split(header@, LF);
    proof {
        bytes::lemma_split_is_not_empty(header@, LF);
        assert(whole.len() == lines@.len());
        assert(whole[0] == lines@[0]@);
    }
    let first = lines[0];
    if first.len() == 0 || first[first.len() - 1] != CR {
        return Err(RequestError::BadRequest);
    }
    let line = slice_subrange(first, 0, first.len() - 1);
    assert(line@ =~= whole[0].drop_last());
    if line.len() > MAX_HEADER_LINE_BYTES || contains_ctl(line) {
        return Err(RequestError::BadRequest);
    }
    let words = split_at_each(line, SPACE);
    let ghost fields = bytes::split(line@, SPACE);
    assert(fields.len() == words@.len());
    if words.len() != 3 {
        return Err(RequestError::BadRequest);
    }
    assert(fields[0] == words@[0]@ && fields[1] == words@[1]@ && fields[2] == words@[2]@);
    let target = words[1];
    if target.len() == 0 || target[0] != SLASH || !is_request_target_safe(target) {
        return Err(RequestError::BadRequest);
    }
    let modern = equal_text(words[2], "HTTP/1.1");
    if !modern && !equal_text(words[2], "HTTP/1.0") {
        return Err(RequestError::BadRequest);
    }
    assert(request_line_ok(line@));
    let method = if equal_text(words[0], "GET") {
        Method::Get
    } else if equal_text(words[0], "HEAD") {
        Method::Head
    } else {
        return Err(RequestError::MethodNotAllowed(from_utf8_lossy(words[0])));
    };
    let rest = slice_subrange(lines.as_slice(), 1, lines.len());
    assert(bytes::pieces(rest@) =~= whole.skip(1));
    let collected = match read_fields(rest) {
        Some(collected) => collected,
        None => return Err(RequestError::BadRequest),
    };
    if modern && collected.hosts != 1 {
        return Err(RequestError::BadRequest);
    }
    Ok(
        Request {
            method,
            target: slice_to_vec(target),
            accepted_encodings: accepted_encodings(collected.accept_encoding.as_slice()),
            if_none_match: collected.if_none_match,
            if_modified_since: collected.if_modified_since,
        },
    )
}

/// An accepted request has a target that begins with a slash and holds neither a control character,
/// nor a space, nor a fragment; its header lines hold no control character but the tab, and each has
/// a name of the right bytes.
pub proof fn accepted_requests_are_well_formed(header: Seq<u8>)
    requires
        parsed_request(header) is Ok,
    ensures
        ({
            let request = parsed_request(header)->Ok_0;
            &&& request.target.len() > 0
            &&& request.target[0] == SLASH
            &&& forall|i: int|
                0 <= i < request.target.len() ==> !unsafe_in_target(#[trigger] request.target[i])
        }),
        header_fields(bytes::split(header, LF).skip(1)) matches Some(fields) && forall|i: int|
            0 <= i < fields.len() ==> field_ok(#[trigger] fields[i]),
{
}

/// An accepted HTTP/1.1 request names its host exactly once, and not with an empty value.
pub proof fn accepted_requests_name_one_host(header: Seq<u8>)
    requires
        parsed_request(header) is Ok,
        bytes::split(bytes::split(header, LF)[0].drop_last(), SPACE)[2] == encode_utf8("HTTP/1.1"@),
    ensures
        header_fields(bytes::split(header, LF).skip(1)) matches Some(fields) && {
            &&& count_named(fields, "host"@) == 1
            &&& forall|i: int|
                0 <= i < fields.len() && is_named(#[trigger] fields[i], "host"@) ==> field_value(
                    fields[i],
                ).len() > 0
        },
{
    let fields = header_fields(bytes::split(header, LF).skip(1))->0;
    assert forall|i: int| 0 <= i < fields.len() && is_named(#[trigger] fields[i], "host"@) implies field_value(
        fields[i],
    ).len() > 0 by {
        assert(field_ok(fields[i]));
    }
}

} // verus!
