//! Configuration from environment variables.

use vstd::prelude::*;
use vstd::slice::*;
use vstd::utf8::*;

use crate::bytes;
use crate::bytes::{contains, copy_parts, split_at_each, BACKSLASH, DOT, SLASH};
use crate::http;
use crate::http::{is_header_name, value_contains_invalid_ctl};
use crate::target;
use crate::text;
use crate::text::{chars_of, from_utf8_lossy, same_text, text_of, to_lower, trim};

verus! {

/// The most worker threads that can be asked for.
pub const MAX_THREADS: usize = 256;

/// The most connections that can be asked to wait.
pub const MAX_QUEUE_SIZE: usize = 65_536;

/// The longest timeout that can be asked for, in seconds.
pub const MAX_TIMEOUT_SECS: u64 = 300;

/// The most extra response headers.
pub const MAX_EXTRA_HEADERS: usize = 32;

/// The longest name of an extra response header.
pub const MAX_HEADER_NAME_BYTES: usize = 64;

/// The longest value of an extra response header.
pub const MAX_HEADER_VALUE_BYTES: usize = 1024;

/// An extra response header.
#[derive(Debug, PartialEq, Eq)]
pub struct Header {
    name: String,
    value: String,
}

impl View for Header {
    type V = (Seq<char>, Seq<char>);

    closed spec fn view(&self) -> (Seq<char>, Seq<char>) {
        (self.name@, self.value@)
    }
}

impl Clone for Header {
    fn clone(&self) -> (copy: Header)
        ensures
            copy@ == self@,
    {
        Header { name: self.name.clone(), value: self.value.clone() }
    }
}

impl Header {
    /// The name.
    pub fn name(&self) -> (name: &str)
        ensures
            name@ == self@.0,
    {
        self.name.as_str()
    }

    /// The value.
    pub fn value(&self) -> (value: &str)
        ensures
            value@ == self@.1,
    {
        self.value.as_str()
    }
}

/// The names and values of headers.
pub open spec fn header_pairs(headers: Seq<Header>) -> Seq<(Seq<char>, Seq<char>)> {
    headers.map_values(|header: Header| header@)
}

/// Why a configuration is refused: a variable that is missing, or one with a value that it cannot
/// have.
#[derive(Debug)]
pub enum ConfigError {
    Missing(&'static str),
    Invalid(&'static str, String),
}

/// What a [`ConfigError`] holds.
pub enum ConfigProblem {
    Missing(Seq<char>),
    Invalid(Seq<char>, Seq<char>),
}

impl View for ConfigError {
    type V = ConfigProblem;

    open spec fn view(&self) -> ConfigProblem {
        match self {
            ConfigError::Missing(key) => ConfigProblem::Missing(key@),
            ConfigError::Invalid(key, value) => ConfigProblem::Invalid(key@, value@),
        }
    }
}

impl ConfigError {
    /// The error in words.
    pub fn message(&self) -> (message: String)
        ensures
            message@ == match self@ {
                ConfigProblem::Missing(key) => "missing required environment variable "@ + key,
                ConfigProblem::Invalid(key, value) => "invalid value for "@ + key + ": "@ + value,
            },
    {
        match self {
            ConfigError::Missing(key) => String::from_str("missing required environment variable ").concat(
                key,
            ),
            ConfigError::Invalid(key, value) => String::from_str("invalid value for ").concat(
                key,
            ).concat(": ").concat(value.as_str()),
        }
    }
}

/// An environment variable.
#[derive(Debug)]
pub enum EnvVar {
    Absent,
    NotUnicode,
    Text(String),
}

/// What an [`EnvVar`] holds.
pub enum Var {
    Absent,
    NotUnicode,
    Text(Seq<char>),
}

impl View for EnvVar {
    type V = Var;

    open spec fn view(&self) -> Var {
        match self {
            EnvVar::Absent => Var::Absent,
            EnvVar::NotUnicode => Var::NotUnicode,
            EnvVar::Text(raw) => Var::Text(raw@),
        }
    }
}

/// The number that decimal digits write.
pub open spec fn digits_value(digits: Seq<char>) -> nat
    decreases digits.len(),
{
    if digits.len() == 0 {
        0
    } else {
        digits_value(digits.drop_last()) * 10 + (digits.last() as int - '0' as int) as nat
    }
}

/// The digits of a number behind its sign, which can only be a plus.
pub open spec fn unsigned_digits(raw: Seq<char>) -> Seq<char> {
    if raw.len() > 0 && raw[0] == '+' {
        raw.skip(1)
    } else {
        raw
    }
}

/// Whether a text is a number: perhaps a plus, then at least one decimal digit and nothing else.
pub open spec fn is_number(raw: Seq<char>) -> bool {
    let digits = unsigned_digits(raw);
    digits.len() > 0 && (forall|i: int| 0 <= i < digits.len() ==> '0' <= #[trigger] digits[i] <= '9')
}

/// The number that a variable sets, within the bounds; the default where it is absent.
pub open spec fn bounded_number(
    key: Seq<char>,
    var: Var,
    default: int,
    min: int,
    max: int,
) -> Result<int, ConfigProblem> {
    match var {
        Var::Absent => Ok(default),
        Var::NotUnicode => Err(ConfigProblem::Invalid(key, "<non-UTF-8>"@)),
        Var::Text(raw) => {
            let value = digits_value(unsigned_digits(raw)) as int;
            if is_number(raw) && min <= value <= max {
                Ok(value)
            } else {
                Err(ConfigProblem::Invalid(key, raw))
            }
        },
    }
}

/// Reads a number of at most 64 bits.
fn parse_decimal(raw: &str) -> (number: Option<u64>)
    ensures
        number is Some <==> is_number(raw@) && digits_value(unsigned_digits(raw@)) <= u64::MAX,
        number matches Some(n) ==> n == digits_value(unsigned_digits(raw@)),
{
    let chars = chars_of(raw);
    let start: usize = if chars.len() > 0 && chars[0] == '+' { 1 } else { 0 };
    let ghost digits = unsigned_digits(raw@);
    assert(chars@.skip(start as int) =~= digits);
    if start == chars.len() {
        return None;
    }
    let mut n: u64 = 0;
    let mut fits = true;
    for i in start..chars.len()
        invariant
            start <= chars.len(),
            digits == chars@.skip(start as int),
            digits == unsigned_digits(raw@),
            forall|j: int| 0 <= j < i - start ==> '0' <= #[trigger] digits[j] <= '9',
            fits ==> n == digits_value(digits.take(i - start)),
            !fits ==> digits_value(digits.take(i - start)) > u64::MAX,
    {
        let c = chars[i];
        assert(digits[i - start] == c);
        if c < '0' || c > '9' {
            return None;
        }
        let digit: u64 = (c as u8 - 48) as u64;
        assert(digits.take(i + 1 - start).drop_last() =~= digits.take(i - start));
        assert(digits.take(i + 1 - start).last() == c);
        if fits {
            if n > (u64::MAX - digit) / 10 {
                fits = false;
            } else {
                n = n * 10 + digit;
            }
        }
    }
    assert(digits.take(digits.len() as int) =~= digits);
    if fits {
        Some(n)
    } else {
        None
    }
}

/// Reads a 64-bit number from a variable.
pub fn parse_u64(key: &'static str, var: &EnvVar, default: u64, min: u64, max: u64) -> (number:
    Result<u64, ConfigError>)
    ensures
        match bounded_number(key@, var@, default as int, min as int, max as int) {
            Ok(n) => number matches Ok(m) && m == n,
            Err(problem) => number matches Err(e) && e@ == problem,
        },
{
    match var {
        EnvVar::Absent => Ok(default),
        EnvVar::NotUnicode => Err(ConfigError::Invalid(key, String::from_str("<non-UTF-8>"))),
        EnvVar::Text(raw) => {
            match parse_decimal(raw.as_str()) {
                Some(n) => {
                    if min <= n && n <= max {
                        return Ok(n);
                    }
                },
                None => {},
            }
            Err(ConfigError::Invalid(key, raw.clone()))
        },
    }
}

/// Reads a number of the machine's size from a variable.
pub fn parse_usize(key: &'static str, var: &EnvVar, default: usize, min: usize, max: usize) -> (number:
    Result<usize, ConfigError>)
    ensures
        match bounded_number(key@, var@, default as int, min as int, max as int) {
            Ok(n) => number matches Ok(m) && m == n,
            Err(problem) => number matches Err(e) && e@ == problem,
        },
{
    match parse_u64(key, var, default as u64, min as u64, max as u64) {
        Ok(n) => Ok(n as usize),
        Err(error) => Err(error),
    }
}

/// The truth value that a text stands for, without regard to white space around it and to the case
/// of its letters.
pub open spec fn truth_value(raw: Seq<char>) -> Option<bool> {
    let word = text::lowered(text::trimmed(raw));
    if word == "1"@ || word == "true"@ || word == "yes"@ || word == "on"@ {
        Some(true)
    } else if word == "0"@ || word == "false"@ || word == "no"@ || word == "off"@ {
        Some(false)
    } else {
        None
    }
}

/// The switch that a variable sets; the default where it is absent.
pub open spec fn switch(key: Seq<char>, var: Var, default: bool) -> Result<bool, ConfigProblem> {
    match var {
        Var::Absent => Ok(default),
        Var::NotUnicode => Err(ConfigProblem::Invalid(key, "<non-UTF-8>"@)),
        Var::Text(raw) => match truth_value(raw) {
            Some(value) => Ok(value),
            None => Err(ConfigProblem::Invalid(key, raw)),
        },
    }
}

/// Reads a switch from a variable.
pub fn parse_bool(key: &'static str, var: &EnvVar, default: bool) -> (value: Result<
    bool,
    ConfigError,
>)
    ensures
        match switch(key@, var@, default) {
            Ok(v) => value matches Ok(w) && w == v,
            Err(problem) => value matches Err(e) && e@ == problem,
        },
{
    match var {
        EnvVar::Absent => Ok(default),
        EnvVar::NotUnicode => Err(ConfigError::Invalid(key, String::from_str("<non-UTF-8>"))),
        EnvVar::Text(raw) => {
            let chars = chars_of(raw.as_str());
            let lower = to_lower(trim(chars.as_slice()));
            let word = lower.as_str();
            if same_text(word, "1") || same_text(word, "true") || same_text(word, "yes")
                || same_text(word, "on") {
                Ok(true)
            } else if same_text(word, "0") || same_text(word, "false") || same_text(word, "no")
                || same_text(word, "off") {
                Ok(false)
            } else {
                Err(ConfigError::Invalid(key, raw.clone()))
            }
        },
    }
}

/// The components of a path with none that is empty, `.` or `..`, and no NUL or backslash; none
/// when the path is not like that.
pub open spec fn clean_components(path: Seq<u8>) -> Option<Seq<Seq<u8>>> {
    let components = bytes::split(path, SLASH);
    if path.len() > 0 && !path.contains(0u8) && !path.contains(BACKSLASH) && (forall|i: int|
        0 <= i < components.len() ==> (#[trigger] components[i]).len() > 0 && !target::is_dots(
            components[i],
        )) {
        Some(components)
    } else {
        None
    }
}

/// The components of a configured path, or the error that shows its bytes.
pub open spec fn path_components(key: Seq<char>, path: Seq<u8>) -> Result<
    Seq<Seq<u8>>,
    ConfigProblem,
> {
    match clean_components(path) {
        Some(components) => Ok(components),
        None => Err(ConfigProblem::Invalid(key, text::lossy(path))),
    }
}

/// Clean components never lead out of the directory they start from.
pub proof fn clean_components_are_safe(path: Seq<u8>)
    requires
        clean_components(path) is Some,
    ensures
        clean_components(path)->0.len() > 0,
        target::safe_path(clean_components(path)->0),
{
    let components = bytes::split(path, SLASH);
    bytes::lemma_split_is_not_empty(path, SLASH);
    assert forall|i: int| 0 <= i < components.len() implies target::safe_component(
        #[trigger] components[i],
    ) by {
        bytes::lemma_split_pieces(path, SLASH, i);
        let component = components[i];
        if component.contains(0u8) {
            let j = choose|j: int| 0 <= j < component.len() && component[j] == 0u8;
            assert(path.contains(component[j]));
        }
        if component.contains(BACKSLASH) {
            let j = choose|j: int| 0 <= j < component.len() && component[j] == BACKSLASH;
            assert(path.contains(component[j]));
        }
    }
}

/// Splits a configured path into its components.
pub fn parse_components(key: &'static str, path: &[u8]) -> (components: Result<
    Vec<Vec<u8>>,
    ConfigError,
>)
    ensures
        match path_components(key@, path@) {
            Ok(c) => components matches Ok(d) && bytes::parts(d@) == c,
            Err(problem) => components matches Err(e) && e@ == problem,
        },
{
    if path.len() == 0 || contains(path, 0) || contains(path, BACKSLASH) {
        return Err(ConfigError::Invalid(key, from_utf8_lossy(path)));
    }
    let pieces = split_at_each(path, SLASH);
    let ghost whole = bytes::split(path@, SLASH);
    let mut components: Vec<Vec<u8>> = Vec::new();
    for i in 0..pieces.len()
        invariant
            bytes::pieces(pieces@) == whole,
            whole == bytes::split(path@, SLASH),
            bytes::parts(components@) == whole.take(i as int),
            forall|j: int|
                0 <= j < i ==> (#[trigger] whole[j]).len() > 0 && !target::is_dots(whole[j]),
    {
        let piece = pieces[i];
        assert(whole[i as int] == piece@);
        if piece.len() == 0 || (piece.len() == 1 && piece[0] == DOT) || (piece.len() == 2
            && piece[0] == DOT && piece[1] == DOT) {
            assert(piece@.len() == 0 || piece@ =~= seq![DOT] || piece@ =~= seq![DOT, DOT]);
            assert(clean_components(path@) is None);
            return Err(ConfigError::Invalid(key, from_utf8_lossy(path)));
        }
        let ghost before = components@;
        components.push(slice_to_vec(piece));
        assert(bytes::parts(components@) =~= bytes::parts(before).push(piece@));
        assert(whole.take(i + 1) =~= whole.take(i as int).push(piece@));
    }
    assert(whole.take(whole.len() as int) =~= whole);
    Ok(components)
}

/// The components of a path that must be relative.
pub open spec fn relative_path(key: Seq<char>, path: Seq<u8>) -> Result<
    Seq<Seq<u8>>,
    ConfigProblem,
> {
    if path.len() > 0 && path[0] == SLASH {
        Err(ConfigProblem::Invalid(key, text::lossy(path)))
    } else {
        path_components(key, path)
    }
}

/// The components of a URL prefix, which must be absolute and may end in a slash.
pub open spec fn url_prefix(key: Seq<char>, path: Seq<u8>) -> Result<Seq<Seq<u8>>, ConfigProblem> {
    if path.len() == 0 || path[0] != SLASH {
        Err(ConfigProblem::Invalid(key, text::lossy(path)))
    } else if path.len() > 1 && path.last() == SLASH {
        path_components(key, path.subrange(1, path.len() - 1))
    } else {
        path_components(key, path.skip(1))
    }
}

/// Reads a path that must be relative.
pub fn parse_relative_path(key: &'static str, path: &[u8]) -> (components: Result<
    Vec<Vec<u8>>,
    ConfigError,
>)
    ensures
        match relative_path(key@, path@) {
            Ok(c) => components matches Ok(d) && bytes::parts(d@) == c,
            Err(problem) => components matches Err(e) && e@ == problem,
        },
{
    if path.len() > 0 && path[0] == SLASH {
        return Err(ConfigError::Invalid(key, from_utf8_lossy(path)));
    }
    parse_components(key, path)
}

/// Reads a URL prefix.
pub fn parse_url_prefix(key: &'static str, path: &[u8]) -> (components: Result<
    Vec<Vec<u8>>,
    ConfigError,
>)
    ensures
        match url_prefix(key@, path@) {
            Ok(c) => components matches Ok(d) && bytes::parts(d@) == c,
            Err(problem) => components matches Err(e) && e@ == problem,
        },
{
    if path.len() == 0 || path[0] != SLASH {
        return Err(ConfigError::Invalid(key, from_utf8_lossy(path)));
    }
    let end: usize = if path.len() > 1 && path[path.len() - 1] == SLASH {
        path.len() - 1
    } else {
        path.len()
    };
    assert(path@.subrange(1, path@.len() as int) =~= path@.skip(1));
    parse_components(key, slice_subrange(path, 1, end))
}

/// Whether a response header is set by the server itself and cannot be configured.
pub open spec fn reserved_header(name: Seq<char>) -> bool {
    let lower = text::lowered(name);
    ||| lower == "cache-control"@
    ||| lower == "connection"@
    ||| lower == "content-encoding"@
    ||| lower == "content-length"@
    ||| lower == "content-type"@
    ||| lower == "date"@
    ||| lower == "etag"@
    ||| lower == "last-modified"@
    ||| lower == "server"@
    ||| lower == "transfer-encoding"@
    ||| lower == "vary"@
}

/// Whether a response header is set by the server itself and cannot be configured.
pub fn is_reserved_response_header(name: &str) -> (reserved: bool)
    ensures
        reserved == reserved_header(name@),
{
    let chars = chars_of(name);
    let lower = to_lower(chars.as_slice());
    let lower = lower.as_str();
    same_text(lower, "cache-control") || same_text(lower, "connection") || same_text(
        lower,
        "content-encoding",
    ) || same_text(lower, "content-length") || same_text(lower, "content-type") || same_text(
        lower,
        "date",
    ) || same_text(lower, "etag") || same_text(lower, "last-modified") || same_text(lower, "server")
        || same_text(lower, "transfer-encoding") || same_text(lower, "vary")
}

/// Whether a name and a value make a response header that can be configured.
pub open spec fn allowed_header(header: (Seq<char>, Seq<char>)) -> bool {
    let name = encode_utf8(header.0);
    let value = encode_utf8(header.1);
    &&& 0 < name.len() <= MAX_HEADER_NAME_BYTES
    &&& value.len() <= MAX_HEADER_VALUE_BYTES
    &&& forall|i: int| 0 <= i < name.len() ==> http::name_byte(#[trigger] name[i])
    &&& forall|i: int| 0 <= i < value.len() ==> !http::invalid_in_value(#[trigger] value[i])
    &&& !reserved_header(header.0)
}

/// The name and the value on a line: what stands before and behind the first colon, without the
/// white space around each.
pub open spec fn line_header(line: Seq<char>) -> (Seq<char>, Seq<char>) {
    let colon = bytes::index_of_first(line, ':');
    (text::trimmed(line.take(colon)), text::trimmed(line.skip(colon + 1)))
}

/// The headers on the lines, in their order, blank lines left out; or the first line that holds no
/// allowed header or one header too many.
pub open spec fn headers_on(lines: Seq<Seq<char>>) -> Result<
    Seq<(Seq<char>, Seq<char>)>,
    Seq<char>,
>
    decreases lines.len(),
{
    if lines.len() == 0 {
        Ok(seq![])
    } else {
        match headers_on(lines.drop_last()) {
            Ok(headers) => {
                let line = text::trimmed(lines.last());
                if line.len() == 0 {
                    Ok(headers)
                } else if line.contains(':') && headers.len() < MAX_EXTRA_HEADERS && allowed_header(
                    line_header(line),
                ) {
                    Ok(headers.push(line_header(line)))
                } else {
                    Err(line)
                }
            },
            Err(line) => Err(line),
        }
    }
}

/// The extra headers that a variable sets.
pub open spec fn extra_headers(key: Seq<char>, var: Var) -> Result<
    Seq<(Seq<char>, Seq<char>)>,
    ConfigProblem,
> {
    match var {
        Var::Absent => Ok(seq![]),
        Var::NotUnicode => Err(ConfigProblem::Invalid(key, "<non-UTF-8>"@)),
        Var::Text(raw) => match headers_on(bytes::split(raw, '\n')) {
            Ok(headers) => Ok(headers),
            Err(line) => Err(ConfigProblem::Invalid(key, line)),
        },
    }
}

/// A line that is refused stays refused, whatever follows it.
proof fn lemma_refused(lines: Seq<Seq<char>>, i: int)
    requires
        0 <= i <= lines.len(),
        headers_on(lines.take(i)) is Err,
    ensures
        headers_on(lines) == headers_on(lines.take(i)),
    decreases lines.len() - i,
{
    if i < lines.len() {
        assert(lines.take(i + 1).drop_last() =~= lines.take(i));
        lemma_refused(lines, i + 1);
    } else {
        assert(lines.take(i) =~= lines);
    }
}

/// At most 32 extra headers are taken, each of them allowed.
pub proof fn configured_headers_are_allowed(lines: Seq<Seq<char>>)
    requires
        headers_on(lines) is Ok,
    ensures
        headers_on(lines)->Ok_0.len() <= MAX_EXTRA_HEADERS,
        forall|i: int|
            0 <= i < headers_on(lines)->Ok_0.len() ==> allowed_header(
                #[trigger] headers_on(lines)->Ok_0[i],
            ),
    decreases lines.len(),
{
    if lines.len() > 0 {
        configured_headers_are_allowed(lines.drop_last());
    }
}

/// Reads the header on a line that is not blank; none when it is not allowed.
fn parse_header(line: &[char]) -> (header: Option<Header>)
    ensures
        header is Some <==> line@.contains(':') && allowed_header(line_header(line@)),
        header matches Some(h) ==> h@ == line_header(line@),
{
    let mut colon: usize = 0;
    while colon < line.len() && line[colon] != ':'
        invariant
            colon <= line.len(),
            forall|j: int| 0 <= j < colon ==> line@[j] != ':',
        decreases line.len() - colon,
    {
        colon = colon + 1;
    }
    if colon == line.len() {
        return None;
    }
    assert(line@[colon as int] == ':');
    proof {
        bytes::lemma_index_of_first_is(line@, ':', colon as int);
    }
    let name = text_of(trim(slice_subrange(line, 0, colon)));
    let value = text_of(trim(slice_subrange(line, colon + 1, line.len())));
    assert(line@.subrange(0, colon as int) =~= line@.take(colon as int));
    assert(line@.subrange(colon + 1, line@.len() as int) =~= line@.skip(colon + 1));
    let name_bytes = name.as_str().as_bytes();
    let value_bytes = value.as_str().as_bytes();
    if name_bytes.len() == 0 || value_bytes.len() > MAX_HEADER_VALUE_BYTES || name_bytes.len()
        > MAX_HEADER_NAME_BYTES || !is_header_name(name_bytes) || value_contains_invalid_ctl(
        value_bytes,
    ) || is_reserved_response_header(name.as_str()) {
        return None;
    }
    Some(Header { name, value })
}

/// Reads the extra headers from a variable.
pub fn parse_extra_headers(key: &'static str, var: &EnvVar) -> (headers: Result<
    Vec<Header>,
    ConfigError,
>)
    ensures
        match extra_headers(key@, var@) {
            Ok(pairs) => headers matches Ok(h) && header_pairs(h@) == pairs,
            Err(problem) => headers matches Err(e) && e@ == problem,
        },
{
    let raw = match var {
        EnvVar::Absent => {
            let headers: Vec<Header> = Vec::new();
            assert(header_pairs(headers@) =~= seq![]);
            return Ok(headers);
        },
        EnvVar::NotUnicode => {
            return Err(ConfigError::Invalid(key, String::from_str("<non-UTF-8>")));
        },
        EnvVar::Text(raw) => raw,
    };
    let chars = chars_of(raw.as_str());
    let slices = text::split_at_each(chars.as_slice(), '\n');
    let ghost lines = bytes::split(chars@, '\n');
    let mut headers: Vec<Header> = Vec::new();
    assert(lines.take(0) =~= seq![]);
    assert(header_pairs(headers@) =~= seq![]);
    for i in 0..slices.len()
        invariant
            text::pieces(slices@) == lines,
            lines == bytes::split(chars@, '\n'),
            chars@ == raw@,
            var@ == Var::Text(raw@),
            headers_on(lines.take(i as int)) == Ok::<Seq<(Seq<char>, Seq<char>)>, Seq<char>>(
                header_pairs(headers@),
            ),
    {
        let line = trim(slices[i]);
        proof {
            assert(lines[i as int] == slices@[i as int]@);
            assert(lines.take(i + 1).drop_last() =~= lines.take(i as int));
            assert(lines.take(i + 1).last() == lines[i as int]);
        }
        if line.len() > 0 {
            let ghost before = headers@;
            if headers.len() >= MAX_EXTRA_HEADERS {
                assert(header_pairs(before).len() == before.len());
                proof {
                    lemma_refused(lines, i + 1);
                }
                return Err(ConfigError::Invalid(key, text_of(line)));
            }
            match parse_header(line) {
                Some(header) => {
                    headers.push(header);
                    assert(header_pairs(headers@) =~= header_pairs(before).push(header@));
                },
                None => {
                    proof {
                        lemma_refused(lines, i + 1);
                    }
                    return Err(ConfigError::Invalid(key, text_of(line)));
                },
            }
        }
    }
    assert(lines.take(lines.len() as int) =~= lines);
    Ok(headers)
}

/// The address to listen on.
#[derive(Clone, Copy, Debug)]
pub enum ListenAddr {
    V4 { octets: [u8; 4], port: u16 },
    V6 { address: [u8; 16], port: u16, flow_info: u32, scope_id: u32 },
}

/// The environment variables that configure the server.
#[derive(Debug)]
pub struct Environment {
    pub listen_addr: EnvVar,
    pub root: Option<Vec<u8>>,
    pub index: Option<Vec<u8>>,
    pub assets_path: Option<Vec<u8>>,
    pub threads: EnvVar,
    pub queue_size: EnvVar,
    pub gzip: EnvVar,
    pub brotli: EnvVar,
    pub deny_dotfiles: EnvVar,
    pub request_timeout_secs: EnvVar,
    pub shutdown_timeout_secs: EnvVar,
    pub extra_headers: EnvVar,
}

/// What an [`Environment`] holds.
pub struct EnvironmentModel {
    pub listen_addr: Var,
    pub root: Option<Seq<u8>>,
    pub index: Option<Seq<u8>>,
    pub assets_path: Option<Seq<u8>>,
    pub threads: Var,
    pub queue_size: Var,
    pub gzip: Var,
    pub brotli: Var,
    pub deny_dotfiles: Var,
    pub request_timeout_secs: Var,
    pub shutdown_timeout_secs: Var,
    pub extra_headers: Var,
}

/// The bytes of a variable that may be absent.
pub open spec fn raw_bytes(var: Option<Vec<u8>>) -> Option<Seq<u8>> {
    match var {
        Some(bytes) => Some(bytes@),
        None => None,
    }
}

impl View for Environment {
    type V = EnvironmentModel;

    open spec fn view(&self) -> EnvironmentModel {
        EnvironmentModel {
            listen_addr: self.listen_addr@,
            root: raw_bytes(self.root),
            index: raw_bytes(self.index),
            assets_path: raw_bytes(self.assets_path),
            threads: self.threads@,
            queue_size: self.queue_size@,
            gzip: self.gzip@,
            brotli: self.brotli@,
            deny_dotfiles: self.deny_dotfiles@,
            request_timeout_secs: self.request_timeout_secs@,
            shutdown_timeout_secs: self.shutdown_timeout_secs@,
            extra_headers: self.extra_headers@,
        }
    }
}

/// The configuration of the server.
#[derive(Debug)]
pub struct Config {
    listen_addr: ListenAddr,
    root: Vec<u8>,
    index: Vec<Vec<u8>>,
    assets_prefix: Vec<Vec<u8>>,
    threads: usize,
    queue_size: usize,
    gzip_enabled: bool,
    brotli_enabled: bool,
    deny_dotfiles: bool,
    request_timeout_secs: u64,
    shutdown_timeout_secs: u64,
    extra_headers: Vec<Header>,
}

/// What a [`Config`] holds.
#[verifier::ext_equal]
pub struct ConfigModel {
    pub listen_addr: ListenAddr,
    pub root: Seq<u8>,
    pub index: Seq<Seq<u8>>,
    pub assets_prefix: Seq<Seq<u8>>,
    pub threads: int,
    pub queue_size: int,
    pub gzip_enabled: bool,
    pub brotli_enabled: bool,
    pub deny_dotfiles: bool,
    pub request_timeout_secs: int,
    pub shutdown_timeout_secs: int,
    pub extra_headers: Seq<(Seq<char>, Seq<char>)>,
}

impl ConfigModel {
    /// What holds of every configuration: the document root is absolute, the index and the asset
    /// prefix stay below it, the numbers are in their bounds and the extra headers are allowed.
    pub open spec fn valid(self) -> bool {
        &&& self.root.len() > 0 && self.root[0] == SLASH
        &&& self.index.len() > 0 && target::safe_path(self.index)
        &&& self.assets_prefix.len() > 0 && target::safe_path(self.assets_prefix)
        &&& 1 <= self.threads <= MAX_THREADS
        &&& 1 <= self.queue_size <= MAX_QUEUE_SIZE
        &&& 1 <= self.request_timeout_secs <= MAX_TIMEOUT_SECS
        &&& 1 <= self.shutdown_timeout_secs <= MAX_TIMEOUT_SECS
        &&& self.extra_headers.len() <= MAX_EXTRA_HEADERS
        &&& forall|i: int|
            0 <= i < self.extra_headers.len() ==> allowed_header(#[trigger] self.extra_headers[i])
    }
}

impl View for Config {
    type V = ConfigModel;

    closed spec fn view(&self) -> ConfigModel {
        ConfigModel {
            listen_addr: self.listen_addr,
            root: self.root@,
            index: bytes::parts(self.index@),
            assets_prefix: bytes::parts(self.assets_prefix@),
            threads: self.threads as int,
            queue_size: self.queue_size as int,
            gzip_enabled: self.gzip_enabled,
            brotli_enabled: self.brotli_enabled,
            deny_dotfiles: self.deny_dotfiles,
            request_timeout_secs: self.request_timeout_secs as int,
            shutdown_timeout_secs: self.shutdown_timeout_secs as int,
            extra_headers: header_pairs(self.extra_headers@),
        }
    }
}

/// The text of a variable, for an error message.
pub open spec fn shown(var: Var) -> Seq<char> {
    match var {
        Var::Text(raw) => raw,
        _ => "<non-UTF-8>"@,
    }
}

/// The text of the address to listen on: the variable's, else every interface on port 8080.
pub open spec fn listen_text(var: Var) -> Seq<char> {
    match var {
        Var::Text(raw) => raw,
        _ => "0.0.0.0:8080"@,
    }
}

/// The number of worker threads for a number of processors: one for each, up to 32, and one where
/// their number is not known.
pub open spec fn threads_for(processors: Option<usize>) -> int {
    match processors {
        Some(n) => if n < 1 {
            1
        } else if n > 32 {
            32
        } else {
            n as int
        },
        None => 1,
    }
}

/// The bytes of a variable, or of its default.
pub open spec fn bytes_or(var: Option<Seq<u8>>, default: Seq<char>) -> Seq<u8> {
    match var {
        Some(bytes) => bytes,
        None => encode_utf8(default),
    }
}

/// The configuration that the variables make, or the first problem with them. `listen` is the
/// address that the text of `listen_text` names, if it names one.
pub open spec fn configuration(
    env: EnvironmentModel,
    listen: Option<ListenAddr>,
    processors: Option<usize>,
) -> Result<ConfigModel, ConfigProblem> {
    let index = relative_path("STATIKA_INDEX"@, bytes_or(env.index, "index.html"@));
    let assets = url_prefix("STATIKA_ASSETS_PATH"@, bytes_or(env.assets_path, "/assets"@));
    let threads = bounded_number(
        "STATIKA_THREADS"@,
        env.threads,
        threads_for(processors),
        1,
        MAX_THREADS as int,
    );
    let queue = bounded_number(
        "STATIKA_QUEUE_SIZE"@,
        env.queue_size,
        threads->Ok_0 * 64,
        1,
        MAX_QUEUE_SIZE as int,
    );
    let gzip = switch("STATIKA_GZIP"@, env.gzip, true);
    let brotli = switch("STATIKA_BROTLI"@, env.brotli, true);
    let dotfiles = switch("STATIKA_DENY_DOTFILES"@, env.deny_dotfiles, true);
    let request = bounded_number(
        "STATIKA_REQUEST_TIMEOUT_SECS"@,
        env.request_timeout_secs,
        5,
        1,
        MAX_TIMEOUT_SECS as int,
    );
    let shutdown = bounded_number(
        "STATIKA_SHUTDOWN_TIMEOUT_SECS"@,
        env.shutdown_timeout_secs,
        10,
        1,
        MAX_TIMEOUT_SECS as int,
    );
    let headers = extra_headers("STATIKA_EXTRA_HEADERS"@, env.extra_headers);
    if listen is None {
        Err(ConfigProblem::Invalid("STATIKA_LISTEN_ADDR"@, shown(env.listen_addr)))
    } else if env.root is None {
        Err(ConfigProblem::Missing("STATIKA_ROOT"@))
    } else if env.root->0.len() == 0 || env.root->0[0] != SLASH {
        Err(ConfigProblem::Invalid("STATIKA_ROOT"@, text::lossy(env.root->0)))
    } else if index is Err {
        Err(index->Err_0)
    } else if assets is Err {
        Err(assets->Err_0)
    } else if threads is Err {
        Err(threads->Err_0)
    } else if queue is Err {
        Err(queue->Err_0)
    } else if gzip is Err {
        Err(gzip->Err_0)
    } else if brotli is Err {
        Err(brotli->Err_0)
    } else if dotfiles is Err {
        Err(dotfiles->Err_0)
    } else if request is Err {
        Err(request->Err_0)
    } else if shutdown is Err {
        Err(shutdown->Err_0)
    } else if headers is Err {
        Err(headers->Err_0)
    } else {
        Ok(
            ConfigModel {
                listen_addr: listen->0,
                root: env.root->0,
                index: index->Ok_0,
                assets_prefix: assets->Ok_0,
                threads: threads->Ok_0,
                queue_size: queue->Ok_0,
                gzip_enabled: gzip->Ok_0,
                brotli_enabled: brotli->Ok_0,
                deny_dotfiles: dotfiles->Ok_0,
                request_timeout_secs: request->Ok_0,
                shutdown_timeout_secs: shutdown->Ok_0,
                extra_headers: headers->Ok_0,
            },
        )
    }
}

/// Every configuration that is accepted is valid.
pub proof fn accepted_configurations_are_valid(
    env: EnvironmentModel,
    listen: Option<ListenAddr>,
    processors: Option<usize>,
)
    requires
        configuration(env, listen, processors) is Ok,
    ensures
        configuration(env, listen, processors)->Ok_0.valid(),
{
    let index = bytes_or(env.index, "index.html"@);
    clean_components_are_safe(index);
    let assets = bytes_or(env.assets_path, "/assets"@);
    if assets.len() > 1 && assets.last() == SLASH {
        clean_components_are_safe(assets.subrange(1, assets.len() - 1));
    } else {
        clean_components_are_safe(assets.skip(1));
    }
    if env.extra_headers is Text {
        configured_headers_are_allowed(bytes::split(env.extra_headers->0, '\n'));
    }
}

/// The text of the address to listen on.
pub fn listen_addr_text(var: &EnvVar) -> (shown: String)
    ensures
        shown@ == listen_text(var@),
{
    match var {
        EnvVar::Text(raw) => raw.clone(),
        _ => String::from_str("0.0.0.0:8080"),
    }
}

/// The text of a variable, for an error message.
fn value(var: &EnvVar) -> (text: String)
    ensures
        text@ == shown(var@),
{
    match var {
        EnvVar::Text(raw) => raw.clone(),
        _ => String::from_str("<non-UTF-8>"),
    }
}

/// The number of worker threads for a number of processors.
pub fn default_threads(processors: Option<usize>) -> (threads: usize)
    ensures
        threads == threads_for(processors),
{
    match processors {
        Some(n) => if n < 1 {
            1
        } else if n > 32 {
            32
        } else {
            n
        },
        None => 1,
    }
}

fn copy_or(var: &Option<Vec<u8>>, default: &str) -> (copy: Vec<u8>)
    ensures
        copy@ == bytes_or(raw_bytes(*var), default@),
{
    match var {
        Some(bytes) => slice_to_vec(bytes.as_slice()),
        None => slice_to_vec(default.as_bytes()),
    }
}

fn copy_headers(headers: &[Header]) -> (copy: Vec<Header>)
    ensures
        header_pairs(copy@) == header_pairs(headers@),
{
    let mut copy: Vec<Header> = Vec::new();
    for i in 0..headers.len()
        invariant
            header_pairs(copy@) == header_pairs(headers@.take(i as int)),
    {
        let ghost before = copy@;
        copy.push(headers[i].clone());
        assert(header_pairs(copy@) =~= header_pairs(before).push(headers@[i as int]@));
        assert(header_pairs(copy@) =~= header_pairs(headers@.take(i + 1)));
    }
    assert(headers@.take(headers@.len() as int) =~= headers@);
    copy
}

impl Clone for Config {
    fn clone(&self) -> (copy: Config)
        ensures
            copy@ == self@,
    {
        proof {
            use_type_invariant(self);
        }
        let root = slice_to_vec(self.root.as_slice());
        let index = copy_parts(self.index.as_slice());
        let assets_prefix = copy_parts(self.assets_prefix.as_slice());
        let extra_headers = copy_headers(self.extra_headers.as_slice());
        Config {
            listen_addr: self.listen_addr,
            root,
            index,
            assets_prefix,
            threads: self.threads,
            queue_size: self.queue_size,
            gzip_enabled: self.gzip_enabled,
            brotli_enabled: self.brotli_enabled,
            deny_dotfiles: self.deny_dotfiles,
            request_timeout_secs: self.request_timeout_secs,
            shutdown_timeout_secs: self.shutdown_timeout_secs,
            extra_headers,
        }
    }
}

impl Config {
    #[verifier::type_invariant]
    pub closed spec fn well_formed(self) -> bool {
        self@.valid()
    }

    /// Makes the configuration from the variables. `listen` is the address that the text of
    /// [`listen_addr_text`] names, if it names one, and `processors` the number of processors, if
    /// it is known.
    pub fn from_env(
        env: &Environment,
        listen: Option<ListenAddr>,
        processors: Option<usize>,
    ) -> (config: Result<Config, ConfigError>)
        ensures
            match configuration(env@, listen, processors) {
                Ok(model) => config matches Ok(c) && c@ == model,
                Err(problem) => config matches Err(e) && e@ == problem,
            },
    {
        let listen_addr = match listen {
            Some(addr) => addr,
            None => {
                return Err(ConfigError::Invalid("STATIKA_LISTEN_ADDR", value(&env.listen_addr)));
            },
        };
        let root = match &env.root {
            Some(root) => slice_to_vec(root.as_slice()),
            None => return Err(ConfigError::Missing("STATIKA_ROOT")),
        };
        if root.len() == 0 || root[0] != SLASH {
            return Err(ConfigError::Invalid("STATIKA_ROOT", from_utf8_lossy(root.as_slice())));
        }
        let index_raw = copy_or(&env.index, "index.html");
        let index = match parse_relative_path("STATIKA_INDEX", index_raw.as_slice()) {
            Ok(index) => index,
            Err(error) => return Err(error),
        };
        let assets_raw = copy_or(&env.assets_path, "/assets");
        let assets_prefix = match parse_url_prefix("STATIKA_ASSETS_PATH", assets_raw.as_slice()) {
            Ok(prefix) => prefix,
            Err(error) => return Err(error),
        };
        let threads = match parse_usize(
            "STATIKA_THREADS",
            &env.threads,
            default_threads(processors),
            1,
            MAX_THREADS,
        ) {
            Ok(threads) => threads,
            Err(error) => return Err(error),
        };
        let queue_size = match parse_usize(
            "STATIKA_QUEUE_SIZE",
            &env.queue_size,
            threads * 64,
            1,
            MAX_QUEUE_SIZE,
        ) {
            Ok(size) => size,
            Err(error) => return Err(error),
        };
        let gzip_enabled = match parse_bool("STATIKA_GZIP", &env.gzip, true) {
            Ok(enabled) => enabled,
            Err(error) => return Err(error),
        };
        let brotli_enabled = match parse_bool("STATIKA_BROTLI", &env.brotli, true) {
            Ok(enabled) => enabled,
            Err(error) => return Err(error),
        };
        let deny_dotfiles = match parse_bool("STATIKA_DENY_DOTFILES", &env.deny_dotfiles, true) {
            Ok(deny) => deny,
            Err(error) => return Err(error),
        };
        let request_timeout_secs = match parse_u64(
            "STATIKA_REQUEST_TIMEOUT_SECS",
            &env.request_timeout_secs,
            5,
            1,
            MAX_TIMEOUT_SECS,
        ) {
            Ok(seconds) => seconds,
            Err(error) => return Err(error),
        };
        let shutdown_timeout_secs = match parse_u64(
            "STATIKA_SHUTDOWN_TIMEOUT_SECS",
            &env.shutdown_timeout_secs,
            10,
            1,
            MAX_TIMEOUT_SECS,
        ) {
            Ok(seconds) => seconds,
            Err(error) => return Err(error),
        };
        let extra_headers = match parse_extra_headers("STATIKA_EXTRA_HEADERS", &env.extra_headers) {
            Ok(headers) => headers,
            Err(error) => return Err(error),
        };
        proof {
            accepted_configurations_are_valid(env@, listen, processors);
        }
        Ok(
            Config {
                listen_addr,
                root,
                index,
                assets_prefix,
                threads,
                queue_size,
                gzip_enabled,
                brotli_enabled,
                deny_dotfiles,
                request_timeout_secs,
                shutdown_timeout_secs,
                extra_headers,
            },
        )
    }

    /// The address to listen on.
    pub fn listen_addr(&self) -> (addr: ListenAddr)
        ensures
            addr == self@.listen_addr,
    {
        self.listen_addr
    }

    /// The path of the document root, which is absolute.
    pub fn root(&self) -> (root: &[u8])
        ensures
            root@ == self@.root,
            self@.valid(),
    {
        proof {
            use_type_invariant(self);
        }
        self.root.as_slice()
    }

    /// The path of the index below the document root.
    pub fn index(&self) -> (index: &[Vec<u8>])
        ensures
            bytes::parts(index@) == self@.index,
            self@.valid(),
    {
        proof {
            use_type_invariant(self);
        }
        self.index.as_slice()
    }

    /// The path that assets lie under.
    pub fn assets_prefix(&self) -> (prefix: &[Vec<u8>])
        ensures
            bytes::parts(prefix@) == self@.assets_prefix,
            self@.valid(),
    {
        proof {
            use_type_invariant(self);
        }
        self.assets_prefix.as_slice()
    }

    /// The number of worker threads.
    pub fn threads(&self) -> (threads: usize)
        ensures
            threads == self@.threads,
            1 <= threads <= MAX_THREADS,
    {
        proof {
            use_type_invariant(self);
        }
        self.threads
    }

    /// The number of connections that can wait.
    pub fn queue_size(&self) -> (size: usize)
        ensures
            size == self@.queue_size,
            1 <= size <= MAX_QUEUE_SIZE,
    {
        proof {
            use_type_invariant(self);
        }
        self.queue_size
    }

    /// Whether gzip sidecars are served.
    pub fn gzip_enabled(&self) -> (enabled: bool)
        ensures
            enabled == self@.gzip_enabled,
    {
        self.gzip_enabled
    }

    /// Whether Brotli sidecars are served.
    pub fn brotli_enabled(&self) -> (enabled: bool)
        ensures
            enabled == self@.brotli_enabled,
    {
        self.brotli_enabled
    }

    /// Whether dotfiles are refused.
    pub fn deny_dotfiles(&self) -> (deny: bool)
        ensures
            deny == self@.deny_dotfiles,
    {
        self.deny_dotfiles
    }

    /// The longest lifetime of a connection, in seconds.
    pub fn request_timeout(&self) -> (seconds: u64)
        ensures
            seconds == self@.request_timeout_secs,
            1 <= seconds <= MAX_TIMEOUT_SECS,
    {
        proof {
            use_type_invariant(self);
        }
        self.request_timeout_secs
    }

    /// The longest wait for the workers to stop, in seconds.
    pub fn shutdown_timeout(&self) -> (seconds: u64)
        ensures
            seconds == self@.shutdown_timeout_secs,
            1 <= seconds <= MAX_TIMEOUT_SECS,
    {
        proof {
            use_type_invariant(self);
        }
        self.shutdown_timeout_secs
    }

    /// The headers that every response carries besides the server's own.
    pub fn extra_headers(&self) -> (headers: &[Header])
        ensures
            header_pairs(headers@) == self@.extra_headers,
            self@.valid(),
    {
        proof {
            use_type_invariant(self);
        }
        self.extra_headers.as_slice()
    }
}

} // verus!
