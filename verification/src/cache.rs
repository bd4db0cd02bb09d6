//! Caching: validators, conditional requests and `Cache-Control`.

use vstd::prelude::*;
use vstd::slice::*;
use vstd::utf8::*;

use crate::bytes;
use crate::bytes::{parts_start_with, LF};
use crate::config;
use crate::config::Config;
use crate::date;
use crate::http;
use crate::http::Request;
use crate::mime;
use crate::mime::has_fingerprint;
use crate::text;
use crate::text::{chars_of, push_padded_hex, split_at_each, trim};

verus! {

/// Whether a candidate of `If-None-Match` is the entity tag: any tag, the tag itself or its weak
/// form.
pub open spec fn candidate_matches(candidate: Seq<char>, etag: Seq<char>) -> bool {
    candidate == "*"@ || candidate == etag || candidate == "W/"@ + etag
}

/// Whether one of the candidates in an `If-None-Match` value is the entity tag.
pub open spec fn etag_matches(value: Seq<char>, etag: Seq<char>) -> bool {
    let candidates = bytes::split(value, ',');
    exists|i: int|
        0 <= i < candidates.len() && candidate_matches(
            text::trimmed(#[trigger] candidates[i]),
            etag,
        )
}

fn is_match(candidate: &[char], etag: &[char]) -> (yes: bool)
    ensures
        yes == candidate_matches(candidate@, etag@),
{
    proof {
        reveal_strlit("*");
        reveal_strlit("W/");
    }
    if candidate.len() == 1 && candidate[0] == '*' {
        assert(candidate@ =~= "*"@);
        return true;
    }
    assert(candidate@ != "*"@);
    if same_chars(candidate, etag) {
        return true;
    }
    if candidate.len() < 2 || candidate[0] != 'W' || candidate[1] != '/' {
        assert(candidate@ != "W/"@ + etag@) by {
            assert(("W/"@ + etag@)[0] == 'W' && ("W/"@ + etag@)[1] == '/');
        }
        return false;
    }
    let strong = slice_subrange(candidate, 2, candidate.len());
    assert(candidate@ =~= "W/"@ + strong@);
    assert(("W/"@ + etag@).skip(2) =~= etag@);
    assert(("W/"@ + strong@).skip(2) =~= strong@);
    same_chars(strong, etag)
}

fn same_chars(first: &[char], second: &[char]) -> (same: bool)
    ensures
        same == (first@ == second@),
{
    if first.len() != second.len() {
        return false;
    }
    for i in 0..first.len()
        invariant
            first.len() == second.len(),
            forall|j: int| 0 <= j < i ==> first@[j] == second@[j],
    {
        if first[i] != second[i] {
            return false;
        }
    }
    assert(first@ =~= second@);
    true
}

/// Whether an `If-None-Match` value names the entity tag.
pub fn if_none_match_matches(value: Option<&str>, etag: &str) -> (yes: bool)
    ensures
        yes == match value {
            Some(header) => etag_matches(header@, etag@),
            None => false,
        },
{
    let header = match value {
        Some(header) => chars_of(header),
        None => return false,
    };
    let tag = chars_of(etag);
    let candidates = split_at_each(header.as_slice(), ',');
    let ghost split = bytes::split(header@, ',');
    for i in 0..candidates.len()
        invariant
            text::pieces(candidates@) == split,
            split == bytes::split(header@, ','),
            tag@ == etag@,
            value matches Some(h) && h@ == header@,
            forall|j: int|
                0 <= j < i ==> !candidate_matches(text::trimmed(#[trigger] split[j]), etag@),
    {
        assert(split[i as int] == candidates@[i as int]@);
        if is_match(trim(candidates[i]), tag.as_slice()) {
            return true;
        }
    }
    assert(split.len() == candidates@.len());
    false
}

/// What identifies the contents of a file: its inode, its length and the time of its last change.
#[derive(Clone, Copy, Debug, PartialEq, Eq, Structural)]
pub struct FileMeta {
    pub ino: u64,
    pub len: u64,
    pub mtime: i64,
    pub mtime_nsec: i64,
}

/// A number in hexadecimal, a negative one by its two's complement in 64 bits.
pub open spec fn hex_text(n: int) -> Seq<char> {
    text::hexadecimal((if n < 0 { n + 0x1_0000_0000_0000_0000 } else { n }) as nat)
}

/// The entity tag of a file.
pub open spec fn etag_text(meta: FileMeta) -> Seq<char> {
    seq!['"'] + hex_text(meta.ino as int) + seq!['-'] + hex_text(meta.len as int) + seq!['-']
        + hex_text(meta.mtime as int) + seq!['-'] + hex_text(meta.mtime_nsec as int) + seq!['"']
}

fn unsigned(n: i64) -> (bits: u64)
    ensures
        bits == if n < 0 { n + 0x1_0000_0000_0000_0000 } else { n as int },
{
    let bits = n as u64;
    assert(bits == n as u64);
    assert(n < 0 ==> n as u64 == n + 0x1_0000_0000_0000_0000) by (bit_vector);
    bits
}

/// The entity tag of a file.
pub fn etag(meta: &FileMeta) -> (tag: String)
    ensures
        tag@ == etag_text(*meta),
{
    let mut tag = String::new();
    tag.push('"');
    push_padded_hex(&mut tag, meta.ino, 1);
    tag.push('-');
    push_padded_hex(&mut tag, meta.len, 1);
    tag.push('-');
    push_padded_hex(&mut tag, unsigned(meta.mtime), 1);
    tag.push('-');
    push_padded_hex(&mut tag, unsigned(meta.mtime_nsec), 1);
    tag.push('"');
    assert(tag@ =~= etag_text(*meta));
    tag
}

/// Whether the client already has what a file with the tag and the time of last change holds.
/// `If-None-Match` takes precedence over `If-Modified-Since`.
pub open spec fn not_modified(request: http::RequestModel, etag: Seq<char>, mtime: int) -> bool {
    match request.if_none_match {
        Some(value) => etag_matches(value, etag),
        None => match request.if_modified_since {
            Some(since) => 0 <= mtime <= since,
            None => false,
        },
    }
}

/// Whether the client already has what a file with the tag and the time of last change holds.
pub fn is_not_modified(request: &Request, etag: &str, mtime: i64) -> (yes: bool)
    ensures
        yes == not_modified(request@, etag@, mtime as int),
{
    match &request.if_none_match {
        Some(value) => if_none_match_matches(Some(value.as_str()), etag),
        None => match request.if_modified_since {
            Some(since) => mtime >= 0 && mtime <= since,
            None => false,
        },
    }
}

/// The `Cache-Control` value for a file: a year for fingerprinted assets, an hour for other ones,
/// and a check every time for the index and for everything else.
pub open spec fn cache_policy(
    path: Seq<Seq<u8>>,
    fallback: bool,
    settings: config::ConfigModel,
) -> Seq<char> {
    if fallback || path == settings.index || !settings.assets_prefix.is_prefix_of(path) {
        "no-cache"@
    } else if mime::fingerprinted(path) {
        "public, max-age=31536000, immutable"@
    } else {
        "public, max-age=3600"@
    }
}

/// Whether two paths are the same.
fn same_path(first: &[Vec<u8>], second: &[Vec<u8>]) -> (same: bool)
    ensures
        same == (bytes::parts(first@) == bytes::parts(second@)),
{
    let same = first.len() == second.len() && parts_start_with(first, second);
    assert(bytes::parts(first@).subrange(0, bytes::parts(first@).len() as int) =~= bytes::parts(
        first@,
    ));
    same
}

/// The `Cache-Control` value for a file, `fallback` when the index stands in for a missing path.
pub fn cache_control(components: &[Vec<u8>], fallback: bool, settings: &Config) -> (value:
    &'static str)
    ensures
        value@ == cache_policy(bytes::parts(components@), fallback, settings@),
{
    if fallback || same_path(components, settings.index()) {
        "no-cache"
    } else if parts_start_with(components, settings.assets_prefix()) {
        if has_fingerprint(components) {
            "public, max-age=31536000, immutable"
        } else {
            "public, max-age=3600"
        }
    } else {
        "no-cache"
    }
}

/// Whether the characters are hexadecimal digits.
spec fn all_hex(text: Seq<char>) -> bool {
    forall|i: int|
        0 <= i < text.len() ==> ('0' <= #[trigger] text[i] <= '9' || 'a' <= text[i] <= 'f')
}

proof fn lemma_padded_hex_digits(n: nat, width: nat)
    ensures
        all_hex(text::padded_hex(n, width)),
    decreases n, width,
{
    if n == 0 && width == 0 {
    } else {
        let rest = (if width == 0 { 0 } else { width - 1 }) as nat;
        lemma_padded_hex_digits(n / 16, rest);
        let d = (n % 16) as int;
        assert('0' <= text::digit(d) <= '9' || 'a' <= text::digit(d) <= 'f') by {
            if d < 10 {
                assert((48 + d) as char as int == 48 + d);
            } else {
                assert((87 + d) as char as int == 87 + d);
            }
        }
    }
}

proof fn lemma_digits_differ(first: int, second: int)
    requires
        0 <= first < 16,
        0 <= second < 16,
        text::digit(first) == text::digit(second),
    ensures
        first == second,
{
    assert(first < 10 ==> (48 + first) as char as int == 48 + first);
    assert(first >= 10 ==> (87 + first) as char as int == 87 + first);
    assert(second < 10 ==> (48 + second) as char as int == 48 + second);
    assert(second >= 10 ==> (87 + second) as char as int == 87 + second);
}

proof fn lemma_padded_hex_injective(first: nat, second: nat, width: nat)
    requires
        text::padded_hex(first, width) == text::padded_hex(second, width),
    ensures
        first == second,
    decreases first, width,
{
    let a = text::padded_hex(first, width);
    let b = text::padded_hex(second, width);
    if first == 0 && width == 0 {
        assert(a.len() == 0);
        if second > 0 {
            assert(b.len() > 0);
        }
    } else if second == 0 && width == 0 {
        assert(a.len() > 0);
    } else {
        let rest = (if width == 0 { 0 } else { width - 1 }) as nat;
        assert(a.drop_last() =~= text::padded_hex(first / 16, rest));
        assert(b.drop_last() =~= text::padded_hex(second / 16, rest));
        assert(a.last() == text::digit((first % 16) as int));
        assert(b.last() == text::digit((second % 16) as int));
        lemma_digits_differ((first % 16) as int, (second % 16) as int);
        lemma_padded_hex_injective(first / 16, second / 16, rest);
    }
}

proof fn lemma_hex_text_injective(first: int, second: int)
    requires
        (0 <= first < 0x1_0000_0000_0000_0000 && 0 <= second < 0x1_0000_0000_0000_0000) || (
        -0x8000_0000_0000_0000 <= first < 0x8000_0000_0000_0000 && -0x8000_0000_0000_0000 <= second
            < 0x8000_0000_0000_0000),
        hex_text(first) == hex_text(second),
    ensures
        first == second,
{
    let a = (if first < 0 { first + 0x1_0000_0000_0000_0000 } else { first }) as nat;
    let b = (if second < 0 { second + 0x1_0000_0000_0000_0000 } else { second }) as nat;
    lemma_padded_hex_injective(a, b, 1);
}

proof fn lemma_hex_text(n: int)
    ensures
        all_hex(hex_text(n)),
{
    let bits = (if n < 0 { n + 0x1_0000_0000_0000_0000 } else { n }) as nat;
    lemma_padded_hex_digits(bits, 1);
}

/// What stands before the first dash is settled by the whole, and so is what stands behind it.
proof fn lemma_first_dash(a: Seq<char>, b: Seq<char>, c: Seq<char>, d: Seq<char>)
    requires
        all_hex(a),
        all_hex(c),
        a + seq!['-'] + b == c + seq!['-'] + d,
    ensures
        a == c,
        b == d,
{
    let whole = a + seq!['-'] + b;
    assert(whole[a.len() as int] == '-');
    assert(whole[c.len() as int] == '-');
    if a.len() < c.len() {
        assert(whole[a.len() as int] == c[a.len() as int]);
    }
    if c.len() < a.len() {
        assert(whole[c.len() as int] == a[c.len() as int]);
    }
    assert(a =~= whole.take(a.len() as int));
    assert(c =~= whole.take(a.len() as int));
    assert(b =~= whole.skip(a.len() as int + 1));
    assert(d =~= whole.skip(a.len() as int + 1));
}

/// Files that differ in their inode, their length or the time of their last change have different
/// entity tags.
pub proof fn tags_tell_files_apart(first: FileMeta, second: FileMeta)
    requires
        etag_text(first) == etag_text(second),
    ensures
        first == second,
{
    lemma_hex_text(first.ino as int);
    lemma_hex_text(first.len as int);
    lemma_hex_text(first.mtime as int);
    lemma_hex_text(second.ino as int);
    lemma_hex_text(second.len as int);
    lemma_hex_text(second.mtime as int);
    let (a1, a2, a3, a4) = (
        hex_text(first.ino as int),
        hex_text(first.len as int),
        hex_text(first.mtime as int),
        hex_text(first.mtime_nsec as int),
    );
    let (b1, b2, b3, b4) = (
        hex_text(second.ino as int),
        hex_text(second.len as int),
        hex_text(second.mtime as int),
        hex_text(second.mtime_nsec as int),
    );
    let a34 = a3 + seq!['-'] + a4;
    let b34 = b3 + seq!['-'] + b4;
    let a234 = a2 + seq!['-'] + a34;
    let b234 = b2 + seq!['-'] + b34;
    let a = a1 + seq!['-'] + a234;
    let b = b1 + seq!['-'] + b234;
    assert(etag_text(first) =~= seq!['"'] + a + seq!['"']);
    assert(etag_text(second) =~= seq!['"'] + b + seq!['"']);
    assert(a =~= etag_text(first).drop_first().drop_last());
    assert(b =~= etag_text(second).drop_first().drop_last());
    lemma_first_dash(a1, a234, b1, b234);
    lemma_first_dash(a2, a34, b2, b34);
    lemma_first_dash(a3, a4, b3, b4);
    lemma_hex_text_injective(first.ino as int, second.ino as int);
    lemma_hex_text_injective(first.len as int, second.len as int);
    lemma_hex_text_injective(first.mtime as int, second.mtime as int);
    lemma_hex_text_injective(first.mtime_nsec as int, second.mtime_nsec as int);
}

proof fn lemma_lone_candidate(value: Seq<char>)
    requires
        value.len() > 0,
        !text::white_space(value[0]),
        !text::white_space(value.last()),
        forall|i: int| 0 <= i < value.len() ==> value[i] != ',',
    ensures
        bytes::split(value, ',') == seq![value],
        text::trimmed(value) == value,
{
    bytes::lemma_index_of_first_is(value, ',', value.len() as int);
}

proof fn lemma_tag_characters(meta: FileMeta)
    ensures
        etag_text(meta).len() > 0,
        etag_text(meta)[0] == '"',
        etag_text(meta).last() == '"',
        forall|i: int|
            0 <= i < etag_text(meta).len() ==> {
                let c = #[trigger] etag_text(meta)[i];
                c == '"' || c == '-' || '0' <= c <= '9' || 'a' <= c <= 'f'
            },
{
    lemma_hex_text(meta.ino as int);
    lemma_hex_text(meta.len as int);
    lemma_hex_text(meta.mtime as int);
    lemma_hex_text(meta.mtime_nsec as int);
}

/// A client that sends back the entity tag of a file is told that the file has not changed, and so
/// is one that sends the weak form of the tag or a star.
pub proof fn tags_match_themselves(meta: FileMeta)
    ensures
        etag_matches(etag_text(meta), etag_text(meta)),
        etag_matches("W/"@ + etag_text(meta), etag_text(meta)),
        etag_matches("*"@, etag_text(meta)),
{
    reveal_strlit("W/");
    reveal_strlit("*");
    let tag = etag_text(meta);
    lemma_tag_characters(meta);
    lemma_lone_candidate(tag);
    assert(candidate_matches(text::trimmed(bytes::split(tag, ',')[0]), tag));
    let weak = "W/"@ + tag;
    assert(weak.last() == tag.last());
    assert forall|i: int| 0 <= i < weak.len() implies weak[i] != ',' by {
        if i >= 2 {
            assert(weak[i] == tag[i - 2]);
        }
    }
    lemma_lone_candidate(weak);
    assert(candidate_matches(text::trimmed(bytes::split(weak, ',')[0]), tag));
    lemma_lone_candidate("*"@);
    assert(candidate_matches(text::trimmed(bytes::split("*"@, ',')[0]), tag));
}

/// A client that sends back the entity tag of another file alone is not told that this one has not
/// changed.
pub proof fn tags_of_other_files_do_not_match(held: FileMeta, current: FileMeta)
    requires
        held != current,
    ensures
        !etag_matches(etag_text(held), etag_text(current)),
{
    reveal_strlit("W/");
    reveal_strlit("*");
    let tag = etag_text(held);
    lemma_tag_characters(held);
    lemma_lone_candidate(tag);
    if etag_text(current) == tag {
        tags_tell_files_apart(held, current);
    }
    assert(tag[0] == '"');
    assert(("W/"@ + etag_text(current))[0] == 'W');
    assert(tag != "W/"@ + etag_text(current));
    assert(tag != "*"@);
}

/// The header fields of a request.
pub open spec fn fields_of(header: Seq<u8>) -> Seq<Seq<u8>> {
    http::header_fields(bytes::split(header, LF).skip(1))->0
}

/// A request whose last `If-None-Match` is the entity tag that a file was sent with is answered as
/// one for a file that has not changed, as long as it has not.
pub proof fn returned_tags_are_recognised(header: Seq<u8>, meta: FileMeta)
    requires
        http::parsed_request(header) is Ok,
        http::last_named(fields_of(header), "if-none-match"@) == Some(
            encode_utf8(etag_text(meta)),
        ),
    ensures
        not_modified(http::parsed_request(header)->Ok_0, etag_text(meta), meta.mtime as int),
{
    text::written_texts_are_read_back(etag_text(meta));
    tags_match_themselves(meta);
}

/// A request without an `If-None-Match`, whose last `If-Modified-Since` is the date that a file was
/// sent with, is answered as one for a file that has not changed, as long as it has not, and as the
/// date is one of the years 1970 to 9999.
pub proof fn returned_dates_are_recognised(header: Seq<u8>, meta: FileMeta)
    requires
        http::parsed_request(header) is Ok,
        0 <= meta.mtime <= 253_402_300_799,
        http::last_named(fields_of(header), "if-none-match"@) is None,
        http::last_named(fields_of(header), "if-modified-since"@) == Some(
            encode_utf8(date::http_date_text(meta.mtime as int)),
        ),
    ensures
        not_modified(http::parsed_request(header)->Ok_0, etag_text(meta), meta.mtime as int),
{
    date::http_dates_round_trip(meta.mtime as int);
}

/// With an `If-None-Match` in the request, its `If-Modified-Since` and the time of the last change
/// play no part.
pub proof fn if_none_match_takes_precedence(
    request: http::RequestModel,
    other: http::RequestModel,
    etag: Seq<char>,
    mtime: int,
    other_mtime: int,
)
    requires
        request.if_none_match is Some,
        other.if_none_match == request.if_none_match,
    ensures
        not_modified(request, etag, mtime) == not_modified(other, etag, other_mtime),
{
}

/// A candidate of an `If-None-Match` value, with white space around it.
pub struct Candidate {
    pub left: Seq<char>,
    pub tag: Seq<char>,
    pub right: Seq<char>,
}

/// Whether a candidate is one that commas part: there is white space around it, and no comma in it.
pub open spec fn candidate_ok(candidate: Candidate) -> bool {
    &&& text::blank(candidate.left)
    &&& text::blank(candidate.right)
    &&& text::unpadded(candidate.tag)
    &&& !candidate.tag.contains(',')
}

/// The texts of candidates.
pub open spec fn candidate_texts(candidates: Seq<Candidate>) -> Seq<Seq<char>> {
    Seq::new(
        candidates.len(),
        |i: int| candidates[i].left + candidates[i].tag + candidates[i].right,
    )
}

/// An `If-None-Match` value with commas between its candidates names an entity tag exactly when one
/// of them, wherever it stands, is that tag, the tag behind `W/`, or a star.
pub proof fn tags_are_looked_for_in_the_whole_list(candidates: Seq<Candidate>, etag: Seq<char>)
    requires
        candidates.len() > 0,
        forall|i: int| 0 <= i < candidates.len() ==> candidate_ok(#[trigger] candidates[i]),
    ensures
        etag_matches(bytes::joined_by(candidate_texts(candidates), ','), etag) <==> exists|i: int|
            0 <= i < candidates.len() && ((#[trigger] candidates[i]).tag == etag || candidates[i].tag
                == seq!['W', '/'] + etag || candidates[i].tag == seq!['*']),
{
    let texts = candidate_texts(candidates);
    reveal_strlit("*");
    reveal_strlit("W/");
    assert("*"@ =~= seq!['*']);
    assert("W/"@ =~= seq!['W', '/']);
    assert forall|i: int| 0 <= i < texts.len() implies !(#[trigger] texts[i]).contains(',')
        && text::trimmed(texts[i]) == candidates[i].tag by {
        let candidate = candidates[i];
        assert(candidate_ok(candidate));
        let whole = candidate.left + candidate.tag + candidate.right;
        let (a, b) = (candidate.left.len(), candidate.tag.len());
        assert forall|k: int| 0 <= k < whole.len() implies whole[k] != ',' by {
            if k < a {
                assert(whole[k] == candidate.left[k]);
                assert(text::is_blank(candidate.left[k]));
            } else if k < a + b {
                assert(whole[k] == candidate.tag[k - a]);
                assert(candidate.tag.contains(candidate.tag[k - a]));
            } else {
                assert(whole[k] == candidate.right[k - a - b]);
                assert(text::is_blank(candidate.right[k - a - b]));
            }
        }
        text::trimming_takes_off_padding(candidate.left, candidate.tag, candidate.right);
    }
    bytes::splitting_undoes_joining(texts, ',');
    let value = bytes::joined_by(texts, ',');
    if etag_matches(value, etag) {
        let i = choose|i: int|
            0 <= i < texts.len() && candidate_matches(text::trimmed(#[trigger] texts[i]), etag);
        assert(text::trimmed(texts[i]) == candidates[i].tag);
    }
    if exists|i: int|
        0 <= i < candidates.len() && ((#[trigger] candidates[i]).tag == etag || candidates[i].tag
            == seq!['W', '/'] + etag || candidates[i].tag == seq!['*']) {
        let i = choose|i: int|
            0 <= i < candidates.len() && ((#[trigger] candidates[i]).tag == etag
                || candidates[i].tag == seq!['W', '/'] + etag || candidates[i].tag == seq!['*']);
        assert(candidate_matches(text::trimmed(texts[i]), etag));
    }
}

/// Without an `If-None-Match`, a file counts as unchanged exactly when there is a date, the file
/// was not changed before 1970, and not behind that date.
pub proof fn dates_decide_without_tags(
    request: http::RequestModel,
    since: int,
    etag: Seq<char>,
    mtime: int,
)
    requires
        request.if_none_match is None,
    ensures
        request.if_modified_since is None ==> !not_modified(request, etag, mtime),
        request.if_modified_since == Some(since) && mtime < 0 ==> !not_modified(
            request,
            etag,
            mtime,
        ),
        request.if_modified_since == Some(since) && mtime > since ==> !not_modified(
            request,
            etag,
            mtime,
        ),
        request.if_modified_since == Some(since) && mtime >= 0 && mtime <= since ==> not_modified(
            request,
            etag,
            mtime,
        ),
{
}

/// With an `If-None-Match`, a file counts as unchanged exactly when its tag is among the
/// candidates.
pub proof fn tags_decide_where_there_are_any(
    request: http::RequestModel,
    value: Seq<char>,
    etag: Seq<char>,
    mtime: int,
)
    requires
        request.if_none_match == Some(value),
    ensures
        not_modified(request, etag, mtime) <==> etag_matches(value, etag),
{
}

/// An entity tag spells, between quotes and with dashes between them, the inode, the length and the
/// two parts of the time of the last change in hexadecimal.
pub proof fn tags_spell_what_identifies_the_file(meta: FileMeta)
    ensures
        exists|a: Seq<char>, b: Seq<char>, c: Seq<char>, d: Seq<char>|
            {
                &&& etag_text(meta) == #[trigger] (seq!['"'] + a + seq!['-'] + b + seq!['-'] + c
                    + seq!['-'] + d + seq!['"'])
                &&& text::numeral_value(a, 16) == meta.ino
                &&& text::numeral_value(b, 16) == meta.len
                &&& text::numeral_value(c, 16) == if meta.mtime < 0 {
                    meta.mtime + 0x1_0000_0000_0000_0000
                } else {
                    meta.mtime as int
                }
                &&& text::numeral_value(d, 16) == if meta.mtime_nsec < 0 {
                    meta.mtime_nsec + 0x1_0000_0000_0000_0000
                } else {
                    meta.mtime_nsec as int
                }
            },
{
    let bits = |n: int| (if n < 0 { n + 0x1_0000_0000_0000_0000 } else { n }) as nat;
    text::hexadecimals_have_their_value(bits(meta.ino as int), 1);
    text::hexadecimals_have_their_value(bits(meta.len as int), 1);
    text::hexadecimals_have_their_value(bits(meta.mtime as int), 1);
    text::hexadecimals_have_their_value(bits(meta.mtime_nsec as int), 1);
    let a = hex_text(meta.ino as int);
    let b = hex_text(meta.len as int);
    let c = hex_text(meta.mtime as int);
    let d = hex_text(meta.mtime_nsec as int);
    assert(etag_text(meta) == seq!['"'] + a + seq!['-'] + b + seq!['-'] + c + seq!['-'] + d + seq![
        '"',
    ]);
}

} // verus!
