//! What the name of a file tells: its media type, and whether it carries a fingerprint.

use vstd::prelude::*;
use vstd::utf8::*;

use crate::bytes;
use crate::bytes::{eq_ignore_ascii_case, split_at_each, DASH, DOT, UNDERSCORE};
use crate::target;
use crate::target::hex;

verus! {

/// The part of the last component behind its last dot: all of it when there is no dot.
pub open spec fn extension(path: Seq<Seq<u8>>) -> Seq<u8> {
    if path.len() == 0 {
        seq![]
    } else {
        bytes::split(path.last(), DOT).last()
    }
}

/// Whether an extension is `name`, in any case of its letters.
pub open spec fn is_extension(found: Seq<u8>, name: Seq<char>) -> bool {
    bytes::same_letters(found, encode_utf8(name))
}

/// The media type of a file with the extension.
pub open spec fn media_type(found: Seq<u8>) -> Seq<char> {
    if is_extension(found, "html"@) || is_extension(found, "htm"@) {
        "text/html; charset=utf-8"@
    } else if is_extension(found, "css"@) {
        "text/css; charset=utf-8"@
    } else if is_extension(found, "js"@) || is_extension(found, "mjs"@) {
        "text/javascript; charset=utf-8"@
    } else if is_extension(found, "json"@) || is_extension(found, "map"@) {
        "application/json; charset=utf-8"@
    } else if is_extension(found, "webmanifest"@) {
        "application/manifest+json; charset=utf-8"@
    } else if is_extension(found, "svg"@) {
        "image/svg+xml"@
    } else if is_extension(found, "png"@) {
        "image/png"@
    } else if is_extension(found, "jpg"@) || is_extension(found, "jpeg"@) {
        "image/jpeg"@
    } else if is_extension(found, "gif"@) {
        "image/gif"@
    } else if is_extension(found, "webp"@) {
        "image/webp"@
    } else if is_extension(found, "avif"@) {
        "image/avif"@
    } else if is_extension(found, "ico"@) {
        "image/x-icon"@
    } else if is_extension(found, "woff"@) {
        "font/woff"@
    } else if is_extension(found, "woff2"@) {
        "font/woff2"@
    } else if is_extension(found, "txt"@) {
        "text/plain; charset=utf-8"@
    } else if is_extension(found, "csv"@) {
        "text/csv; charset=utf-8"@
    } else if is_extension(found, "xml"@) {
        "application/xml; charset=utf-8"@
    } else if is_extension(found, "wasm"@) {
        "application/wasm"@
    } else if is_extension(found, "pdf"@) {
        "application/pdf"@
    } else if is_extension(found, "mp4"@) {
        "video/mp4"@
    } else {
        "application/octet-stream"@
    }
}

/// The media type of a file, by its extension.
pub fn content_type(components: &[Vec<u8>]) -> (kind: &'static str)
    ensures
        kind@ == media_type(extension(bytes::parts(components@))),
{
    let empty: Vec<u8> = Vec::new();
    let name: &[u8] = if components.len() == 0 {
        empty.as_slice()
    } else {
        components[components.len() - 1].as_slice()
    };
    let slices = split_at_each(name, DOT);
    proof {
        bytes::lemma_split_is_not_empty(name@, DOT);
        if components@.len() == 0 {
            assert(bytes::split(name@, DOT).last() =~= seq![]);
        }
    }
    let found: &[u8] = slices[slices.len() - 1];
    assert(found@ == bytes::pieces(slices@).last());

    if eq_ignore_ascii_case(found, "html") || eq_ignore_ascii_case(found, "htm") {
        "text/html; charset=utf-8"
    } else if eq_ignore_ascii_case(found, "css") {
        "text/css; charset=utf-8"
    } else if eq_ignore_ascii_case(found, "js") || eq_ignore_ascii_case(found, "mjs") {
        "text/javascript; charset=utf-8"
    } else if eq_ignore_ascii_case(found, "json") || eq_ignore_ascii_case(found, "map") {
        "application/json; charset=utf-8"
    } else if eq_ignore_ascii_case(found, "webmanifest") {
        "application/manifest+json; charset=utf-8"
    } else if eq_ignore_ascii_case(found, "svg") {
        "image/svg+xml"
    } else if eq_ignore_ascii_case(found, "png") {
        "image/png"
    } else if eq_ignore_ascii_case(found, "jpg") || eq_ignore_ascii_case(found, "jpeg") {
        "image/jpeg"
    } else if eq_ignore_ascii_case(found, "gif") {
        "image/gif"
    } else if eq_ignore_ascii_case(found, "webp") {
        "image/webp"
    } else if eq_ignore_ascii_case(found, "avif") {
        "image/avif"
    } else if eq_ignore_ascii_case(found, "ico") {
        "image/x-icon"
    } else if eq_ignore_ascii_case(found, "woff") {
        "font/woff"
    } else if eq_ignore_ascii_case(found, "woff2") {
        "font/woff2"
    } else if eq_ignore_ascii_case(found, "txt") {
        "text/plain; charset=utf-8"
    } else if eq_ignore_ascii_case(found, "csv") {
        "text/csv; charset=utf-8"
    } else if eq_ignore_ascii_case(found, "xml") {
        "application/xml; charset=utf-8"
    } else if eq_ignore_ascii_case(found, "wasm") {
        "application/wasm"
    } else if eq_ignore_ascii_case(found, "pdf") {
        "application/pdf"
    } else if eq_ignore_ascii_case(found, "mp4") {
        "video/mp4"
    } else {
        "application/octet-stream"
    }
}

/// Whether a byte parts a name into pieces: a dot, a dash or an underscore.
pub open spec fn parts_name(b: u8) -> bool {
    b == DOT || b == DASH || b == UNDERSCORE
}

/// Whether the bytes from `from` up to `to` are a whole piece of a name, of at least eight bytes,
/// and all of them hexadecimal digits.
pub open spec fn fingerprint_at(name: Seq<u8>, from: int, to: int) -> bool {
    &&& 0 <= from <= to <= name.len()
    &&& to - from >= 8
    &&& forall|i: int| from <= i < to ==> target::hex_value(#[trigger] name[i]) is Some
    &&& from > 0 ==> parts_name(name[from - 1])
    &&& to < name.len() ==> parts_name(name[to])
}

/// Whether the last component carries a fingerprint.
pub open spec fn fingerprinted(path: Seq<Seq<u8>>) -> bool {
    path.len() > 0 && exists|from: int, to: int| #[trigger] fingerprint_at(path.last(), from, to)
}

proof fn lemma_piece_start(name: Seq<u8>, start: int, from: int, to: int)
    requires
        fingerprint_at(name, from, to),
        0 <= start <= to,
        start > 0 ==> parts_name(name[start - 1]),
        forall|j: int| start <= j < to ==> !parts_name(#[trigger] name[j]),
    ensures
        from == start,
{
    if from < start {
        assert(target::hex_value(name[start - 1]) is Some);
    } else if from > start {
        assert(!parts_name(name[from - 1]));
    }
}

/// Whether the last component carries a fingerprint: a piece of at least eight hexadecimal digits.
pub fn has_fingerprint(components: &[Vec<u8>]) -> (yes: bool)
    ensures
        yes == fingerprinted(bytes::parts(components@)),
{
    if components.len() == 0 {
        return false;
    }
    let name: &[u8] = components[components.len() - 1].as_slice();
    assert(bytes::parts(components@).last() == name@);
    let mut start: usize = 0;
    let mut digits = true;
    for i in 0..name.len()
        invariant
            start <= i,
            start > 0 ==> parts_name(name@[start - 1]),
            forall|j: int| start <= j < i ==> !parts_name(#[trigger] name@[j]),
            digits == forall|j: int| start <= j < i ==> target::hex_value(#[trigger] name@[j]) is Some,
            forall|from: int, to: int| #[trigger] fingerprint_at(name@, from, to) ==> to >= i,
            components@.len() > 0,
            bytes::parts(components@).last() == name@,
    {
        let b = name[i];
        if b == DOT || b == DASH || b == UNDERSCORE {
            if digits && i - start >= 8 {
                assert(fingerprint_at(name@, start as int, i as int));
                return true;
            }
            proof {
                assert forall|from: int, to: int| #[trigger]
                    fingerprint_at(name@, from, to) implies to >= i + 1 by {
                    if to == i {
                        lemma_piece_start(name@, start as int, from, to);
                    }
                }
            }
            start = i + 1;
            digits = true;
        } else {
            proof {
                assert forall|from: int, to: int| #[trigger]
                    fingerprint_at(name@, from, to) implies to >= i + 1 by {
                    if to == i {
                        assert(parts_name(name@[to]));
                    }
                }
            }
            if hex(b).is_none() {
                assert(target::hex_value(name@[i as int]) is None);
                digits = false;
            }
        }
    }
    let yes = digits && name.len() - start >= 8;
    proof {
        if yes {
            assert(fingerprint_at(name@, start as int, name@.len() as int));
        } else {
            assert forall|from: int, to: int| !#[trigger] fingerprint_at(name@, from, to) by {
                if fingerprint_at(name@, from, to) {
                    lemma_piece_start(name@, start as int, from, to);
                }
            }
        }
    }
    yes
}

/// Whether a word in lower case has this length, begins with these two bytes and ends with this
/// one.
spec fn looks_like(found: Seq<u8>, length: nat, first: u8, second: u8, last: u8) -> bool {
    let low = bytes::lowered(found);
    low.len() == length && low[0] == first && low[1] == second && low.last() == last
}

/// The extension that bytes spell, and by what it can be told from the others.
proof fn lemma_extension(found: Seq<u8>, name: Seq<char>, spelled: Seq<u8>)
    requires
        encode_utf8(name) == spelled,
        spelled.len() >= 2,
        forall|i: int| 0 <= i < spelled.len() ==> !(65 <= #[trigger] spelled[i] <= 90),
    ensures
        is_extension(found, name) <==> bytes::same_word(found, spelled),
        is_extension(found, name) ==> looks_like(
            found,
            spelled.len(),
            spelled[0],
            spelled[1],
            spelled.last(),
        ),
{
    bytes::words_are_compared_without_case(found, spelled);
    assert(bytes::lowered(spelled) =~= spelled);
}

proof fn lemma_html(found: Seq<u8>)
    ensures
        is_extension(found, "html"@) <==> spells(found, "html"@),
        is_extension(found, "html"@) ==> looks_like(found, 4, 104, 116, 108),
{
    reveal_strlit("html");
    assert(is_ascii_chars("html"@));
    is_ascii_chars_encode_utf8("html"@);
    lemma_extension(found, "html"@, encode_utf8("html"@));
}

proof fn lemma_htm(found: Seq<u8>)
    ensures
        is_extension(found, "htm"@) <==> spells(found, "htm"@),
        is_extension(found, "htm"@) ==> looks_like(found, 3, 104, 116, 109),
{
    reveal_strlit("htm");
    assert(is_ascii_chars("htm"@));
    is_ascii_chars_encode_utf8("htm"@);
    lemma_extension(found, "htm"@, encode_utf8("htm"@));
}

proof fn lemma_css(found: Seq<u8>)
    ensures
        is_extension(found, "css"@) <==> spells(found, "css"@),
        is_extension(found, "css"@) ==> looks_like(found, 3, 99, 115, 115),
{
    reveal_strlit("css");
    assert(is_ascii_chars("css"@));
    is_ascii_chars_encode_utf8("css"@);
    lemma_extension(found, "css"@, encode_utf8("css"@));
}

proof fn lemma_js(found: Seq<u8>)
    ensures
        is_extension(found, "js"@) <==> spells(found, "js"@),
        is_extension(found, "js"@) ==> looks_like(found, 2, 106, 115, 115),
{
    reveal_strlit("js");
    assert(is_ascii_chars("js"@));
    is_ascii_chars_encode_utf8("js"@);
    lemma_extension(found, "js"@, encode_utf8("js"@));
}

proof fn lemma_mjs(found: Seq<u8>)
    ensures
        is_extension(found, "mjs"@) <==> spells(found, "mjs"@),
        is_extension(found, "mjs"@) ==> looks_like(found, 3, 109, 106, 115),
{
    reveal_strlit("mjs");
    assert(is_ascii_chars("mjs"@));
    is_ascii_chars_encode_utf8("mjs"@);
    lemma_extension(found, "mjs"@, encode_utf8("mjs"@));
}

proof fn lemma_json(found: Seq<u8>)
    ensures
        is_extension(found, "json"@) <==> spells(found, "json"@),
        is_extension(found, "json"@) ==> looks_like(found, 4, 106, 115, 110),
{
    reveal_strlit("json");
    assert(is_ascii_chars("json"@));
    is_ascii_chars_encode_utf8("json"@);
    lemma_extension(found, "json"@, encode_utf8("json"@));
}

proof fn lemma_map(found: Seq<u8>)
    ensures
        is_extension(found, "map"@) <==> spells(found, "map"@),
        is_extension(found, "map"@) ==> looks_like(found, 3, 109, 97, 112),
{
    reveal_strlit("map");
    assert(is_ascii_chars("map"@));
    is_ascii_chars_encode_utf8("map"@);
    lemma_extension(found, "map"@, encode_utf8("map"@));
}

proof fn lemma_webmanifest(found: Seq<u8>)
    ensures
        is_extension(found, "webmanifest"@) <==> spells(found, "webmanifest"@),
        is_extension(found, "webmanifest"@) ==> looks_like(found, 11, 119, 101, 116),
{
    reveal_strlit("webmanifest");
    assert(is_ascii_chars("webmanifest"@));
    is_ascii_chars_encode_utf8("webmanifest"@);
    lemma_extension(found, "webmanifest"@, encode_utf8("webmanifest"@));
}

proof fn lemma_svg(found: Seq<u8>)
    ensures
        is_extension(found, "svg"@) <==> spells(found, "svg"@),
        is_extension(found, "svg"@) ==> looks_like(found, 3, 115, 118, 103),
{
    reveal_strlit("svg");
    assert(is_ascii_chars("svg"@));
    is_ascii_chars_encode_utf8("svg"@);
    lemma_extension(found, "svg"@, encode_utf8("svg"@));
}

proof fn lemma_png(found: Seq<u8>)
    ensures
        is_extension(found, "png"@) <==> spells(found, "png"@),
        is_extension(found, "png"@) ==> looks_like(found, 3, 112, 110, 103),
{
    reveal_strlit("png");
    assert(is_ascii_chars("png"@));
    is_ascii_chars_encode_utf8("png"@);
    lemma_extension(found, "png"@, encode_utf8("png"@));
}

proof fn lemma_jpg(found: Seq<u8>)
    ensures
        is_extension(found, "jpg"@) <==> spells(found, "jpg"@),
        is_extension(found, "jpg"@) ==> looks_like(found, 3, 106, 112, 103),
{
    reveal_strlit("jpg");
    assert(is_ascii_chars("jpg"@));
    is_ascii_chars_encode_utf8("jpg"@);
    lemma_extension(found, "jpg"@, encode_utf8("jpg"@));
}

proof fn lemma_jpeg(found: Seq<u8>)
    ensures
        is_extension(found, "jpeg"@) <==> spells(found, "jpeg"@),
        is_extension(found, "jpeg"@) ==> looks_like(found, 4, 106, 112, 103),
{
    reveal_strlit("jpeg");
    assert(is_ascii_chars("jpeg"@));
    is_ascii_chars_encode_utf8("jpeg"@);
    lemma_extension(found, "jpeg"@, encode_utf8("jpeg"@));
}

proof fn lemma_gif(found: Seq<u8>)
    ensures
        is_extension(found, "gif"@) <==> spells(found, "gif"@),
        is_extension(found, "gif"@) ==> looks_like(found, 3, 103, 105, 102),
{
    reveal_strlit("gif");
    assert(is_ascii_chars("gif"@));
    is_ascii_chars_encode_utf8("gif"@);
    lemma_extension(found, "gif"@, encode_utf8("gif"@));
}

proof fn lemma_webp(found: Seq<u8>)
    ensures
        is_extension(found, "webp"@) <==> spells(found, "webp"@),
        is_extension(found, "webp"@) ==> looks_like(found, 4, 119, 101, 112),
{
    reveal_strlit("webp");
    assert(is_ascii_chars("webp"@));
    is_ascii_chars_encode_utf8("webp"@);
    lemma_extension(found, "webp"@, encode_utf8("webp"@));
}

proof fn lemma_avif(found: Seq<u8>)
    ensures
        is_extension(found, "avif"@) <==> spells(found, "avif"@),
        is_extension(found, "avif"@) ==> looks_like(found, 4, 97, 118, 102),
{
    reveal_strlit("avif");
    assert(is_ascii_chars("avif"@));
    is_ascii_chars_encode_utf8("avif"@);
    lemma_extension(found, "avif"@, encode_utf8("avif"@));
}

proof fn lemma_ico(found: Seq<u8>)
    ensures
        is_extension(found, "ico"@) <==> spells(found, "ico"@),
        is_extension(found, "ico"@) ==> looks_like(found, 3, 105, 99, 111),
{
    reveal_strlit("ico");
    assert(is_ascii_chars("ico"@));
    is_ascii_chars_encode_utf8("ico"@);
    lemma_extension(found, "ico"@, encode_utf8("ico"@));
}

proof fn lemma_woff(found: Seq<u8>)
    ensures
        is_extension(found, "woff"@) <==> spells(found, "woff"@),
        is_extension(found, "woff"@) ==> looks_like(found, 4, 119, 111, 102),
{
    reveal_strlit("woff");
    assert(is_ascii_chars("woff"@));
    is_ascii_chars_encode_utf8("woff"@);
    lemma_extension(found, "woff"@, encode_utf8("woff"@));
}

proof fn lemma_woff2(found: Seq<u8>)
    ensures
        is_extension(found, "woff2"@) <==> spells(found, "woff2"@),
        is_extension(found, "woff2"@) ==> looks_like(found, 5, 119, 111, 50),
{
    reveal_strlit("woff2");
    assert(is_ascii_chars("woff2"@));
    is_ascii_chars_encode_utf8("woff2"@);
    lemma_extension(found, "woff2"@, encode_utf8("woff2"@));
}

proof fn lemma_txt(found: Seq<u8>)
    ensures
        is_extension(found, "txt"@) <==> spells(found, "txt"@),
        is_extension(found, "txt"@) ==> looks_like(found, 3, 116, 120, 116),
{
    reveal_strlit("txt");
    assert(is_ascii_chars("txt"@));
    is_ascii_chars_encode_utf8("txt"@);
    lemma_extension(found, "txt"@, encode_utf8("txt"@));
}

proof fn lemma_csv(found: Seq<u8>)
    ensures
        is_extension(found, "csv"@) <==> spells(found, "csv"@),
        is_extension(found, "csv"@) ==> looks_like(found, 3, 99, 115, 118),
{
    reveal_strlit("csv");
    assert(is_ascii_chars("csv"@));
    is_ascii_chars_encode_utf8("csv"@);
    lemma_extension(found, "csv"@, encode_utf8("csv"@));
}

proof fn lemma_xml(found: Seq<u8>)
    ensures
        is_extension(found, "xml"@) <==> spells(found, "xml"@),
        is_extension(found, "xml"@) ==> looks_like(found, 3, 120, 109, 108),
{
    reveal_strlit("xml");
    assert(is_ascii_chars("xml"@));
    is_ascii_chars_encode_utf8("xml"@);
    lemma_extension(found, "xml"@, encode_utf8("xml"@));
}

proof fn lemma_wasm(found: Seq<u8>)
    ensures
        is_extension(found, "wasm"@) <==> spells(found, "wasm"@),
        is_extension(found, "wasm"@) ==> looks_like(found, 4, 119, 97, 109),
{
    reveal_strlit("wasm");
    assert(is_ascii_chars("wasm"@));
    is_ascii_chars_encode_utf8("wasm"@);
    lemma_extension(found, "wasm"@, encode_utf8("wasm"@));
}

proof fn lemma_pdf(found: Seq<u8>)
    ensures
        is_extension(found, "pdf"@) <==> spells(found, "pdf"@),
        is_extension(found, "pdf"@) ==> looks_like(found, 3, 112, 100, 102),
{
    reveal_strlit("pdf");
    assert(is_ascii_chars("pdf"@));
    is_ascii_chars_encode_utf8("pdf"@);
    lemma_extension(found, "pdf"@, encode_utf8("pdf"@));
}

proof fn lemma_mp4(found: Seq<u8>)
    ensures
        is_extension(found, "mp4"@) <==> spells(found, "mp4"@),
        is_extension(found, "mp4"@) ==> looks_like(found, 3, 109, 112, 52),
{
    reveal_strlit("mp4");
    assert(is_ascii_chars("mp4"@));
    is_ascii_chars_encode_utf8("mp4"@);
    lemma_extension(found, "mp4"@, encode_utf8("mp4"@));
}

/// Whether bytes spell a word, in any case of its letters.
pub open spec fn spells(found: Seq<u8>, word: Seq<char>) -> bool {
    bytes::same_word(found, encode_utf8(word))
}

/// Each extension that is known, in any case of its letters, has its media type, and every other
/// that of plain bytes.
pub proof fn extensions_have_their_media_types(found: Seq<u8>)
    ensures
        spells(found, "html"@) ==> media_type(found) == "text/html; charset=utf-8"@,
        spells(found, "htm"@) ==> media_type(found) == "text/html; charset=utf-8"@,
        spells(found, "css"@) ==> media_type(found) == "text/css; charset=utf-8"@,
        spells(found, "js"@) ==> media_type(found) == "text/javascript; charset=utf-8"@,
        spells(found, "mjs"@) ==> media_type(found) == "text/javascript; charset=utf-8"@,
        spells(found, "json"@) ==> media_type(found) == "application/json; charset=utf-8"@,
        spells(found, "map"@) ==> media_type(found) == "application/json; charset=utf-8"@,
        spells(found, "webmanifest"@) ==> media_type(found) == "application/manifest+json; charset=utf-8"@,
        spells(found, "svg"@) ==> media_type(found) == "image/svg+xml"@,
        spells(found, "png"@) ==> media_type(found) == "image/png"@,
        spells(found, "jpg"@) ==> media_type(found) == "image/jpeg"@,
        spells(found, "jpeg"@) ==> media_type(found) == "image/jpeg"@,
        spells(found, "gif"@) ==> media_type(found) == "image/gif"@,
        spells(found, "webp"@) ==> media_type(found) == "image/webp"@,
        spells(found, "avif"@) ==> media_type(found) == "image/avif"@,
        spells(found, "ico"@) ==> media_type(found) == "image/x-icon"@,
        spells(found, "woff"@) ==> media_type(found) == "font/woff"@,
        spells(found, "woff2"@) ==> media_type(found) == "font/woff2"@,
        spells(found, "txt"@) ==> media_type(found) == "text/plain; charset=utf-8"@,
        spells(found, "csv"@) ==> media_type(found) == "text/csv; charset=utf-8"@,
        spells(found, "xml"@) ==> media_type(found) == "application/xml; charset=utf-8"@,
        spells(found, "wasm"@) ==> media_type(found) == "application/wasm"@,
        spells(found, "pdf"@) ==> media_type(found) == "application/pdf"@,
        spells(found, "mp4"@) ==> media_type(found) == "video/mp4"@,
        ({
            &&& !spells(found, "html"@)
            &&& !spells(found, "htm"@)
            &&& !spells(found, "css"@)
            &&& !spells(found, "js"@)
            &&& !spells(found, "mjs"@)
            &&& !spells(found, "json"@)
            &&& !spells(found, "map"@)
            &&& !spells(found, "webmanifest"@)
            &&& !spells(found, "svg"@)
            &&& !spells(found, "png"@)
            &&& !spells(found, "jpg"@)
            &&& !spells(found, "jpeg"@)
            &&& !spells(found, "gif"@)
            &&& !spells(found, "webp"@)
            &&& !spells(found, "avif"@)
            &&& !spells(found, "ico"@)
            &&& !spells(found, "woff"@)
            &&& !spells(found, "woff2"@)
            &&& !spells(found, "txt"@)
            &&& !spells(found, "csv"@)
            &&& !spells(found, "xml"@)
            &&& !spells(found, "wasm"@)
            &&& !spells(found, "pdf"@)
            &&& !spells(found, "mp4"@)
        }) ==> media_type(found) == "application/octet-stream"@,
{
    lemma_html(found);
    lemma_htm(found);
    lemma_css(found);
    lemma_js(found);
    lemma_mjs(found);
    lemma_json(found);
    lemma_map(found);
    lemma_webmanifest(found);
    lemma_svg(found);
    lemma_png(found);
    lemma_jpg(found);
    lemma_jpeg(found);
    lemma_gif(found);
    lemma_webp(found);
    lemma_avif(found);
    lemma_ico(found);
    lemma_woff(found);
    lemma_woff2(found);
    lemma_txt(found);
    lemma_csv(found);
    lemma_xml(found);
    lemma_wasm(found);
    lemma_pdf(found);
    lemma_mp4(found);
}

/// The extension of a file is what stands behind the last dot of its name; a name without a dot is
/// its own extension. The directories do not matter.
pub proof fn extensions_stand_behind_the_last_dot(
    directory: Seq<Seq<u8>>,
    stem: Seq<u8>,
    last: Seq<u8>,
)
    requires
        !last.contains(46u8),
    ensures
        extension(directory.push(stem + seq![46u8] + last)) == last,
        extension(directory.push(last)) == last,
{
    bytes::the_last_piece_is_behind_the_last_separator(stem, 46u8, last);
    assert(bytes::split(last, 46u8).last() == last);
}

/// Whether the bytes are hexadecimal digits, in any case.
pub open spec fn hex_digits(s: Seq<u8>) -> bool {
    forall|i: int|
        0 <= i < s.len() ==> (48 <= #[trigger] s[i] <= 57 || 97 <= s[i] <= 102 || 65 <= s[i] <= 70)
}

/// Whether a byte is a dot, a dash or an underscore.
pub open spec fn parts(b: u8) -> bool {
    b == 46 || b == 45 || b == 95
}

/// Whether a name is made of at least eight hexadecimal digits, with nothing before and behind them
/// that is not parted from them by a dot, a dash or an underscore.
pub open spec fn carries(name: Seq<u8>, before: Seq<u8>, digits: Seq<u8>, behind: Seq<u8>) -> bool {
    &&& name == before + digits + behind
    &&& digits.len() >= 8
    &&& hex_digits(digits)
    &&& before.len() > 0 ==> parts(before.last())
    &&& behind.len() > 0 ==> parts(behind[0])
}

/// A file carries a fingerprint exactly when its name, whatever its directories, has a piece of at
/// least eight hexadecimal digits between dots, dashes and underscores.
pub proof fn fingerprints_are_hexadecimal_pieces(directory: Seq<Seq<u8>>, name: Seq<u8>)
    ensures
        fingerprinted(directory.push(name)) <==> exists|
            before: Seq<u8>,
            digits: Seq<u8>,
            behind: Seq<u8>,
        | #[trigger] carries(name, before, digits, behind),
{
    let path = directory.push(name);
    assert(path.last() == name);
    if fingerprinted(path) {
        let (from, to) = choose|from: int, to: int| #[trigger] fingerprint_at(name, from, to);
        let (before, digits, behind) = (name.take(from), name.subrange(from, to), name.skip(to));
        assert(name =~= before + digits + behind);
        assert forall|i: int| 0 <= i < digits.len() implies (48 <= #[trigger] digits[i] <= 57 || 97
            <= digits[i] <= 102 || 65 <= digits[i] <= 70) by {
            assert(digits[i] == name[from + i]);
            assert(target::hex_value(name[from + i]) is Some);
        }
        assert(from > 0 ==> before.last() == name[from - 1]);
        assert(to < name.len() ==> behind[0] == name[to]);
        assert(carries(name, before, digits, behind));
    }
    if exists|before: Seq<u8>, digits: Seq<u8>, behind: Seq<u8>| #[trigger]
        carries(name, before, digits, behind) {
        let (before, digits, behind) = choose|
            before: Seq<u8>,
            digits: Seq<u8>,
            behind: Seq<u8>,
        | #[trigger] carries(name, before, digits, behind);
        let from = before.len() as int;
        let to = from + digits.len();
        assert forall|i: int| from <= i < to implies target::hex_value(#[trigger] name[i]) is Some by {
            assert(name[i] == digits[i - from]);
        }
        assert(from > 0 ==> name[from - 1] == before.last());
        assert(to < name.len() ==> name[to] == behind[0]);
        assert(fingerprint_at(name, from, to));
    }
}

} // verus!
