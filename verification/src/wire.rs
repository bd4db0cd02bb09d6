//! Requests as clients write them, and what is read of them.

use vstd::prelude::*;
use vstd::utf8::*;

use crate::bytes;
use crate::encoding;
use crate::http;
use crate::http::{Method, Refusal, RequestModel};
use crate::text;

verus! {

/// Lines, each with a carriage return and a line feed behind it.
pub open spec fn lines_text(lines: Seq<Seq<u8>>) -> Seq<u8>
    decreases lines.len(),
{
    if lines.len() == 0 {
        seq![]
    } else {
        lines[0] + seq![13u8, 10] + lines_text(lines.skip(1))
    }
}

/// A header block: a request line, the header fields, and an empty line.
pub open spec fn header_block(line: Seq<u8>, fields: Seq<Seq<u8>>) -> Seq<u8> {
    lines_text((seq![line] + fields).push(seq![]))
}

/// A header field as it is written: a name, a colon and a value, with blanks around them.
pub struct Field {
    pub name: Seq<u8>,
    pub before_colon: Seq<u8>,
    pub before_value: Seq<u8>,
    pub value: Seq<u8>,
    pub after_value: Seq<u8>,
}

/// Whether all bytes are spaces and tabs.
pub open spec fn spaces(s: Seq<u8>) -> bool {
    forall|i: int| 0 <= i < s.len() ==> #[trigger] s[i] == 32 || s[i] == 9
}

/// Whether a byte is a letter, a digit or one of ``! # $ % & ' * + - . ^ _ ` | ~``.
pub open spec fn name_sign(b: u8) -> bool {
    ||| 97 <= b <= 122
    ||| 65 <= b <= 90
    ||| 48 <= b <= 57
    ||| b == 33 || b == 35 || b == 36 || b == 37 || b == 38 || b == 39 || b == 42 || b == 43
    ||| b == 45 || b == 46 || b == 94 || b == 95 || b == 96 || b == 124 || b == 126
}

/// Whether a byte may stand in a value: no control character but the tab.
pub open spec fn value_sign(b: u8) -> bool {
    b == 9 || 32 <= b <= 126 || b >= 128
}

/// The bytes of a header field.
pub open spec fn field_text(field: Field) -> Seq<u8> {
    field.name + field.before_colon + seq![58u8] + field.before_value + field.value
        + field.after_value
}

/// Whether a header field is well formed: a name of signs for names, a value that neither begins
/// nor ends with a blank, nothing else around them but blanks, and no more than 8192 bytes in all.
/// A host has a name.
pub open spec fn well_formed(field: Field) -> bool {
    &&& field.name.len() > 0
    &&& forall|i: int| 0 <= i < field.name.len() ==> name_sign(#[trigger] field.name[i])
    &&& spaces(field.before_colon)
    &&& spaces(field.before_value)
    &&& spaces(field.after_value)
    &&& forall|i: int| 0 <= i < field.value.len() ==> value_sign(#[trigger] field.value[i])
    &&& bytes::unpadded(field.value)
    &&& field_text(field).len() <= 8192
    &&& bytes::same_word(field.name, seq![104u8, 111, 115, 116]) ==> field.value.len() > 0
}

/// The texts of header fields.
pub open spec fn field_texts(fields: Seq<Field>) -> Seq<Seq<u8>> {
    Seq::new(fields.len(), |i: int| field_text(fields[i]))
}

/// The values of the fields with a name, in any case of its letters, in their order.
pub open spec fn values_named(fields: Seq<Field>, name: Seq<u8>) -> Seq<Seq<u8>>
    decreases fields.len(),
{
    if fields.len() == 0 {
        seq![]
    } else if bytes::same_word(fields.last().name, name) {
        values_named(fields.drop_last(), name).push(fields.last().value)
    } else {
        values_named(fields.drop_last(), name)
    }
}

/// Values one behind the other, each with a comma behind it.
pub open spec fn with_commas(values: Seq<Seq<u8>>) -> Seq<u8>
    decreases values.len(),
{
    if values.len() == 0 {
        seq![]
    } else {
        with_commas(values.drop_last()) + values.last() + seq![44u8]
    }
}

proof fn lemma_lines_joined(lines: Seq<Seq<u8>>)
    ensures
        lines_text(lines) == bytes::joined_by(
            Seq::new(lines.len(), |i: int| lines[i].push(13u8)).push(seq![]),
            10u8,
        ),
    decreases lines.len(),
{
    let pieces = Seq::new(lines.len(), |i: int| lines[i].push(13u8)).push(seq![]);
    if lines.len() == 0 {
        assert(bytes::joined_by(pieces, 10u8) =~= seq![]);
    } else {
        let rest = lines.skip(1);
        lemma_lines_joined(rest);
        let fewer = Seq::new(rest.len(), |i: int| rest[i].push(13u8)).push(seq![]);
        assert(pieces.skip(1) =~= fewer);
        assert(pieces[0] == lines[0].push(13u8));
        assert(lines_text(lines) =~= pieces[0] + seq![10u8] + lines_text(rest));
    }
}

/// Taking a header block apart into its lines.
proof fn lemma_block(line: Seq<u8>, fields: Seq<Seq<u8>>)
    requires
        !line.contains(10u8),
        forall|i: int|
            0 <= i < fields.len() ==> (#[trigger] fields[i]).len() > 0 && !fields[i].contains(10u8),
    ensures
        ({
            let lines = bytes::split(header_block(line, fields), 10u8);
            &&& lines.len() > 0
            &&& lines[0] == line.push(13u8)
            &&& lines[0].drop_last() == line
            &&& http::header_fields(lines.skip(1)) == Some(fields)
        }),
{
    let all = (seq![line] + fields).push(seq![]);
    let pieces = Seq::new(all.len(), |i: int| all[i].push(13u8)).push(seq![]);
    lemma_lines_joined(all);
    assert forall|i: int| 0 <= i < pieces.len() implies !(#[trigger] pieces[i]).contains(10u8) by {
        if i < all.len() {
            assert(!all[i].contains(10u8)) by {
                if 0 < i <= fields.len() {
                    assert(all[i] == fields[i - 1]);
                }
            }
            assert forall|k: int| 0 <= k < pieces[i].len() implies pieces[i][k] != 10 by {
                if k < all[i].len() {
                    assert(all[i].contains(all[i][k]));
                }
            }
        }
    }
    bytes::splitting_undoes_joining(pieces, 10u8);
    assert(pieces[0] =~= line.push(13u8));
    assert(line.push(13u8).drop_last() =~= line);
    let ended = Seq::new(fields.len(), |i: int| fields[i].push(13u8));
    assert(pieces.skip(1) =~= ended + seq![seq![13u8], seq![]]) by {
        assert forall|i: int| 0 <= i < pieces.len() - 1 implies pieces.skip(1)[i] == (ended + seq![
            seq![13u8],
            seq![],
        ])[i] by {
            if i < fields.len() {
                assert(all[i + 1] == fields[i]);
            } else if i == fields.len() {
                assert(all[i + 1] =~= seq![]);
                assert(pieces[i + 1] =~= seq![13u8]);
            }
        }
    }
    lemma_header_fields(fields);
}

proof fn lemma_header_fields(fields: Seq<Seq<u8>>)
    requires
        forall|i: int| 0 <= i < fields.len() ==> (#[trigger] fields[i]).len() > 0,
    ensures
        http::header_fields(
            Seq::new(fields.len(), |i: int| fields[i].push(13u8)) + seq![seq![13u8], seq![]],
        ) == Some(fields),
    decreases fields.len(),
{
    let lines = Seq::new(fields.len(), |i: int| fields[i].push(13u8)) + seq![seq![13u8], seq![]];
    if fields.len() == 0 {
        assert(lines[0] == seq![13u8]);
        assert(fields =~= seq![]);
    } else {
        let rest = fields.skip(1);
        assert forall|i: int| 0 <= i < rest.len() implies (#[trigger] rest[i]).len() > 0 by {
            assert(rest[i] == fields[i + 1]);
        }
        lemma_header_fields(rest);
        assert(lines.skip(1) =~= Seq::new(rest.len(), |i: int| rest[i].push(13u8)) + seq![
            seq![13u8],
            seq![],
        ]);
        assert(fields[0].len() > 0);
        assert(lines[0] == fields[0].push(13u8));
        assert(lines[0].drop_last() =~= fields[0]);
        assert(seq![fields[0]] + rest =~= fields);
    }
}

/// The name and the value of a field as it is written.
proof fn lemma_field(field: Field)
    requires
        well_formed(field),
    ensures
        http::field_name(field_text(field)) == field.name,
        http::field_value(field_text(field)) == field.value,
        field_text(field).len() > 0,
        !field_text(field).contains(10u8),
        !bytes::white(field_text(field)[0]),
        bytes::index_of_first(field_text(field), 58u8) < field_text(field).len(),
        forall|i: int|
            0 <= i < field_text(field).len() ==> !http::invalid_in_value(
                #[trigger] field_text(field)[i],
            ),
{
    let whole = field_text(field);
    let start = field.name + field.before_colon;
    let colon = start.len() as int;
    let end = field.before_value + field.value + field.after_value;
    assert(whole =~= start + seq![58u8] + end);
    assert(name_sign(field.name[0]));
    assert(name_sign(field.name[field.name.len() - 1]));
    assert forall|i: int| 0 <= i < start.len() implies start[i] != 58 && value_sign(start[i]) by {
        if i < field.name.len() {
            assert(start[i] == field.name[i]);
            assert(name_sign(field.name[i]));
        } else {
            assert(start[i] == field.before_colon[i - field.name.len()]);
        }
    }
    assert forall|i: int| 0 <= i < end.len() implies value_sign(end[i]) by {
        let (a, b) = (field.before_value.len(), field.value.len());
        if i < a {
            assert(end[i] == field.before_value[i]);
        } else if i < a + b {
            assert(end[i] == field.value[i - a]);
            assert(value_sign(field.value[i - a]));
        } else {
            assert(end[i] == field.after_value[i - a - b]);
        }
    }
    assert forall|i: int| 0 <= i < whole.len() implies value_sign(#[trigger] whole[i]) by {
        if i < colon {
            assert(whole[i] == start[i]);
        } else if i > colon {
            assert(whole[i] == end[i - colon - 1]);
        }
    }
    assert(whole[colon] == 58);
    bytes::lemma_index_of_first_is(whole, 58u8, colon);
    let none = Seq::<u8>::empty();
    assert(whole.take(colon) =~= none + field.name + field.before_colon);
    assert(whole.skip(colon + 1) =~= field.before_value + field.value + field.after_value);
    assert(bytes::unpadded(field.name)) by {
        let (first, last) = (seq![field.name[0]], seq![field.name.last()]);
        assert(first[0] == field.name[0] && last[0] == field.name.last());
    }
    bytes::trimming_takes_off_padding(none, field.name, field.before_colon);
    bytes::trimming_takes_off_padding(field.before_value, field.value, field.after_value);
    assert(whole[0] == field.name[0]);
}

proof fn lemma_words()
    ensures
        encode_utf8("GET"@) == seq![71u8, 69, 84],
        encode_utf8("HEAD"@) == seq![72u8, 69, 65, 68],
        encode_utf8("HTTP/1.1"@) == seq![72u8, 84, 84, 80, 47, 49, 46, 49],
        encode_utf8("HTTP/1.0"@) == seq![72u8, 84, 84, 80, 47, 49, 46, 48],
        encode_utf8("host"@) == seq![104u8, 111, 115, 116],
{
    reveal_strlit("GET");
    reveal_strlit("HEAD");
    reveal_strlit("HTTP/1.1");
    reveal_strlit("HTTP/1.0");
    reveal_strlit("host");
    assert(is_ascii_chars("GET"@) && is_ascii_chars("HEAD"@) && is_ascii_chars("host"@));
    assert(is_ascii_chars("HTTP/1.1"@) && is_ascii_chars("HTTP/1.0"@));
    is_ascii_chars_encode_utf8("GET"@);
    is_ascii_chars_encode_utf8("HEAD"@);
    is_ascii_chars_encode_utf8("HTTP/1.1"@);
    is_ascii_chars_encode_utf8("HTTP/1.0"@);
    is_ascii_chars_encode_utf8("host"@);
    assert(encode_utf8("GET"@) =~= seq![71u8, 69, 84]);
    assert(encode_utf8("HEAD"@) =~= seq![72u8, 69, 65, 68]);
    assert(encode_utf8("HTTP/1.1"@) =~= seq![72u8, 84, 84, 80, 47, 49, 46, 49]);
    assert(encode_utf8("HTTP/1.0"@) =~= seq![72u8, 84, 84, 80, 47, 49, 46, 48]);
    assert(encode_utf8("host"@) =~= seq![104u8, 111, 115, 116]);
}

/// What is read of the fields with a name.
proof fn lemma_named(fields: Seq<Field>, name: Seq<char>)
    requires
        forall|i: int| 0 <= i < fields.len() ==> well_formed(#[trigger] fields[i]),
    ensures
        ({
            let texts = field_texts(fields);
            let values = values_named(fields, encode_utf8(name));
            &&& http::count_named(texts, name) == values.len()
            &&& http::joined_named(texts, name) == with_commas(values)
            &&& http::last_named(texts, name) == if values.len() > 0 {
                Some(values.last())
            } else {
                None
            }
        }),
    decreases fields.len(),
{
    let texts = field_texts(fields);
    if fields.len() > 0 {
        let before = fields.drop_last();
        assert forall|i: int| 0 <= i < before.len() implies well_formed(#[trigger] before[i]) by {
            assert(before[i] == fields[i]);
        }
        lemma_named(before, name);
        assert(texts.drop_last() =~= field_texts(before));
        let last = fields[fields.len() - 1];
        assert(well_formed(last));
        lemma_field(last);
        assert(texts.last() == field_text(last));
        bytes::words_are_compared_without_case(last.name, encode_utf8(name));
        let values = values_named(before, encode_utf8(name));
        if bytes::same_word(last.name, encode_utf8(name)) {
            assert(values.push(last.value).drop_last() =~= values);
        }
    }
}

/// Whether a byte may stand in a target: no control character, no space and no number sign.
pub open spec fn target_sign(b: u8) -> bool {
    b >= 33 && b != 127 && b != 35
}

/// A request line of three words.
pub open spec fn request_line(method: Seq<u8>, target: Seq<u8>, version: Seq<u8>) -> Seq<u8> {
    method + seq![32u8] + target + seq![32u8] + version
}

/// Whether a request line can be understood: a method without spaces and control characters, a
/// target that begins with a slash, a version, and no more than 8192 bytes in all.
pub open spec fn line_ok(method: Seq<u8>, target: Seq<u8>, version: Seq<u8>) -> bool {
    &&& forall|i: int| 0 <= i < method.len() ==> #[trigger] method[i] > 32 && method[i] != 127
    &&& target.len() > 0
    &&& target[0] == 47
    &&& forall|i: int| 0 <= i < target.len() ==> target_sign(#[trigger] target[i])
    &&& version == seq![72u8, 84, 84, 80, 47, 49, 46, 49] || version == seq![
        72u8,
        84,
        84,
        80,
        47,
        49,
        46,
        48,
    ]
    &&& request_line(method, target, version).len() <= 8192
}

proof fn lemma_request_line(method: Seq<u8>, target: Seq<u8>, version: Seq<u8>)
    requires
        line_ok(method, target, version),
    ensures
        ({
            let line = request_line(method, target, version);
            &&& http::request_line_ok(line)
            &&& bytes::split(line, 32u8) == seq![method, target, version]
            &&& !line.contains(10u8)
        }),
{
    let line = request_line(method, target, version);
    let words = seq![method, target, version];
    lemma_words();
    lemma_three(words);
    assert forall|i: int| 0 <= i < words.len() implies !(#[trigger] words[i]).contains(32u8) by {
        let word = words[i];
        assert forall|k: int| 0 <= k < word.len() implies word[k] != 32 by {
            if i == 0 {
                assert(method[k] > 32);
            } else if i == 1 {
                assert(target_sign(target[k]));
            }
        }
    }
    bytes::splitting_undoes_joining(words, 32u8);
    assert forall|k: int| 0 <= k < line.len() implies line[k] >= 32 && line[k] != 127 by {
        let (a, b) = (method.len(), target.len());
        if k < a {
            assert(line[k] == method[k]);
        } else if a < k <= a + b {
            assert(line[k] == target[k - a - 1]);
            assert(target_sign(target[k - a - 1]));
        } else if k > a + b + 1 {
            assert(line[k] == version[k - a - b - 2]);
        }
    }
    assert forall|i: int| 0 <= i < target.len() implies !http::unsafe_in_target(
        #[trigger] target[i],
    ) by {
        assert(target_sign(target[i]));
    }
}

proof fn lemma_three(words: Seq<Seq<u8>>)
    requires
        words.len() == 3,
    ensures
        bytes::joined_by(words, 32u8) == request_line(words[0], words[1], words[2]),
{
    let two = words.skip(1);
    let one = two.skip(1);
    assert(bytes::joined_by(one, 32u8) == words[2]);
    assert(bytes::joined_by(two, 32u8) == words[1] + seq![32u8] + words[2]);
    assert(bytes::joined_by(words, 32u8) =~= request_line(words[0], words[1], words[2]));
}

/// The bytes of `host`.
pub open spec fn host() -> Seq<u8> {
    seq![104u8, 111, 115, 116]
}

proof fn lemma_fields(fields: Seq<Field>)
    requires
        forall|i: int| 0 <= i < fields.len() ==> well_formed(#[trigger] fields[i]),
    ensures
        forall|i: int|
            0 <= i < fields.len() ==> (#[trigger] field_texts(fields)[i]).len() > 0 && !field_texts(
                fields,
            )[i].contains(10u8) && http::field_ok(field_texts(fields)[i]),
{
    let texts = field_texts(fields);
    assert forall|i: int| 0 <= i < fields.len() implies (#[trigger] texts[i]).len() > 0
        && !texts[i].contains(10u8) && http::field_ok(texts[i]) by {
        let field = fields[i];
        assert(well_formed(field));
        lemma_field(field);
        lemma_words();
        bytes::words_are_compared_without_case(field.name, encode_utf8("host"@));
        assert forall|k: int| 0 <= k < field.name.len() implies http::name_byte(
            #[trigger] field.name[k],
        ) by {
            assert(name_sign(field.name[k]));
        }
    }
}

/// A request with a method that is served is read as it is written: the method, the target, and of
/// the fields the codings that all of `Accept-Encoding` name, the last `If-None-Match` and the last
/// `If-Modified-Since`, whatever the case of their names and the blanks around their values. Only
/// `HTTP/1.1` needs a host, and exactly one.
pub proof fn written_requests_are_read(
    head: bool,
    target: Seq<u8>,
    modern: bool,
    fields: Seq<Field>,
)
    requires
        ({
            let method = if head {
                seq![72u8, 69, 65, 68]
            } else {
                seq![71u8, 69, 84]
            };
            let version = seq![
                72u8,
                84,
                84,
                80,
                47,
                49,
                46,
                if modern {
                    49u8
                } else {
                    48u8
                },
            ];
            line_ok(method, target, version)
        }),
        forall|i: int| 0 <= i < fields.len() ==> well_formed(#[trigger] fields[i]),
    ensures
        ({
            let method = if head {
                seq![72u8, 69, 65, 68]
            } else {
                seq![71u8, 69, 84]
            };
            let version = seq![
                72u8,
                84,
                84,
                80,
                47,
                49,
                46,
                if modern {
                    49u8
                } else {
                    48u8
                },
            ];
            let codings = with_commas(values_named(fields, encode_utf8("accept-encoding"@)));
            let tags = values_named(fields, encode_utf8("if-none-match"@));
            let dates = values_named(fields, encode_utf8("if-modified-since"@));
            http::parsed_request(
                header_block(request_line(method, target, version), field_texts(fields)),
            ) == if modern && values_named(fields, host()).len() != 1 {
                Err::<RequestModel, Refusal>(Refusal::BadRequest)
            } else {
                Ok(
                    RequestModel {
                        method: if head {
                            Method::Head
                        } else {
                            Method::Get
                        },
                        target,
                        br_q: encoding::encoding_quality(codings, "br"@),
                        gzip_q: encoding::encoding_quality(codings, "gzip"@),
                        if_none_match: if tags.len() > 0 {
                            Some(text::lossy(tags.last()))
                        } else {
                            None
                        },
                        if_modified_since: if dates.len() > 0 {
                            http::value_seconds(Some(dates.last()))
                        } else {
                            None
                        },
                    },
                )
            }
        }),
{
    let method = if head {
        seq![72u8, 69, 65, 68]
    } else {
        seq![71u8, 69, 84]
    };
    let version = seq![
        72u8,
        84,
        84,
        80,
        47,
        49,
        46,
        if modern {
            49u8
        } else {
            48u8
        },
    ];
    let line = request_line(method, target, version);
    let texts = field_texts(fields);
    lemma_words();
    lemma_request_line(method, target, version);
    lemma_fields(fields);
    lemma_block(line, texts);
    lemma_named(fields, "host"@);
    lemma_named(fields, "accept-encoding"@);
    lemma_named(fields, "if-none-match"@);
    lemma_named(fields, "if-modified-since"@);
    assert(method[0] == if head {
        72u8
    } else {
        71u8
    });
    assert(version[7] == if modern {
        49u8
    } else {
        48u8
    });
    assert(encode_utf8("GET"@)[0] == 71 && encode_utf8("HEAD"@)[0] == 72);
    assert(encode_utf8("HTTP/1.1"@)[7] == 49 && encode_utf8("HTTP/1.0"@)[7] == 48);
}

/// A request with another method is refused for its method, whatever its fields.
pub proof fn other_methods_are_not_allowed(
    method: Seq<u8>,
    target: Seq<u8>,
    version: Seq<u8>,
    fields: Seq<Seq<u8>>,
)
    requires
        line_ok(method, target, version),
        method != seq![71u8, 69, 84],
        method != seq![72u8, 69, 65, 68],
        forall|i: int|
            0 <= i < fields.len() ==> (#[trigger] fields[i]).len() > 0 && !fields[i].contains(10u8),
    ensures
        http::parsed_request(header_block(request_line(method, target, version), fields)) == Err::<
            RequestModel,
            Refusal,
        >(Refusal::MethodNotAllowed(text::lossy(method))),
{
    lemma_words();
    lemma_request_line(method, target, version);
    lemma_block(request_line(method, target, version), fields);
}

/// A request line that is not three words, with a target that begins with a slash and a version
/// that is understood between single spaces, or that is too long or holds a control character, is
/// refused.
pub proof fn bad_request_lines_are_refused(words: Seq<Seq<u8>>, fields: Seq<Seq<u8>>)
    requires
        words.len() > 0,
        forall|i: int|
            0 <= i < words.len() ==> !(#[trigger] words[i]).contains(32u8) && !words[i].contains(
                10u8,
            ),
        forall|i: int|
            0 <= i < fields.len() ==> (#[trigger] fields[i]).len() > 0 && !fields[i].contains(10u8),
        ({
            ||| words.len() != 3
            ||| words[1].len() == 0
            ||| words[1][0] != 47
            ||| exists|i: int| 0 <= i < words[1].len() && !target_sign(#[trigger] words[1][i])
            ||| words[2] != seq![72u8, 84, 84, 80, 47, 49, 46, 49] && words[2] != seq![
                72u8,
                84,
                84,
                80,
                47,
                49,
                46,
                48,
            ]
            ||| bytes::joined_by(words, 32u8).len() > 8192
            ||| exists|i: int|
                0 <= i < bytes::joined_by(words, 32u8).len() && (#[trigger] bytes::joined_by(
                    words,
                    32u8,
                )[i] <= 31 || bytes::joined_by(words, 32u8)[i] == 127)
        }),
    ensures
        http::parsed_request(header_block(bytes::joined_by(words, 32u8), fields)) == Err::<
            RequestModel,
            Refusal,
        >(Refusal::BadRequest),
{
    let line = bytes::joined_by(words, 32u8);
    lemma_words();
    bytes::splitting_undoes_joining(words, 32u8);
    lemma_line_feeds(words);
    lemma_block(line, fields);
    if exists|i: int| 0 <= i < line.len() && (#[trigger] line[i] <= 31 || line[i] == 127) {
        let i = choose|i: int| 0 <= i < line.len() && (#[trigger] line[i] <= 31 || line[i] == 127);
        assert(crate::target::control(line[i]));
    } else if words.len() == 3 && exists|i: int|
        0 <= i < words[1].len() && !target_sign(#[trigger] words[1][i]) {
        let i = choose|i: int| 0 <= i < words[1].len() && !target_sign(#[trigger] words[1][i]);
        assert(http::unsafe_in_target(words[1][i]));
    }
}

proof fn lemma_line_feeds(words: Seq<Seq<u8>>)
    requires
        forall|i: int| 0 <= i < words.len() ==> !(#[trigger] words[i]).contains(10u8),
    ensures
        !bytes::joined_by(words, 32u8).contains(10u8),
    decreases words.len(),
{
    let whole = bytes::joined_by(words, 32u8);
    if words.len() > 0 {
        assert(!words[0].contains(10u8));
    }
    if words.len() > 1 {
        let rest = words.skip(1);
        assert forall|i: int| 0 <= i < rest.len() implies !(#[trigger] rest[i]).contains(10u8) by {
            assert(rest[i] == words[i + 1]);
        }
        lemma_line_feeds(rest);
        let tail = bytes::joined_by(rest, 32u8);
        assert forall|k: int| 0 <= k < whole.len() implies whole[k] != 10 by {
            if k < words[0].len() {
                assert(whole[k] == words[0][k]);
                assert(words[0].contains(words[0][k]));
            } else if k > words[0].len() {
                assert(whole[k] == tail[k - words[0].len() - 1]);
                assert(tail.contains(tail[k - words[0].len() - 1]));
            }
        }
    }
}

/// Whether a field is malformed in a way that can be told from its bytes: too long, folded, with a
/// control character, or without a colon.
pub open spec fn malformed(field: Seq<u8>) -> bool {
    ||| field.len() > 8192
    ||| field.len() > 0 && (field[0] == 32 || field[0] == 9)
    ||| exists|i: int| 0 <= i < field.len() && !value_sign(#[trigger] field[i])
    ||| !field.contains(58u8)
}

/// A request with a malformed field is refused.
pub proof fn malformed_fields_are_refused(
    method: Seq<u8>,
    target: Seq<u8>,
    version: Seq<u8>,
    fields: Seq<Seq<u8>>,
    i: int,
)
    requires
        line_ok(method, target, version),
        method == seq![71u8, 69, 84] || method == seq![72u8, 69, 65, 68],
        forall|k: int|
            0 <= k < fields.len() ==> (#[trigger] fields[k]).len() > 0 && !fields[k].contains(10u8),
        0 <= i < fields.len(),
        malformed(fields[i]),
    ensures
        http::parsed_request(header_block(request_line(method, target, version), fields)) == Err::<
            RequestModel,
            Refusal,
        >(Refusal::BadRequest),
{
    lemma_words();
    lemma_request_line(method, target, version);
    lemma_block(request_line(method, target, version), fields);
    let field = fields[i];
    assert(!http::field_ok(field)) by {
        if exists|k: int| 0 <= k < field.len() && !value_sign(#[trigger] field[k]) {
            let k = choose|k: int| 0 <= k < field.len() && !value_sign(#[trigger] field[k]);
            assert(http::invalid_in_value(field[k]));
        } else if !field.contains(58u8) {
            bytes::lemma_index_of_first(field, 58u8);
        }
    }
}

/// A request with a field that has no name, a name with a byte that is no sign for names, or an
/// empty host, is refused.
pub proof fn badly_named_fields_are_refused(
    method: Seq<u8>,
    target: Seq<u8>,
    version: Seq<u8>,
    fields: Seq<Seq<u8>>,
    i: int,
    name: Seq<u8>,
    value: Seq<u8>,
)
    requires
        line_ok(method, target, version),
        method == seq![71u8, 69, 84] || method == seq![72u8, 69, 65, 68],
        forall|k: int|
            0 <= k < fields.len() ==> (#[trigger] fields[k]).len() > 0 && !fields[k].contains(10u8),
        0 <= i < fields.len(),
        fields[i] == name + seq![58u8] + value,
        !name.contains(58u8),
        bytes::unpadded(name),
        name.len() == 0 || (exists|k: int| 0 <= k < name.len() && !name_sign(#[trigger] name[k]))
            || (bytes::same_word(name, host()) && bytes::blank(value)),
    ensures
        http::parsed_request(header_block(request_line(method, target, version), fields)) == Err::<
            RequestModel,
            Refusal,
        >(Refusal::BadRequest),
{
    lemma_words();
    lemma_request_line(method, target, version);
    lemma_block(request_line(method, target, version), fields);
    let field = fields[i];
    let none = Seq::<u8>::empty();
    let colon = name.len() as int;
    assert forall|j: int| 0 <= j < colon implies field[j] != 58 by {
        assert(field[j] == name[j]);
        assert(name.contains(name[j]));
    }
    assert(field[colon] == 58);
    bytes::lemma_index_of_first_is(field, 58u8, colon);
    assert(field.take(colon) =~= none + name + none);
    bytes::trimming_takes_off_padding(none, name, none);
    assert(!http::field_ok(field)) by {
        if exists|k: int| 0 <= k < name.len() && !name_sign(#[trigger] name[k]) {
            let k = choose|k: int| 0 <= k < name.len() && !name_sign(#[trigger] name[k]);
            assert(!http::name_byte(http::field_name(field)[k]));
        } else if name.len() > 0 {
            bytes::words_are_compared_without_case(name, encode_utf8("host"@));
            assert(field.skip(colon + 1) =~= value + none + none);
            bytes::trimming_takes_off_padding(value, none, none);
        }
    }
}

/// A request line that ends in a line feed alone is refused.
pub proof fn bare_line_feeds_are_refused(line: Seq<u8>, rest: Seq<u8>)
    requires
        !line.contains(10u8),
        line.len() == 0 || line.last() != 13,
    ensures
        http::parsed_request(line + seq![10u8] + rest) == Err::<RequestModel, Refusal>(
            Refusal::BadRequest,
        ),
{
    let whole = line + seq![10u8] + rest;
    let end = line.len() as int;
    assert forall|j: int| 0 <= j < end implies whole[j] != 10 by {
        assert(whole[j] == line[j]);
        assert(line.contains(line[j]));
    }
    assert(whole[end] == 10);
    bytes::lemma_index_of_first_is(whole, 10u8, end);
    assert(whole.take(end) =~= line);
}

/// A field that ends in a line feed alone makes the request be refused.
pub proof fn bare_line_feeds_behind_fields_are_refused(
    method: Seq<u8>,
    target: Seq<u8>,
    version: Seq<u8>,
    fields: Seq<Seq<u8>>,
    field: Seq<u8>,
    rest: Seq<u8>,
)
    requires
        line_ok(method, target, version),
        method == seq![71u8, 69, 84] || method == seq![72u8, 69, 65, 68],
        forall|k: int|
            0 <= k < fields.len() ==> (#[trigger] fields[k]).len() > 0 && !fields[k].contains(10u8),
        !field.contains(10u8),
        field.len() == 0 || field.last() != 13,
    ensures
        http::parsed_request(
            lines_text(seq![request_line(method, target, version)] + fields) + (field + seq![10u8]
                + rest),
        ) == Err::<RequestModel, Refusal>(Refusal::BadRequest),
{
    let line = request_line(method, target, version);
    let tail = field + seq![10u8] + rest;
    let header = lines_text(seq![line] + fields) + tail;
    lemma_words();
    lemma_request_line(method, target, version);
    lemma_split_lines(seq![line] + fields, tail);
    let lines = bytes::split(header, 10u8);
    let ended = Seq::new((seq![line] + fields).len(), |i: int| (seq![line] + fields)[i].push(13u8));
    let last = bytes::split(tail, 10u8);
    assert(lines == ended + last);
    assert(lines[0] =~= line.push(13u8));
    assert(lines[0].drop_last() =~= line);
    assert forall|j: int| 0 <= j < field.len() implies tail[j] != 10 by {
        assert(tail[j] == field[j]);
        assert(field.contains(field[j]));
    }
    assert(tail[field.len() as int] == 10);
    bytes::lemma_index_of_first_is(tail, 10u8, field.len() as int);
    assert(tail.take(field.len() as int) =~= field);
    assert(last[0] == field);
    let behind = Seq::new(fields.len(), |i: int| fields[i].push(13u8));
    assert(lines.skip(1) =~= behind + last) by {
        assert forall|i: int| 0 <= i < lines.len() - 1 implies lines.skip(1)[i] == (behind
            + last)[i] by {
            if i < fields.len() {
                assert((seq![line] + fields)[i + 1] == fields[i]);
            }
        }
    }
    lemma_broken_fields(fields, last);
}

proof fn lemma_broken_fields(fields: Seq<Seq<u8>>, last: Seq<Seq<u8>>)
    requires
        last.len() > 0,
        last[0].len() == 0 || last[0].last() != 13,
        forall|i: int| 0 <= i < fields.len() ==> (#[trigger] fields[i]).len() > 0,
    ensures
        http::header_fields(Seq::new(fields.len(), |i: int| fields[i].push(13u8)) + last) is None,
    decreases fields.len(),
{
    let lines = Seq::new(fields.len(), |i: int| fields[i].push(13u8)) + last;
    if fields.len() > 0 {
        let rest = fields.skip(1);
        assert forall|i: int| 0 <= i < rest.len() implies (#[trigger] rest[i]).len() > 0 by {
            assert(rest[i] == fields[i + 1]);
        }
        lemma_broken_fields(rest, last);
        assert(lines.skip(1) =~= Seq::new(rest.len(), |i: int| rest[i].push(13u8)) + last);
        assert(fields[0].len() > 0);
        assert(lines[0] == fields[0].push(13u8));
    } else {
        assert(lines =~= last);
    }
}

proof fn lemma_split_lines(lines: Seq<Seq<u8>>, tail: Seq<u8>)
    requires
        forall|i: int| 0 <= i < lines.len() ==> !(#[trigger] lines[i]).contains(10u8),
    ensures
        bytes::split(lines_text(lines) + tail, 10u8) == Seq::new(
            lines.len(),
            |i: int| lines[i].push(13u8),
        ) + bytes::split(tail, 10u8),
    decreases lines.len(),
{
    let whole = lines_text(lines) + tail;
    let ended = Seq::new(lines.len(), |i: int| lines[i].push(13u8));
    if lines.len() == 0 {
        assert(whole =~= tail);
        assert(ended + bytes::split(tail, 10u8) =~= bytes::split(tail, 10u8));
    } else {
        let rest = lines.skip(1);
        assert forall|i: int| 0 <= i < rest.len() implies !(#[trigger] rest[i]).contains(10u8) by {
            assert(rest[i] == lines[i + 1]);
        }
        lemma_split_lines(rest, tail);
        let end = lines[0].len() as int + 1;
        assert(!lines[0].contains(10u8));
        assert forall|j: int| 0 <= j < end implies whole[j] != 10 by {
            if j < lines[0].len() {
                assert(whole[j] == lines[0][j]);
                assert(lines[0].contains(lines[0][j]));
            } else {
                assert(whole[j] == 13);
            }
        }
        assert(whole[end] == 10);
        bytes::lemma_index_of_first_is(whole, 10u8, end);
        assert(whole.take(end) =~= lines[0].push(13u8));
        assert(whole.skip(end + 1) =~= lines_text(rest) + tail);
        let fewer = Seq::new(rest.len(), |i: int| rest[i].push(13u8));
        assert(ended =~= seq![lines[0].push(13u8)] + fewer);
        assert(ended + bytes::split(tail, 10u8) =~= seq![lines[0].push(13u8)] + (fewer
            + bytes::split(tail, 10u8)));
    }
}

/// A header block of lines without carriage returns ends where its empty line does.
proof fn lemma_block_end(lines: Seq<Seq<u8>>)
    requires
        lines.len() > 0,
        forall|i: int|
            0 <= i < lines.len() ==> (#[trigger] lines[i]).len() > 0 && !lines[i].contains(13u8),
    ensures
        ({
            let s = lines_text(lines) + seq![13u8, 10];
            &&& s.len() >= 4
            &&& s.subrange(s.len() - 4, s.len() as int) == seq![13u8, 10, 13, 10]
            &&& forall|i: int|
                0 <= i < s.len() - 4 ==> #[trigger] s.subrange(i, i + 4) != seq![13u8, 10, 13, 10]
            &&& s[0] != 13
        }),
    decreases lines.len(),
{
    let s = lines_text(lines) + seq![13u8, 10];
    let first = lines[0];
    let n = first.len() as int;
    let rest = lines.skip(1);
    let tail = lines_text(rest) + seq![13u8, 10];
    assert(s =~= first + seq![13u8, 10] + tail);
    assert(first.contains(first[0]));
    assert(s[0] == first[0]);
    if rest.len() > 0 {
        assert forall|i: int| 0 <= i < rest.len() implies (#[trigger] rest[i]).len() > 0
            && !rest[i].contains(13u8) by {
            assert(rest[i] == lines[i + 1]);
        }
        lemma_block_end(rest);
        assert(s.subrange(s.len() - 4, s.len() as int) =~= tail.subrange(
            tail.len() - 4,
            tail.len() as int,
        ));
    } else {
        assert(lines_text(rest) =~= Seq::<u8>::empty());
        assert(tail =~= seq![13u8, 10]);
        assert(s.subrange(s.len() - 4, s.len() as int) =~= seq![13u8, 10, 13, 10]);
    }
    assert forall|i: int| 0 <= i < s.len() - 4 implies #[trigger] s.subrange(i, i + 4) != seq![
        13u8,
        10,
        13,
        10,
    ] by {
        let four = s.subrange(i, i + 4);
        let end = seq![13u8, 10, 13, 10];
        assert(four[0] == s[i] && four[2] == s[i + 2]);
        assert(end[0] == 13 && end[2] == 13);
        if i < n {
            assert(s[i] == first[i]);
            assert(first.contains(first[i]));
        } else if i == n {
            assert(s[i + 2] == tail[0]);
        } else if i == n + 1 {
            assert(s[i] == 10);
        } else {
            let at = i - n - 2;
            assert(four =~= tail.subrange(at, at + 4));
        }
    }
}

/// The lines of a header block that can be understood.
proof fn lemma_block_lines(
    method: Seq<u8>,
    target: Seq<u8>,
    version: Seq<u8>,
    fields: Seq<Field>,
)
    requires
        line_ok(method, target, version),
        forall|i: int| 0 <= i < fields.len() ==> well_formed(#[trigger] fields[i]),
    ensures
        crate::reader::header_end(
            header_block(request_line(method, target, version), field_texts(fields)),
        ) == Some(
            header_block(request_line(method, target, version), field_texts(fields)).len() as int,
        ),
{
    let line = request_line(method, target, version);
    let texts = field_texts(fields);
    let lines = seq![line] + texts;
    lemma_words();
    lemma_request_line(method, target, version);
    assert forall|i: int| 0 <= i < lines.len() implies (#[trigger] lines[i]).len() > 0
        && !lines[i].contains(13u8) by {
        if i == 0 {
            assert forall|k: int| 0 <= k < line.len() implies line[k] != 13 by {
                assert(!crate::target::control(line[k]));
            }
        } else {
            let field = fields[i - 1];
            assert(well_formed(field));
            lemma_field(field);
            assert(lines[i] == field_text(field));
            assert forall|k: int| 0 <= k < lines[i].len() implies lines[i][k] != 13 by {
                assert(!http::invalid_in_value(field_text(field)[k]));
            }
        }
    }
    lemma_block_end(lines);
    let s = lines_text(lines) + seq![13u8, 10];
    lemma_last_line(lines);
    crate::reader::the_first_blank_line_ends_the_header(s, s.len() - 4);
}

proof fn lemma_last_line(lines: Seq<Seq<u8>>)
    ensures
        lines_text(lines.push(seq![])) == lines_text(lines) + seq![13u8, 10],
    decreases lines.len(),
{
    let more = lines.push(seq![]);
    if lines.len() == 0 {
        assert(more[0] =~= Seq::<u8>::empty());
        assert(lines_text(more.skip(1)) =~= Seq::<u8>::empty());
        assert(lines_text(more) =~= lines_text(lines) + seq![13u8, 10]);
    } else {
        lemma_last_line(lines.skip(1));
        assert(more.skip(1) =~= lines.skip(1).push(seq![]));
        assert(lines_text(more) =~= lines_text(lines) + seq![13u8, 10]);
    }
}

/// A request that comes whole, in however many pieces and with whatever behind it, is read as the
/// header block that it begins with, as long as all of it fits in 16384 bytes.
pub proof fn requests_are_read_however_they_come(
    method: Seq<u8>,
    target: Seq<u8>,
    version: Seq<u8>,
    fields: Seq<Field>,
    more: Seq<u8>,
    chunks: Seq<Seq<u8>>,
)
    requires
        line_ok(method, target, version),
        forall|i: int| 0 <= i < fields.len() ==> well_formed(#[trigger] fields[i]),
        forall|i: int| 0 <= i < chunks.len() ==> (#[trigger] chunks[i]).len() > 0,
        crate::reader::all_bytes(chunks) == header_block(
            request_line(method, target, version),
            field_texts(fields),
        ) + more,
        crate::reader::all_bytes(chunks).len() <= 16_384,
    ensures
        crate::reader::after_chunks(Seq::empty(), chunks) == crate::reader::ReadModel::Done(
            http::parsed_request(
                header_block(request_line(method, target, version), field_texts(fields)),
            ),
        ),
{
    lemma_block_lines(method, target, version, fields);
    crate::reader::whole_headers_are_read(
        header_block(request_line(method, target, version), field_texts(fields)),
        more,
        chunks,
    );
}

/// All offers of several lists, one list behind the other.
pub open spec fn all_offers(lists: Seq<Seq<encoding::Offer>>) -> Seq<encoding::Offer>
    decreases lists.len(),
{
    if lists.len() == 0 {
        seq![]
    } else {
        all_offers(lists.drop_last()) + lists.last()
    }
}

/// The values of several `Accept-Encoding` fields.
pub open spec fn list_texts(lists: Seq<Seq<encoding::Offer>>) -> Seq<Seq<u8>> {
    Seq::new(lists.len(), |i: int| encoding::offers_text(lists[i]))
}

/// Pieces, each with a comma behind it.
spec fn ended(pieces: Seq<Seq<u8>>) -> Seq<u8>
    decreases pieces.len(),
{
    if pieces.len() == 0 {
        seq![]
    } else {
        pieces[0] + seq![44u8] + ended(pieces.skip(1))
    }
}

proof fn lemma_ended(pieces: Seq<Seq<u8>>)
    ensures
        bytes::joined_by(pieces.push(seq![]), 44u8) == ended(pieces),
        pieces.len() > 0 ==> bytes::joined_by(pieces, 44u8) + seq![44u8] == ended(pieces),
    decreases pieces.len(),
{
    let more = pieces.push(seq![]);
    if pieces.len() == 0 {
        assert(bytes::joined_by(more, 44u8) =~= seq![]);
    } else {
        let rest = pieces.skip(1);
        lemma_ended(rest);
        assert(more.skip(1) =~= rest.push(seq![]));
        assert(bytes::joined_by(more, 44u8) =~= ended(pieces));
        if rest.len() == 0 {
            assert(ended(rest) =~= Seq::<u8>::empty());
            assert(bytes::joined_by(pieces, 44u8) + seq![44u8] =~= ended(pieces));
        } else {
            assert(bytes::joined_by(pieces, 44u8) + seq![44u8] =~= pieces[0] + seq![44u8] + (
            bytes::joined_by(rest, 44u8) + seq![44u8]));
        }
    }
}

proof fn lemma_ended_concat(first: Seq<Seq<u8>>, second: Seq<Seq<u8>>)
    ensures
        ended(first + second) == ended(first) + ended(second),
    decreases first.len(),
{
    let whole = first + second;
    if first.len() == 0 {
        assert(whole =~= second);
        assert(ended(first) + ended(second) =~= ended(second));
    } else {
        lemma_ended_concat(first.skip(1), second);
        assert(whole.skip(1) =~= first.skip(1) + second);
        assert(ended(whole) =~= ended(first) + ended(second));
    }
}

proof fn lemma_lists(lists: Seq<Seq<encoding::Offer>>)
    requires
        forall|i: int| 0 <= i < lists.len() ==> (#[trigger] lists[i]).len() > 0,
    ensures
        with_commas(list_texts(lists)) == ended(encoding::offer_texts(all_offers(lists))),
    decreases lists.len(),
{
    if lists.len() == 0 {
        assert(encoding::offer_texts(all_offers(lists)) =~= Seq::<Seq<u8>>::empty());
    } else {
        let before = lists.drop_last();
        let last = lists[lists.len() - 1];
        assert forall|i: int| 0 <= i < before.len() implies (#[trigger] before[i]).len() > 0 by {
            assert(before[i] == lists[i]);
        }
        lemma_lists(before);
        assert(last.len() > 0);
        assert(list_texts(lists).drop_last() =~= list_texts(before));
        lemma_ended(encoding::offer_texts(last));
        lemma_ended_concat(
            encoding::offer_texts(all_offers(before)),
            encoding::offer_texts(last),
        );
        assert(encoding::offer_texts(all_offers(lists)) =~= encoding::offer_texts(
            all_offers(before),
        ) + encoding::offer_texts(last));
        assert(with_commas(list_texts(lists)) =~= with_commas(list_texts(before)) + (
        encoding::offers_text(last) + seq![44u8]));
    }
}

/// Several `Accept-Encoding` fields count like one with all their offers, one list behind the
/// other.
pub proof fn several_lists_count_as_one(lists: Seq<Seq<encoding::Offer>>, name: Seq<char>)
    requires
        lists.len() > 0,
        forall|i: int| 0 <= i < lists.len() ==> (#[trigger] lists[i]).len() > 0,
        encoding::offers_ok(all_offers(lists)),
        encode_utf8(name).len() > 0,
    ensures
        encoding::encoding_quality(with_commas(list_texts(lists)), name)
            == encoding::encoding_quality(encoding::offers_text(all_offers(lists)), name),
{
    let all = all_offers(lists);
    let none = Seq::<u8>::empty();
    let nothing = encoding::Offer {
        left: none,
        coding: none,
        right: none,
        params: Seq::<Seq<u8>>::empty(),
    };
    lemma_lists(lists);
    lemma_ended(encoding::offer_texts(all));
    let fields = encoding::offer_fields(nothing);
    assert(fields.len() == 1);
    assert(fields[0] =~= none);
    assert(encoding::offer_text(nothing) =~= none);
    assert(encoding::offer_texts(all.push(nothing)) =~= encoding::offer_texts(all).push(none));
    assert(all.insert(all.len() as int, nothing) =~= all.push(nothing));
    assert(lists[lists.len() - 1].len() > 0);
    reveal_strlit("*");
    assert(is_ascii_chars("*"@));
    is_ascii_chars_encode_utf8("*"@);
    encoding::other_codings_do_not_matter(all, all.len() as int, nothing, name);
}

/// The date in an `If-Modified-Since` is read where it is one, and the date that a moment of the
/// years 1970 to 9999 is written as is read as that moment.
pub proof fn dates_in_fields_are_read(value: Seq<u8>, unix_seconds: int)
    requires
        0 <= unix_seconds <= 253_402_300_799,
    ensures
        valid_utf8(value) ==> http::value_seconds(Some(value)) == crate::date::http_date_seconds(
            value,
        ),
        !valid_utf8(value) ==> http::value_seconds(Some(value)) is None,
        http::value_seconds(None) is None,
        http::value_seconds(
            Some(encode_utf8(crate::date::http_date_text(unix_seconds))),
        ) == Some(unix_seconds),
{
    crate::date::http_dates_round_trip(unix_seconds);
}

} // verus!
