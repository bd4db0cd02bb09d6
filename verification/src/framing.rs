//! Where the head of a response ends for the client: nowhere but at its end.

use vstd::prelude::*;
use vstd::utf8::*;

use crate::bytes::{CR, LF};
use crate::cache;
use crate::cache::FileMeta;
use crate::config;
use crate::date;
use crate::exchange;
use crate::exchange::{Clock, RepresentationEncoding};
use crate::http;
use crate::http::Method;
use crate::mime;
use crate::reader;
use crate::response;
use crate::response::Status;
use crate::text;

verus! {

/// Whether a text holds no line break.
pub open spec fn one_line(text: Seq<char>) -> bool {
    forall|i: int| 0 <= i < text.len() ==> #[trigger] text[i] != '\r' && text[i] != '\n'
}

/// Whether bytes hold no line break.
spec fn one_line_bytes(s: Seq<u8>) -> bool {
    forall|i: int| 0 <= i < s.len() ==> #[trigger] s[i] != CR && s[i] != LF
}

/// Whether no name and no value of header fields holds a line break.
pub open spec fn one_line_fields(fields: Seq<(Seq<char>, Seq<char>)>) -> bool {
    forall|i: int|
        0 <= i < fields.len() ==> one_line((#[trigger] fields[i]).0) && one_line(fields[i].1)
}

proof fn lemma_one_line_concat(first: Seq<char>, second: Seq<char>)
    requires
        one_line(first),
        one_line(second),
    ensures
        one_line(first + second),
{
    let whole = first + second;
    assert forall|i: int| 0 <= i < whole.len() implies #[trigger] whole[i] != '\r' && whole[i]
        != '\n' by {
        if i < first.len() {
            assert(whole[i] == first[i]);
        } else {
            assert(whole[i] == second[i - first.len()]);
        }
    }
}

/// The bytes of a text put together are those of its parts put together.
proof fn lemma_encode_concat(first: Seq<char>, second: Seq<char>)
    ensures
        encode_utf8(first + second) == encode_utf8(first) + encode_utf8(second),
    decreases first.len(),
{
    if first.len() == 0 {
        assert(first + second =~= second);
        assert(encode_utf8(first) + encode_utf8(second) =~= encode_utf8(second));
    } else {
        let whole = first + second;
        lemma_encode_concat(first.drop_first(), second);
        assert(whole.drop_first() =~= first.drop_first() + second);
        assert(whole[0] == first[0]);
        assert(encode_utf8(whole) =~= encode_utf8(first) + encode_utf8(second));
    }
}

/// The bytes of one character are no line break unless the character is.
proof fn lemma_scalar_bytes(c: u32)
    requires
        c != 13,
        c != 10,
    ensures
        one_line_bytes(encode_scalar(c)),
        encode_scalar(c).len() > 0,
{
    assert(c <= 0x7f ==> (c & 0x7f) as u8 as u32 == c) by (bit_vector);
    assert(0xC0u8 | ((c >> 6) & 0x1F) as u8 >= 128) by (bit_vector);
    assert(0xE0u8 | ((c >> 12) & 0x0F) as u8 >= 128) by (bit_vector);
    assert(0xF0u8 | ((c >> 18) & 0x7) as u8 >= 128) by (bit_vector);
    assert(0x80u8 | (c & 0x3F) as u8 >= 128) by (bit_vector);
    assert(0x80u8 | ((c >> 6) & 0x3F) as u8 >= 128) by (bit_vector);
    assert(0x80u8 | ((c >> 12) & 0x3F) as u8 >= 128) by (bit_vector);
}

/// The bytes of a text without a line break hold none.
proof fn lemma_one_line_bytes(line: Seq<char>)
    requires
        one_line(line),
    ensures
        one_line_bytes(encode_utf8(line)),
        line.len() > 0 ==> encode_utf8(line).len() > 0,
    decreases line.len(),
{
    if line.len() > 0 {
        let rest = line.drop_first();
        assert forall|i: int| 0 <= i < rest.len() implies #[trigger] rest[i] != '\r' && rest[i]
            != '\n' by {
            assert(rest[i] == line[i + 1]);
        }
        lemma_one_line_bytes(rest);
        assert(line[0] != '\r' && line[0] != '\n');
        char_u32_cast(line[0], line[0] as u32);
        assert(13u32 as char == '\r' && 10u32 as char == '\n');
        lemma_scalar_bytes(line[0] as u32);
        let (head, tail) = (encode_scalar(line[0] as u32), encode_utf8(rest));
        let whole = encode_utf8(line);
        assert(whole == head + tail);
        assert forall|i: int| 0 <= i < whole.len() implies #[trigger] whole[i] != CR && whole[i]
            != LF by {
            if i < head.len() {
                assert(whole[i] == head[i]);
            } else {
                assert(whole[i] == tail[i - head.len()]);
            }
        }
    }
}

/// Whether bytes are whole lines with no blank line among them.
spec fn lines_without_blank(s: Seq<u8>) -> bool {
    &&& s.len() > 2
    &&& s[s.len() - 2] == CR
    &&& s[s.len() - 1] == LF
    &&& forall|i: int| !#[trigger] reader::blank_line_at(s, i)
}

proof fn lemma_line_end()
    ensures
        encode_utf8("\r\n"@) =~= seq![CR, LF],
{
    reveal_strlit("\r\n");
    assert(is_ascii_chars("\r\n"@));
    is_ascii_chars_encode_utf8("\r\n"@);
    let s = encode_utf8("\r\n"@);
    assert(s[0] == '\r' as u8 && s[1] == '\n' as u8);
}

/// One line that is not blank.
proof fn lemma_first_line(line: Seq<char>)
    requires
        one_line(line),
        line.len() > 0,
    ensures
        lines_without_blank(encode_utf8(line + "\r\n"@)),
        encode_utf8(line + "\r\n"@)[0] != CR,
{
    lemma_encode_concat(line, "\r\n"@);
    lemma_line_end();
    lemma_one_line_bytes(line);
    let bare = encode_utf8(line);
    let s = encode_utf8(line + "\r\n"@);
    assert(s =~= bare + seq![CR, LF]);
    assert forall|i: int| !#[trigger] reader::blank_line_at(s, i) by {
        if reader::blank_line_at(s, i) {
            assert(s[i] == bare[i]);
        }
    }
    assert(s[0] == bare[0]);
}

/// Lines that are not blank, and one more that is not.
proof fn lemma_next_line(before: Seq<u8>, line: Seq<u8>)
    requires
        lines_without_blank(before),
        lines_without_blank(line),
        line[0] != CR,
    ensures
        lines_without_blank(before + line),
{
    let whole = before + line;
    let n = before.len() as int;
    assert(whole[whole.len() - 2] == line[line.len() - 2]);
    assert(whole[whole.len() - 1] == line[line.len() - 1]);
    assert(whole[n] == line[0] && whole[n - 1] == before[n - 1] && whole[n - 2] == before[n - 2]);
    assert forall|i: int| !#[trigger] reader::blank_line_at(whole, i) by {
        if reader::blank_line_at(whole, i) {
            if i + 4 <= n {
                assert(reader::blank_line_at(before, i));
            } else if i >= n {
                assert(line[i - n] == whole[i] && line[i - n + 1] == whole[i + 1]);
                assert(line[i - n + 2] == whole[i + 2] && line[i - n + 3] == whole[i + 3]);
                assert(reader::blank_line_at(line, i - n));
            }
        }
    }
}

/// The blank line behind lines that are not blank is the first one.
proof fn lemma_blank_line_ends(lines: Seq<u8>)
    requires
        lines_without_blank(lines),
    ensures
        reader::header_end(lines + seq![CR, LF]) == Some(lines.len() as int + 2),
{
    let whole = lines + seq![CR, LF];
    let n = lines.len() as int;
    assert(whole[n] == CR && whole[n + 1] == LF && whole[n - 2] == CR && whole[n - 1] == LF);
    assert(reader::blank_line_at(whole, n - 2));
    assert forall|i: int| 0 <= i < n - 2 implies !#[trigger] reader::blank_line_at(whole, i) by {
        if reader::blank_line_at(whole, i) {
            if i + 4 <= n {
                assert(reader::blank_line_at(lines, i));
            }
        }
    }
    assert(reader::is_header_end(whole, n + 2));
    reader::lemma_header_end_is(whole, n + 2);
}

proof fn lemma_field_line(field: (Seq<char>, Seq<char>))
    requires
        one_line(field.0),
        one_line(field.1),
    ensures
        lines_without_blank(encode_utf8(response::field_line(field))),
        encode_utf8(response::field_line(field))[0] != CR,
{
    assert(one_line(": "@) && ": "@.len() == 2) by {
        reveal_strlit(": ");
    }
    lemma_one_line_concat(field.0, ": "@);
    lemma_one_line_concat(field.0 + ": "@, field.1);
    lemma_first_line(field.0 + ": "@ + field.1);
}

proof fn lemma_field_lines(before: Seq<u8>, fields: Seq<(Seq<char>, Seq<char>)>)
    requires
        lines_without_blank(before),
        one_line_fields(fields),
    ensures
        lines_without_blank(before + encode_utf8(response::field_lines(fields))),
    decreases fields.len(),
{
    if fields.len() == 0 {
        assert(before + encode_utf8(response::field_lines(fields)) =~= before);
    } else {
        let rest = fields.drop_last();
        assert forall|i: int| 0 <= i < rest.len() implies one_line((#[trigger] rest[i]).0)
            && one_line(rest[i].1) by {
            assert(rest[i] == fields[i]);
        }
        lemma_field_lines(before, rest);
        let line = response::field_line(fields.last());
        assert(one_line(fields[fields.len() - 1].0));
        lemma_field_line(fields.last());
        lemma_encode_concat(response::field_lines(rest), line);
        lemma_next_line(before + encode_utf8(response::field_lines(rest)), encode_utf8(line));
        assert(before + encode_utf8(response::field_lines(fields)) =~= before + encode_utf8(
            response::field_lines(rest),
        ) + encode_utf8(line));
    }
}

proof fn lemma_number(n: nat, width: nat)
    ensures
        one_line(text::padded(n, width)),
    decreases n, width,
{
    if n != 0 || width != 0 {
        let rest = text::padded(n / 10, (if width == 0 { 0 } else { width - 1 }) as nat);
        lemma_number(n / 10, (if width == 0 { 0 } else { width - 1 }) as nat);
        let d = (n % 10) as int;
        assert((48 + d) as char as int == 48 + d);
        lemma_one_line_concat(rest, seq![text::digit(d)]);
        assert(text::padded(n, width) =~= rest + seq![text::digit(d)]);
    }
}

proof fn lemma_hex_number(n: nat, width: nat)
    ensures
        one_line(text::padded_hex(n, width)),
    decreases n, width,
{
    if n != 0 || width != 0 {
        let rest = text::padded_hex(n / 16, (if width == 0 { 0 } else { width - 1 }) as nat);
        lemma_hex_number(n / 16, (if width == 0 { 0 } else { width - 1 }) as nat);
        let d = (n % 16) as int;
        assert(d < 10 ==> (48 + d) as char as int == 48 + d);
        assert(d >= 10 ==> (87 + d) as char as int == 87 + d);
        lemma_one_line_concat(rest, seq![text::digit(d)]);
        assert(text::padded_hex(n, width) =~= rest + seq![text::digit(d)]);
    }
}

proof fn lemma_weekday(weekday: int)
    ensures
        one_line(date::weekday_name(weekday)),
{
    assert(one_line("Sun"@)) by {
        reveal_strlit("Sun");
    }
    assert(one_line("Mon"@)) by {
        reveal_strlit("Mon");
    }
    assert(one_line("Tue"@)) by {
        reveal_strlit("Tue");
    }
    assert(one_line("Wed"@)) by {
        reveal_strlit("Wed");
    }
    assert(one_line("Thu"@)) by {
        reveal_strlit("Thu");
    }
    assert(one_line("Fri"@)) by {
        reveal_strlit("Fri");
    }
    assert(one_line("Sat"@)) by {
        reveal_strlit("Sat");
    }
}

proof fn lemma_month(month: int)
    ensures
        one_line(date::month_name(month)),
{
    assert(one_line("Jan"@)) by {
        reveal_strlit("Jan");
    }
    assert(one_line("Feb"@)) by {
        reveal_strlit("Feb");
    }
    assert(one_line("Mar"@)) by {
        reveal_strlit("Mar");
    }
    assert(one_line("Apr"@)) by {
        reveal_strlit("Apr");
    }
    assert(one_line("May"@)) by {
        reveal_strlit("May");
    }
    assert(one_line("Jun"@)) by {
        reveal_strlit("Jun");
    }
    assert(one_line("Jul"@)) by {
        reveal_strlit("Jul");
    }
    assert(one_line("Aug"@)) by {
        reveal_strlit("Aug");
    }
    assert(one_line("Sep"@)) by {
        reveal_strlit("Sep");
    }
    assert(one_line("Oct"@)) by {
        reveal_strlit("Oct");
    }
    assert(one_line("Nov"@)) by {
        reveal_strlit("Nov");
    }
    assert(one_line("Dec"@)) by {
        reveal_strlit("Dec");
    }
}

proof fn lemma_year(year: i32)
    ensures
        one_line(date::year_text(year)),
{
    lemma_number(year as nat, 4);
    lemma_number((-year) as nat, 3);
    assert(one_line("-"@)) by {
        reveal_strlit("-");
    }
    lemma_one_line_concat("-"@, text::padded((-year) as nat, 3));
}

proof fn lemma_date_parts(weekday: int, date: (int, int, int), hour: int, minute: int, second: int)
    ensures
        one_line(date::date_text(weekday, date, hour, minute, second)),
{
    reveal(date::date_text);
    lemma_weekday(weekday);
    lemma_month(date.1);
    lemma_year(date.0 as i32);
    lemma_number(date.2 as nat, 2);
    lemma_number(hour as nat, 2);
    lemma_number(minute as nat, 2);
    lemma_number(second as nat, 2);
    assert(one_line(", "@)) by {
        reveal_strlit(", ");
    }
    assert(one_line(" "@)) by {
        reveal_strlit(" ");
    }
    assert(one_line(":"@)) by {
        reveal_strlit(":");
    }
    assert(one_line(" GMT"@)) by {
        reveal_strlit(" GMT");
    }
    let day = date::weekday_name(weekday) + ", "@ + text::padded(date.2 as nat, 2);
    lemma_one_line_concat(date::weekday_name(weekday), ", "@);
    lemma_one_line_concat(
        date::weekday_name(weekday) + ", "@,
        text::padded(date.2 as nat, 2),
    );
    let month = day + " "@ + date::month_name(date.1);
    lemma_one_line_concat(day, " "@);
    lemma_one_line_concat(day + " "@, date::month_name(date.1));
    let year = month + " "@ + date::year_text(date.0 as i32);
    lemma_one_line_concat(month, " "@);
    lemma_one_line_concat(month + " "@, date::year_text(date.0 as i32));
    let hours = year + " "@ + text::padded(hour as nat, 2);
    lemma_one_line_concat(year, " "@);
    lemma_one_line_concat(year + " "@, text::padded(hour as nat, 2));
    let minutes = hours + ":"@ + text::padded(minute as nat, 2);
    lemma_one_line_concat(hours, ":"@);
    lemma_one_line_concat(hours + ":"@, text::padded(minute as nat, 2));
    let seconds = minutes + ":"@ + text::padded(second as nat, 2);
    lemma_one_line_concat(minutes, ":"@);
    lemma_one_line_concat(minutes + ":"@, text::padded(second as nat, 2));
    lemma_one_line_concat(seconds, " GMT"@);
}

proof fn lemma_date(unix_seconds: int)
    ensures
        one_line(date::http_date_text(unix_seconds)),
{
    let seconds = if unix_seconds < 0 {
        0
    } else {
        unix_seconds
    };
    let of_day = seconds % 86_400;
    lemma_date_parts(
        (seconds / 86_400 + 4) % 7,
        crate::calendar::civil_date(seconds / 86_400),
        of_day / 3600,
        of_day % 3600 / 60,
        of_day % 60,
    );
}

proof fn lemma_reason(status: Status)
    ensures
        one_line(response::status_reason(status)),
{
    assert(one_line("OK"@)) by {
        reveal_strlit("OK");
    }
    assert(one_line("Not Modified"@)) by {
        reveal_strlit("Not Modified");
    }
    assert(one_line("Bad Request"@)) by {
        reveal_strlit("Bad Request");
    }
    assert(one_line("Not Found"@)) by {
        reveal_strlit("Not Found");
    }
    assert(one_line("Method Not Allowed"@)) by {
        reveal_strlit("Method Not Allowed");
    }
    assert(one_line("Request Timeout"@)) by {
        reveal_strlit("Request Timeout");
    }
    assert(one_line("Request Header Fields Too Large"@)) by {
        reveal_strlit("Request Header Fields Too Large");
    }
    assert(one_line("Internal Server Error"@)) by {
        reveal_strlit("Internal Server Error");
    }
}

proof fn lemma_status_line(status: Status)
    ensures
        lines_without_blank(encode_utf8(response::status_line(status))),
{
    let code = text::decimal(response::status_code(status) as nat);
    assert(one_line("HTTP/1.1 "@) && "HTTP/1.1 "@.len() == 9) by {
        reveal_strlit("HTTP/1.1 ");
    }
    assert(one_line(" "@)) by {
        reveal_strlit(" ");
    }
    lemma_number(response::status_code(status) as nat, 1);
    lemma_reason(status);
    lemma_one_line_concat("HTTP/1.1 "@, code);
    lemma_one_line_concat("HTTP/1.1 "@ + code, " "@);
    lemma_one_line_concat("HTTP/1.1 "@ + code + " "@, response::status_reason(status));
    lemma_first_line("HTTP/1.1 "@ + code + " "@ + response::status_reason(status));
}

proof fn lemma_common_fields(content_length: u64, unix_seconds: i64)
    ensures
        one_line_fields(response::common_fields(content_length, unix_seconds)),
        one_line("Content-Type"@),
{
    assert(one_line("Server"@)) by {
        reveal_strlit("Server");
    }
    assert(one_line("statika"@)) by {
        reveal_strlit("statika");
    }
    assert(one_line("Connection"@)) by {
        reveal_strlit("Connection");
    }
    assert(one_line("close"@)) by {
        reveal_strlit("close");
    }
    assert(one_line("X-Content-Type-Options"@)) by {
        reveal_strlit("X-Content-Type-Options");
    }
    assert(one_line("nosniff"@)) by {
        reveal_strlit("nosniff");
    }
    assert(one_line("Date"@)) by {
        reveal_strlit("Date");
    }
    assert(one_line("Content-Length"@)) by {
        reveal_strlit("Content-Length");
    }
    assert(one_line("Content-Type"@)) by {
        reveal_strlit("Content-Type");
    }
    lemma_number(content_length as nat, 1);
    lemma_date(unix_seconds as int);
}

/// The head of a response ends for the client where it ends, whatever its status, length and type:
/// no header field can end it earlier, as long as none of the fields holds a line break.
pub proof fn heads_end_at_the_first_blank_line(
    status: Status,
    content_length: u64,
    content_type: Option<Seq<char>>,
    headers: Seq<(Seq<char>, Seq<char>)>,
    unix_seconds: i64,
)
    requires
        content_type matches Some(kind) ==> one_line(kind),
        one_line_fields(headers),
    ensures
        ({
            let head = response::head_bytes(
                status,
                content_length,
                content_type,
                headers,
                unix_seconds,
            );
            reader::header_end(head) == Some(head.len() as int)
        }),
{
    let fields = response::head_fields(content_length, content_type, headers, unix_seconds);
    let common = response::common_fields(content_length, unix_seconds);
    lemma_common_fields(content_length, unix_seconds);
    let typed = common.len() + if content_type is Some {
        1int
    } else {
        0
    };
    assert forall|i: int| 0 <= i < fields.len() implies one_line((#[trigger] fields[i]).0)
        && one_line(fields[i].1) by {
        if i < common.len() {
            assert(fields[i] == common[i]);
        } else if i >= typed {
            assert(fields[i] == headers[i - typed]);
        }
    }
    let first = response::status_line(status);
    let lines = first + response::field_lines(fields);
    lemma_status_line(status);
    lemma_encode_concat(first, response::field_lines(fields));
    lemma_field_lines(encode_utf8(first), fields);
    lemma_encode_concat(lines, "\r\n"@);
    lemma_line_end();
    lemma_blank_line_ends(encode_utf8(lines));
}

proof fn lemma_text_of_one_line_bytes(line: Seq<char>)
    requires
        one_line_bytes(encode_utf8(line)),
    ensures
        one_line(line),
    decreases line.len(),
{
    if line.len() > 0 {
        let rest = line.drop_first();
        let (head, tail) = (encode_scalar(line[0] as u32), encode_utf8(rest));
        let whole = encode_utf8(line);
        assert(whole == head + tail);
        assert forall|i: int| 0 <= i < tail.len() implies #[trigger] tail[i] != CR && tail[i]
            != LF by {
            assert(tail[i] == whole[i + head.len()]);
        }
        lemma_text_of_one_line_bytes(rest);
        assert((13u32 & 0x7f) as u8 == 13 && (10u32 & 0x7f) as u8 == 10) by (bit_vector);
        if line[0] == '\r' || line[0] == '\n' {
            assert(whole[0] == head[0]);
        }
        assert forall|i: int| 0 <= i < line.len() implies #[trigger] line[i] != '\r' && line[i]
            != '\n' by {
            if i > 0 {
                assert(line[i] == rest[i - 1]);
            }
        }
    }
}

/// A configured header holds no line break.
proof fn lemma_allowed_header(header: (Seq<char>, Seq<char>))
    requires
        config::allowed_header(header),
    ensures
        one_line(header.0),
        one_line(header.1),
{
    let (name, value) = (encode_utf8(header.0), encode_utf8(header.1));
    assert forall|i: int| 0 <= i < name.len() implies #[trigger] name[i] != CR && name[i] != LF by {
        assert(http::name_byte(name[i]));
    }
    assert forall|i: int| 0 <= i < value.len() implies #[trigger] value[i] != CR && value[i]
        != LF by {
        assert(!http::invalid_in_value(value[i]));
    }
    lemma_text_of_one_line_bytes(header.0);
    lemma_text_of_one_line_bytes(header.1);
}

proof fn lemma_with_configured(
    own: Seq<(Seq<char>, Seq<char>)>,
    settings: config::ConfigModel,
)
    requires
        one_line_fields(own),
        settings.valid(),
    ensures
        one_line_fields(own + settings.extra_headers),
{
    let whole = own + settings.extra_headers;
    assert forall|i: int| 0 <= i < whole.len() implies one_line((#[trigger] whole[i]).0)
        && one_line(whole[i].1) by {
        if i < own.len() {
            assert(whole[i] == own[i]);
        } else {
            let header = settings.extra_headers[i - own.len()];
            assert(config::allowed_header(header));
            lemma_allowed_header(header);
        }
    }
}

/// The names and values that the server itself puts into its header fields hold no line break.
proof fn lemma_own_texts()
    ensures
        one_line("Cache-Control"@) && one_line("no-store"@) && one_line("Allow"@),
        one_line("GET, HEAD"@) && one_line("ETag"@) && one_line("Last-Modified"@),
        one_line("Vary"@) && one_line("Accept-Encoding"@) && one_line("Content-Encoding"@),
        one_line("br"@) && one_line("gzip"@) && one_line("no-cache"@),
        one_line("public, max-age=31536000, immutable"@) && one_line("public, max-age=3600"@),
        one_line("text/plain; charset=utf-8"@),
{
    assert(one_line("Cache-Control"@)) by {
        reveal_strlit("Cache-Control");
    }
    assert(one_line("no-store"@)) by {
        reveal_strlit("no-store");
    }
    assert(one_line("Allow"@)) by {
        reveal_strlit("Allow");
    }
    assert(one_line("GET, HEAD"@)) by {
        reveal_strlit("GET, HEAD");
    }
    assert(one_line("ETag"@)) by {
        reveal_strlit("ETag");
    }
    assert(one_line("Last-Modified"@)) by {
        reveal_strlit("Last-Modified");
    }
    assert(one_line("Vary"@)) by {
        reveal_strlit("Vary");
    }
    assert(one_line("Accept-Encoding"@)) by {
        reveal_strlit("Accept-Encoding");
    }
    assert(one_line("Content-Encoding"@)) by {
        reveal_strlit("Content-Encoding");
    }
    assert(one_line("br"@)) by {
        reveal_strlit("br");
    }
    assert(one_line("gzip"@)) by {
        reveal_strlit("gzip");
    }
    assert(one_line("no-cache"@)) by {
        reveal_strlit("no-cache");
    }
    assert(one_line("public, max-age=31536000, immutable"@)) by {
        reveal_strlit("public, max-age=31536000, immutable");
    }
    assert(one_line("public, max-age=3600"@)) by {
        reveal_strlit("public, max-age=3600");
    }
    assert(one_line("text/plain; charset=utf-8"@)) by {
        reveal_strlit("text/plain; charset=utf-8");
    }
}

proof fn lemma_media_type(found: Seq<u8>)
    ensures
        one_line(mime::media_type(found)),
{
    assert(one_line("text/html; charset=utf-8"@)) by {
        reveal_strlit("text/html; charset=utf-8");
    }
    assert(one_line("text/css; charset=utf-8"@)) by {
        reveal_strlit("text/css; charset=utf-8");
    }
    assert(one_line("text/javascript; charset=utf-8"@)) by {
        reveal_strlit("text/javascript; charset=utf-8");
    }
    assert(one_line("application/json; charset=utf-8"@)) by {
        reveal_strlit("application/json; charset=utf-8");
    }
    assert(one_line("application/manifest+json; charset=utf-8"@)) by {
        reveal_strlit("application/manifest+json; charset=utf-8");
    }
    assert(one_line("image/svg+xml"@)) by {
        reveal_strlit("image/svg+xml");
    }
    assert(one_line("image/png"@)) by {
        reveal_strlit("image/png");
    }
    assert(one_line("image/jpeg"@)) by {
        reveal_strlit("image/jpeg");
    }
    assert(one_line("image/gif"@)) by {
        reveal_strlit("image/gif");
    }
    assert(one_line("image/webp"@)) by {
        reveal_strlit("image/webp");
    }
    assert(one_line("image/avif"@)) by {
        reveal_strlit("image/avif");
    }
    assert(one_line("image/x-icon"@)) by {
        reveal_strlit("image/x-icon");
    }
    assert(one_line("font/woff"@)) by {
        reveal_strlit("font/woff");
    }
    assert(one_line("font/woff2"@)) by {
        reveal_strlit("font/woff2");
    }
    assert(one_line("text/plain; charset=utf-8"@)) by {
        reveal_strlit("text/plain; charset=utf-8");
    }
    assert(one_line("text/csv; charset=utf-8"@)) by {
        reveal_strlit("text/csv; charset=utf-8");
    }
    assert(one_line("application/xml; charset=utf-8"@)) by {
        reveal_strlit("application/xml; charset=utf-8");
    }
    assert(one_line("application/wasm"@)) by {
        reveal_strlit("application/wasm");
    }
    assert(one_line("application/pdf"@)) by {
        reveal_strlit("application/pdf");
    }
    assert(one_line("video/mp4"@)) by {
        reveal_strlit("video/mp4");
    }
    assert(one_line("application/octet-stream"@)) by {
        reveal_strlit("application/octet-stream");
    }
}

proof fn lemma_etag(meta: FileMeta)
    ensures
        one_line(cache::etag_text(meta)),
{
    let (ino, len) = (cache::hex_text(meta.ino as int), cache::hex_text(meta.len as int));
    let (mtime, nsec) = (cache::hex_text(meta.mtime as int), cache::hex_text(meta.mtime_nsec as int));
    lemma_hex_text(meta.ino as int);
    lemma_hex_text(meta.len as int);
    lemma_hex_text(meta.mtime as int);
    lemma_hex_text(meta.mtime_nsec as int);
    let (quote, dash) = (seq!['"'], seq!['-']);
    lemma_one_line_concat(quote, ino);
    lemma_one_line_concat(quote + ino, dash);
    lemma_one_line_concat(quote + ino + dash, len);
    lemma_one_line_concat(quote + ino + dash + len, dash);
    lemma_one_line_concat(quote + ino + dash + len + dash, mtime);
    lemma_one_line_concat(quote + ino + dash + len + dash + mtime, dash);
    lemma_one_line_concat(quote + ino + dash + len + dash + mtime + dash, nsec);
    lemma_one_line_concat(quote + ino + dash + len + dash + mtime + dash + nsec, quote);
}

proof fn lemma_hex_text(n: int)
    ensures
        one_line(cache::hex_text(n)),
{
    lemma_hex_number((if n < 0 { n + 0x1_0000_0000_0000_0000 } else { n }) as nat, 1);
}

/// Whether the head of a response ends for the client where it ends.
pub open spec fn framed(reply: exchange::ReplyModel) -> bool {
    reader::header_end(reply.head) == Some(reply.head.len() as int)
}

/// The head of every error response ends for the client where it ends.
pub proof fn error_replies_are_framed(
    settings: config::ConfigModel,
    deadline: u64,
    method: Seq<char>,
    path: Seq<char>,
    status: Status,
    error: Seq<char>,
    clock: Clock,
)
    requires
        settings.valid(),
    ensures
        framed(
            exchange::error_reply(
                deadline,
                method,
                path,
                status,
                error,
                settings.extra_headers,
                clock,
            ),
        ),
{
    reveal(exchange::error_reply);
    lemma_own_texts();
    let own = exchange::error_headers(status, seq![]);
    lemma_with_configured(own, settings);
    assert(own + settings.extra_headers =~= exchange::error_headers(
        status,
        settings.extra_headers,
    ));
    heads_end_at_the_first_blank_line(
        status,
        encode_utf8(exchange::error_text(status)).len() as u64,
        Some("text/plain; charset=utf-8"@),
        exchange::error_headers(status, settings.extra_headers),
        clock.unix_seconds,
    );
}

/// The head of every response to a health check ends for the client where it ends.
pub proof fn health_replies_are_framed(
    settings: config::ConfigModel,
    deadline: u64,
    method: Method,
    path: Seq<char>,
    clock: Clock,
)
    requires
        settings.valid(),
    ensures
        framed(exchange::health_reply(deadline, method, path, settings.extra_headers, clock)),
{
    reveal(exchange::text_reply);
    lemma_own_texts();
    let own = seq![("Cache-Control"@, "no-store"@)];
    lemma_with_configured(own, settings);
    heads_end_at_the_first_blank_line(
        Status::Okay,
        encode_utf8("ok\n"@).len() as u64,
        Some("text/plain; charset=utf-8"@),
        own + settings.extra_headers,
        clock.unix_seconds,
    );
}

proof fn lemma_file_headers(
    settings: config::ConfigModel,
    path: Seq<Seq<u8>>,
    form: RepresentationEncoding,
    fallback: bool,
    meta: FileMeta,
)
    requires
        settings.valid(),
    ensures
        one_line_fields(exchange::file_headers(settings, path, form, fallback, meta)),
{
    lemma_own_texts();
    lemma_etag(meta);
    lemma_date(meta.mtime as int);
    let bare = config::ConfigModel { extra_headers: seq![], ..settings };
    let own = exchange::file_headers(bare, path, form, fallback, meta);
    assert(cache::cache_policy(path, fallback, bare) == cache::cache_policy(
        path,
        fallback,
        settings,
    ));
    assert(one_line(cache::cache_policy(path, fallback, settings)));
    lemma_with_configured(own, settings);
    assert(own + settings.extra_headers =~= exchange::file_headers(
        settings,
        path,
        form,
        fallback,
        meta,
    ));
}

/// The head of every response with a file ends for the client where it ends.
pub proof fn file_replies_are_framed(
    settings: config::ConfigModel,
    file: exchange::FileModel,
    meta: FileMeta,
    clock: Clock,
)
    requires
        settings.valid(),
    ensures
        framed(exchange::file_reply(settings, file, meta, clock)),
{
    reveal(exchange::file_reply);
    let headers = exchange::file_headers(settings, file.path, file.form, file.fallback, meta);
    let kind = mime::media_type(mime::extension(file.path));
    lemma_file_headers(settings, file.path, file.form, file.fallback, meta);
    lemma_media_type(mime::extension(file.path));
    heads_end_at_the_first_blank_line(
        Status::NotModified,
        meta.len,
        None,
        headers,
        clock.unix_seconds,
    );
    heads_end_at_the_first_blank_line(
        Status::Okay,
        meta.len,
        Some(kind),
        headers,
        clock.unix_seconds,
    );
}

} // verus!
