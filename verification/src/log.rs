//! The lines of the log: one JSON object each.

use vstd::prelude::*;

use crate::config;
use crate::config::Config;
use crate::exchange;
use crate::exchange::RequestOutcome;
use crate::response;
use crate::text;
use crate::text::{from_utf8_lossy, push_decimal, push_padded_hex};

verus! {

/// Whether the character is a control character of Unicode.
pub open spec fn control_char(c: char) -> bool {
    c <= '\u{1f}' || '\u{7f}' <= c <= '\u{9f}'
}

/// A character as it stands in a JSON string.
pub open spec fn escaped_char(c: char) -> Seq<char> {
    if c == '"' {
        seq!['\\', '"']
    } else if c == '\\' {
        seq!['\\', '\\']
    } else if c == '\n' {
        seq!['\\', 'n']
    } else if c == '\r' {
        seq!['\\', 'r']
    } else if c == '\t' {
        seq!['\\', 't']
    } else if control_char(c) {
        seq!['\\', 'u'] + text::padded_hex(c as nat, 4)
    } else {
        seq![c]
    }
}

/// A text as it stands in a JSON string.
pub open spec fn escaped(value: Seq<char>) -> Seq<char>
    decreases value.len(),
{
    if value.len() == 0 {
        seq![]
    } else {
        escaped_char(value[0]) + escaped(value.skip(1))
    }
}

fn push_escaped(out: &mut String, c: char)
    ensures
        final(out)@ == old(out)@ + escaped_char(c),
{
    if c == '"' || c == '\\' || c == '\n' || c == '\r' || c == '\t' {
        out.push('\\');
        out.push(
            if c == '\n' {
                'n'
            } else if c == '\r' {
                'r'
            } else if c == '\t' {
                't'
            } else {
                c
            },
        );
    } else if c <= '\u{1f}' || ('\u{7f}' <= c && c <= '\u{9f}') {
        out.push('\\');
        out.push('u');
        push_padded_hex(out, c as u64, 4);
    } else {
        out.push(c);
    }
    assert(out@ =~= old(out)@ + escaped_char(c));
}

proof fn lemma_escaped_push(value: Seq<char>, c: char)
    ensures
        escaped(value.push(c)) == escaped(value) + escaped_char(c),
    decreases value.len(),
{
    let whole = value.push(c);
    if value.len() == 0 {
        assert(escaped(whole.skip(1)) =~= Seq::<char>::empty());
        assert(escaped(whole) =~= escaped_char(c));
        assert(escaped(value) + escaped_char(c) =~= escaped_char(c));
    } else {
        assert(whole.skip(1) =~= value.skip(1).push(c));
        lemma_escaped_push(value.skip(1), c);
        assert(escaped(whole) =~= escaped(value) + escaped_char(c));
    }
}

/// A text as it stands in a JSON string.
pub fn escape_json(value: &str) -> (out: String)
    ensures
        out@ == escaped(value@),
{
    let mut out = String::new();
    assert(out@ =~= escaped(value@.take(0)));
    for c in it: value.chars()
        invariant
            out@ == escaped(value@.take(it.index() as int)),
            it.seq() == value@,
    {
        push_escaped(&mut out, c);
        proof {
            let i = it.index() as int;
            lemma_escaped_push(value@.take(i), c);
            assert(value@.take(i + 1) =~= value@.take(i).push(c));
        }
    }
    assert(value@.take(value@.len() as int) =~= value@);
    out
}

/// `true` or `false`.
pub open spec fn truth_text(value: bool) -> Seq<char> {
    if value {
        "true"@
    } else {
        "false"@
    }
}

fn truth(value: bool) -> (text: &'static str)
    ensures
        text@ == truth_text(value),
{
    if value {
        "true"
    } else {
        "false"
    }
}

/// The line for the start of the server, which listens on `listen`.
pub open spec fn started_text(settings: config::ConfigModel, listen: Seq<char>) -> Seq<char> {
    "{\"event\":\"started\",\"listen\":\""@ + escaped(listen) + "\",\"root\":\""@ + escaped(
        text::lossy(settings.root),
    ) + "\",\"threads\":"@ + text::decimal(settings.threads as nat) + ",\"queue_size\":"@
        + text::decimal(settings.queue_size as nat) + ",\"gzip\":"@ + truth_text(
        settings.gzip_enabled,
    ) + ",\"brotli\":"@ + truth_text(settings.brotli_enabled) + ",\"deny_dotfiles\":"@ + truth_text(
        settings.deny_dotfiles,
    ) + "}"@
}

/// The line for the start of the server, which listens on `listen`.
pub fn log_started(settings: &Config, listen: &str) -> (line: String)
    ensures
        line@ == started_text(settings@, listen@),
{
    let root = from_utf8_lossy(settings.root());
    let mut line = String::from_str("{\"event\":\"started\",\"listen\":\"");
    line.append(escape_json(listen).as_str());
    line.append("\",\"root\":\"");
    line.append(escape_json(root.as_str()).as_str());
    line.append("\",\"threads\":");
    push_decimal(&mut line, settings.threads() as u128);
    line.append(",\"queue_size\":");
    push_decimal(&mut line, settings.queue_size() as u128);
    line.append(",\"gzip\":");
    line.append(truth(settings.gzip_enabled()));
    line.append(",\"brotli\":");
    line.append(truth(settings.brotli_enabled()));
    line.append(",\"deny_dotfiles\":");
    line.append(truth(settings.deny_dotfiles()));
    line.append("}");
    line
}

/// The line for the end of the server.
pub open spec fn stopped_text(clean: bool) -> Seq<char> {
    "{\"event\":\"stopped\",\"clean\":"@ + truth_text(clean) + "}"@
}

/// The line for the end of the server.
pub fn log_stopped(clean: bool) -> (line: String)
    ensures
        line@ == stopped_text(clean),
{
    let mut line = String::from_str("{\"event\":\"stopped\",\"clean\":");
    line.append(truth(clean));
    line.append("}");
    line
}

/// The line for an error of accepting a connection.
pub open spec fn accept_error_text(message: Seq<char>) -> Seq<char> {
    "{\"event\":\"accept_error\",\"error\":\""@ + escaped(message) + "\"}"@
}

/// The line for an error of accepting a connection.
pub fn log_accept_error(message: &str) -> (line: String)
    ensures
        line@ == accept_error_text(message@),
{
    let mut line = String::from_str("{\"event\":\"accept_error\",\"error\":\"");
    line.append(escape_json(message).as_str());
    line.append("\"}");
    line
}

/// The line for connections that waited too long.
pub open spec fn discarded_text(count: nat) -> Seq<char> {
    "{\"event\":\"queue_discarded\",\"count\":"@ + text::decimal(count) + "}"@
}

/// The line for connections that waited too long.
pub fn log_queue_discarded(count: usize) -> (line: String)
    ensures
        line@ == discarded_text(count as nat),
{
    let mut line = String::from_str("{\"event\":\"queue_discarded\",\"count\":");
    push_decimal(&mut line, count as u128);
    line.append("}");
    line
}

/// The end of the line for a request.
pub open spec fn error_part(error: Option<Seq<char>>) -> Seq<char> {
    match error {
        Some(error) => ",\"error\":\""@ + escaped(error) + "\""@,
        None => ""@,
    }
}

/// The line for a request from `peer`, which took so many milliseconds.
pub open spec fn request_text(
    peer: Option<Seq<char>>,
    outcome: exchange::OutcomeModel,
    millis: nat,
) -> Seq<char> {
    let remote = match peer {
        Some(address) => address,
        None => ""@,
    };
    "{\"event\":\"request\",\"remote\":\""@ + escaped(remote) + "\",\"method\":\""@ + escaped(
        outcome.method,
    ) + "\",\"path\":\""@ + escaped(outcome.path) + "\",\"status\":"@ + text::decimal(
        response::status_code(outcome.status) as nat,
    ) + ",\"bytes\":"@ + text::decimal(outcome.bytes as nat) + ",\"duration_ms\":"@ + text::decimal(
        millis,
    ) + error_part(outcome.error) + "}"@
}

/// The line for a request from `peer`, which took so many milliseconds.
pub fn log_request(peer: Option<&str>, outcome: &RequestOutcome, millis: u128) -> (line: String)
    ensures
        line@ == request_text(response::optional_text(peer), outcome@, millis as nat),
{
    let remote = match peer {
        Some(address) => address,
        None => "",
    };
    let mut line = String::from_str("{\"event\":\"request\",\"remote\":\"");
    line.append(escape_json(remote).as_str());
    line.append("\",\"method\":\"");
    line.append(escape_json(outcome.method.as_str()).as_str());
    line.append("\",\"path\":\"");
    line.append(escape_json(outcome.path.as_str()).as_str());
    line.append("\",\"status\":");
    push_decimal(&mut line, outcome.status.code() as u128);
    line.append(",\"bytes\":");
    push_decimal(&mut line, outcome.bytes as u128);
    line.append(",\"duration_ms\":");
    push_decimal(&mut line, millis);
    let ghost before = line@;
    match outcome.error {
        Some(error) => {
            line.append(",\"error\":\"");
            line.append(escape_json(error).as_str());
            line.append("\"");
        },
        None => {
            line.append("");
        },
    }
    assert(line@ =~= before + error_part(outcome@.error));
    line.append("}");
    line
}

/// Whether the character is a lower-case hexadecimal digit.
pub open spec fn hex_char(c: char) -> bool {
    '0' <= c <= '9' || 'a' <= c <= 'f'
}

/// Whether a text can stand between the quotes of a JSON string: no quote and no control character,
/// and behind each backslash what makes an escape.
pub open spec fn json_string(s: Seq<char>) -> bool
    decreases s.len(),
{
    if s.len() == 0 {
        true
    } else if s[0] == '\\' {
        if s.len() >= 2 && (s[1] == '"' || s[1] == '\\' || s[1] == 'n' || s[1] == 'r' || s[1] == 't') {
            json_string(s.skip(2))
        } else {
            &&& s.len() >= 6
            &&& s[1] == 'u'
            &&& hex_char(s[2]) && hex_char(s[3]) && hex_char(s[4]) && hex_char(s[5])
            &&& json_string(s.skip(6))
        }
    } else {
        s[0] != '"' && !control_char(s[0]) && json_string(s.skip(1))
    }
}

/// The hexadecimal digits of a number below 256, four of them.
proof fn lemma_hex_digits(n: nat)
    requires
        n < 256,
    ensures
        text::padded_hex(n, 4) =~= seq![
            '0',
            '0',
            text::digit((n / 16) as int),
            text::digit((n % 16) as int),
        ],
        hex_char(text::digit((n / 16) as int)),
        hex_char(text::digit((n % 16) as int)),
{
    let (high, low) = (n / 16, n % 16);
    assert(text::padded_hex(0, 0) =~= seq![]);
    assert(text::padded_hex(0, 1) =~= seq![text::digit(0)]);
    assert(text::padded_hex(0, 2) =~= seq![text::digit(0), text::digit(0)]);
    assert(text::digit(0) == '0');
    assert(high / 16 == 0 && high % 16 == high);
    assert(text::padded_hex(high, 3) =~= seq!['0', '0', text::digit(high as int)]);
    assert(text::padded_hex(n, 4) =~= text::padded_hex(high, 3).push(text::digit(low as int)));
    lemma_digit(high as int);
    lemma_digit(low as int);
}

proof fn lemma_digit(d: int)
    requires
        0 <= d < 16,
    ensures
        hex_char(text::digit(d)),
        text::digit(d) as int == if d < 10 {
            48 + d
        } else {
            87 + d
        },
{
    assert(d < 10 ==> (48 + d) as char as int == 48 + d);
    assert(d >= 10 ==> (87 + d) as char as int == 87 + d);
}

/// How an escaped character looks.
proof fn lemma_escaped_char(c: char)
    ensures
        control_char(c) && c != '\n' && c != '\r' && c != '\t' ==> {
            &&& escaped_char(c).len() == 6
            &&& escaped_char(c)[0] == '\\'
            &&& escaped_char(c)[1] == 'u'
            &&& escaped_char(c)[2] == '0'
            &&& escaped_char(c)[3] == '0'
            &&& escaped_char(c)[4] == text::digit(c as int / 16)
            &&& escaped_char(c)[5] == text::digit(c as int % 16)
            &&& 0 <= c as int / 16 < 16
        },
{
    if control_char(c) {
        lemma_hex_digits(c as nat);
    }
}

/// An escaped text can stand in a JSON string, whatever the text holds: it has neither a quote that
/// ends the string nor a line break.
pub proof fn escaped_texts_are_json(value: Seq<char>)
    ensures
        json_string(escaped(value)),
    decreases value.len(),
{
    if value.len() > 0 {
        let c = value[0];
        let rest = escaped(value.skip(1));
        let whole = escaped(value);
        escaped_texts_are_json(value.skip(1));
        lemma_escaped_char(c);
        let code = escaped_char(c);
        assert(whole == code + rest);
        assert(whole.skip(code.len() as int) =~= rest);
        if code.len() == 6 {
            lemma_digit(c as int / 16);
            lemma_digit(c as int % 16);
            assert(whole[4] == code[4] && whole[5] == code[5]);
        }
    }
}

/// One escaped character can be told from what follows it.
proof fn lemma_first_code(c: char, d: char, after_c: Seq<char>, after_d: Seq<char>)
    requires
        escaped_char(c) + after_c == escaped_char(d) + after_d,
    ensures
        c == d,
        after_c == after_d,
{
    let whole = escaped_char(c) + after_c;
    let (a, b) = (escaped_char(c), escaped_char(d));
    lemma_escaped_char(c);
    lemma_escaped_char(d);
    assert(whole[0] == a[0] && whole[0] == b[0]);
    if a.len() > 1 || b.len() > 1 {
        assert(a.len() > 1 && b.len() > 1);
        assert(whole[1] == a[1] && whole[1] == b[1]);
    }
    assert(a.len() == b.len());
    if a.len() == 6 {
        assert(whole[4] == a[4] && whole[4] == b[4]);
        assert(whole[5] == a[5] && whole[5] == b[5]);
        lemma_digit(c as int / 16);
        lemma_digit(d as int / 16);
        lemma_digit(c as int % 16);
        lemma_digit(d as int % 16);
    }
    assert(after_c =~= whole.skip(a.len() as int));
    assert(after_d =~= whole.skip(a.len() as int));
}

/// Escaping loses nothing: different texts stay different.
pub proof fn escaping_loses_nothing(first: Seq<char>, second: Seq<char>)
    requires
        escaped(first) == escaped(second),
    ensures
        first == second,
    decreases first.len(),
{
    if first.len() == 0 || second.len() == 0 {
        if first.len() > 0 {
            assert(escaped(first).len() > 0) by {
                lemma_escaped_char(first[0]);
            }
        }
        if second.len() > 0 {
            assert(escaped(second).len() > 0) by {
                lemma_escaped_char(second[0]);
            }
        }
        assert(first =~= second);
    } else {
        lemma_first_code(first[0], second[0], escaped(first.skip(1)), escaped(second.skip(1)));
        escaping_loses_nothing(first.skip(1), second.skip(1));
        assert(first =~= seq![first[0]] + first.skip(1));
        assert(second =~= seq![second[0]] + second.skip(1));
    }
}

/// Whether a text holds no control character, and so no line break.
pub open spec fn visible(text: Seq<char>) -> bool {
    forall|i: int| 0 <= i < text.len() ==> !control_char(#[trigger] text[i])
}

proof fn lemma_visible_concat(first: Seq<char>, second: Seq<char>)
    requires
        visible(first),
        visible(second),
    ensures
        visible(first + second),
{
    let whole = first + second;
    assert forall|i: int| 0 <= i < whole.len() implies !control_char(#[trigger] whole[i]) by {
        if i < first.len() {
            assert(whole[i] == first[i]);
        } else {
            assert(whole[i] == second[i - first.len()]);
        }
    }
}

proof fn lemma_visible_escaped(value: Seq<char>)
    ensures
        visible(escaped(value)),
    decreases value.len(),
{
    if value.len() > 0 {
        let c = value[0];
        lemma_visible_escaped(value.skip(1));
        lemma_escaped_char(c);
        if escaped_char(c).len() == 6 {
            lemma_digit(c as int / 16);
            lemma_digit(c as int % 16);
        }
        lemma_visible_concat(escaped_char(c), escaped(value.skip(1)));
    }
}

proof fn lemma_visible_number(n: nat, width: nat)
    ensures
        visible(text::padded(n, width)),
    decreases n, width,
{
    if n != 0 || width != 0 {
        let rest = (if width == 0 { 0 } else { width - 1 }) as nat;
        lemma_visible_number(n / 10, rest);
        lemma_digit((n % 10) as int);
        lemma_visible_concat(text::padded(n / 10, rest), seq![text::digit((n % 10) as int)]);
        assert(text::padded(n, width) =~= text::padded(n / 10, rest) + seq![
            text::digit((n % 10) as int),
        ]);
    }
}

proof fn lemma_visible_truth(value: bool)
    ensures
        visible(truth_text(value)),
{
    assert(visible("true"@)) by {
        reveal_strlit("true");
    }
    assert(visible("false"@)) by {
        reveal_strlit("false");
    }
}

proof fn lemma_visible_error(error: Option<Seq<char>>)
    ensures
        visible(error_part(error)),
{
    assert(visible(",\"error\":\""@)) by {
        reveal_strlit(",\"error\":\"");
    }
    assert(visible("\""@)) by {
        reveal_strlit("\"");
    }
    assert(visible(""@)) by {
        reveal_strlit("");
    }
    if let Some(text) = error {
        lemma_visible_escaped(text);
        lemma_visible_concat(",\"error\":\""@, escaped(text));
        lemma_visible_concat(",\"error\":\""@ + escaped(text), "\""@);
    }
}

/// The line for a request is one line, whatever the client sent.
pub proof fn request_lines_are_single_lines(
    peer: Option<Seq<char>>,
    outcome: exchange::OutcomeModel,
    millis: nat,
)
    ensures
        visible(request_text(peer, outcome, millis)),
{
    let remote = match peer {
        Some(address) => address,
        None => ""@,
    };
    let code = response::status_code(outcome.status) as nat;
    assert(visible("{\"event\":\"request\",\"remote\":\""@)) by {
        reveal_strlit("{\"event\":\"request\",\"remote\":\"");
    }
    assert(visible("\",\"method\":\""@)) by {
        reveal_strlit("\",\"method\":\"");
    }
    assert(visible("\",\"path\":\""@)) by {
        reveal_strlit("\",\"path\":\"");
    }
    assert(visible("\",\"status\":"@)) by {
        reveal_strlit("\",\"status\":");
    }
    assert(visible(",\"bytes\":"@)) by {
        reveal_strlit(",\"bytes\":");
    }
    assert(visible(",\"duration_ms\":"@)) by {
        reveal_strlit(",\"duration_ms\":");
    }
    assert(visible("}"@)) by {
        reveal_strlit("}");
    }
    lemma_visible_escaped(remote);
    lemma_visible_escaped(outcome.method);
    lemma_visible_escaped(outcome.path);
    lemma_visible_number(code, 1);
    lemma_visible_number(outcome.bytes as nat, 1);
    lemma_visible_number(millis, 1);
    lemma_visible_error(outcome.error);
    lemma_visible_concat("{\"event\":\"request\",\"remote\":\""@, escaped(remote));
    let part_1 = "{\"event\":\"request\",\"remote\":\""@ + escaped(remote);
    lemma_visible_concat(part_1, "\",\"method\":\""@);
    let part_2 = part_1 + "\",\"method\":\""@;
    lemma_visible_concat(part_2, escaped(outcome.method));
    let part_3 = part_2 + escaped(outcome.method);
    lemma_visible_concat(part_3, "\",\"path\":\""@);
    let part_4 = part_3 + "\",\"path\":\""@;
    lemma_visible_concat(part_4, escaped(outcome.path));
    let part_5 = part_4 + escaped(outcome.path);
    lemma_visible_concat(part_5, "\",\"status\":"@);
    let part_6 = part_5 + "\",\"status\":"@;
    lemma_visible_concat(part_6, text::decimal(code));
    let part_7 = part_6 + text::decimal(code);
    lemma_visible_concat(part_7, ",\"bytes\":"@);
    let part_8 = part_7 + ",\"bytes\":"@;
    lemma_visible_concat(part_8, text::decimal(outcome.bytes as nat));
    let part_9 = part_8 + text::decimal(outcome.bytes as nat);
    lemma_visible_concat(part_9, ",\"duration_ms\":"@);
    let part_10 = part_9 + ",\"duration_ms\":"@;
    lemma_visible_concat(part_10, text::decimal(millis));
    let part_11 = part_10 + text::decimal(millis);
    lemma_visible_concat(part_11, error_part(outcome.error));
    let part_12 = part_11 + error_part(outcome.error);
    lemma_visible_concat(part_12, "}"@);
}

/// The line for the start of the server is one line, whatever its configuration.
pub proof fn started_lines_are_single_lines(settings: config::ConfigModel, listen: Seq<char>)
    ensures
        visible(started_text(settings, listen)),
{
    let root = text::lossy(settings.root);
    assert(visible("{\"event\":\"started\",\"listen\":\""@)) by {
        reveal_strlit("{\"event\":\"started\",\"listen\":\"");
    }
    assert(visible("\",\"root\":\""@)) by {
        reveal_strlit("\",\"root\":\"");
    }
    assert(visible("\",\"threads\":"@)) by {
        reveal_strlit("\",\"threads\":");
    }
    assert(visible(",\"queue_size\":"@)) by {
        reveal_strlit(",\"queue_size\":");
    }
    assert(visible(",\"gzip\":"@)) by {
        reveal_strlit(",\"gzip\":");
    }
    assert(visible(",\"brotli\":"@)) by {
        reveal_strlit(",\"brotli\":");
    }
    assert(visible(",\"deny_dotfiles\":"@)) by {
        reveal_strlit(",\"deny_dotfiles\":");
    }
    assert(visible("}"@)) by {
        reveal_strlit("}");
    }
    lemma_visible_escaped(listen);
    lemma_visible_escaped(root);
    lemma_visible_number(settings.threads as nat, 1);
    lemma_visible_number(settings.queue_size as nat, 1);
    lemma_visible_truth(settings.gzip_enabled);
    lemma_visible_truth(settings.brotli_enabled);
    lemma_visible_truth(settings.deny_dotfiles);
    lemma_visible_concat("{\"event\":\"started\",\"listen\":\""@, escaped(listen));
    let part_1 = "{\"event\":\"started\",\"listen\":\""@ + escaped(listen);
    lemma_visible_concat(part_1, "\",\"root\":\""@);
    let part_2 = part_1 + "\",\"root\":\""@;
    lemma_visible_concat(part_2, escaped(root));
    let part_3 = part_2 + escaped(root);
    lemma_visible_concat(part_3, "\",\"threads\":"@);
    let part_4 = part_3 + "\",\"threads\":"@;
    lemma_visible_concat(part_4, text::decimal(settings.threads as nat));
    let part_5 = part_4 + text::decimal(settings.threads as nat);
    lemma_visible_concat(part_5, ",\"queue_size\":"@);
    let part_6 = part_5 + ",\"queue_size\":"@;
    lemma_visible_concat(part_6, text::decimal(settings.queue_size as nat));
    let part_7 = part_6 + text::decimal(settings.queue_size as nat);
    lemma_visible_concat(part_7, ",\"gzip\":"@);
    let part_8 = part_7 + ",\"gzip\":"@;
    lemma_visible_concat(part_8, truth_text(settings.gzip_enabled));
    let part_9 = part_8 + truth_text(settings.gzip_enabled);
    lemma_visible_concat(part_9, ",\"brotli\":"@);
    let part_10 = part_9 + ",\"brotli\":"@;
    lemma_visible_concat(part_10, truth_text(settings.brotli_enabled));
    let part_11 = part_10 + truth_text(settings.brotli_enabled);
    lemma_visible_concat(part_11, ",\"deny_dotfiles\":"@);
    let part_12 = part_11 + ",\"deny_dotfiles\":"@;
    lemma_visible_concat(part_12, truth_text(settings.deny_dotfiles));
    let part_13 = part_12 + truth_text(settings.deny_dotfiles);
    lemma_visible_concat(part_13, "}"@);
}

/// The other lines of the log are one line each, too.
pub proof fn other_lines_are_single_lines(clean: bool, message: Seq<char>, count: nat)
    ensures
        visible(stopped_text(clean)),
        visible(accept_error_text(message)),
        visible(discarded_text(count)),
{
    assert(visible("{\"event\":\"stopped\",\"clean\":"@)) by {
        reveal_strlit("{\"event\":\"stopped\",\"clean\":");
    }
    assert(visible("{\"event\":\"accept_error\",\"error\":\""@)) by {
        reveal_strlit("{\"event\":\"accept_error\",\"error\":\"");
    }
    assert(visible("\"}"@)) by {
        reveal_strlit("\"}");
    }
    assert(visible("{\"event\":\"queue_discarded\",\"count\":"@)) by {
        reveal_strlit("{\"event\":\"queue_discarded\",\"count\":");
    }
    assert(visible("}"@)) by {
        reveal_strlit("}");
    }
    lemma_visible_truth(clean);
    lemma_visible_concat("{\"event\":\"stopped\",\"clean\":"@, truth_text(clean));
    lemma_visible_concat("{\"event\":\"stopped\",\"clean\":"@ + truth_text(clean), "}"@);
    lemma_visible_escaped(message);
    lemma_visible_concat("{\"event\":\"accept_error\",\"error\":\""@, escaped(message));
    lemma_visible_concat("{\"event\":\"accept_error\",\"error\":\""@ + escaped(message), "\"}"@);
    lemma_visible_number(count, 1);
    lemma_visible_concat("{\"event\":\"queue_discarded\",\"count\":"@, text::decimal(count));
    lemma_visible_concat("{\"event\":\"queue_discarded\",\"count\":"@ + text::decimal(count), "}"@);
}

/// The text that stands between the quotes of a JSON string, read back: each escape as the
/// character that it stands for.
pub open spec fn unescaped(s: Seq<char>) -> Seq<char>
    decreases s.len(),
{
    if s.len() == 0 {
        seq![]
    } else if s[0] != '\\' || s.len() < 2 {
        seq![s[0]] + unescaped(s.skip(1))
    } else if s[1] == 'u' && s.len() >= 6 {
        seq![text::numeral_value(s.subrange(2, 6), 16) as char] + unescaped(s.skip(6))
    } else {
        let c = if s[1] == 'n' {
            10 as char
        } else if s[1] == 'r' {
            13 as char
        } else if s[1] == 't' {
            9 as char
        } else {
            s[1]
        };
        seq![c] + unescaped(s.skip(2))
    }
}

/// An escaped text is read back as the text that it was, by whoever reads JSON.
pub proof fn escaped_texts_are_read_back(value: Seq<char>)
    ensures
        unescaped(escaped(value)) == value,
    decreases value.len(),
{
    if value.len() > 0 {
        let c = value[0];
        let rest = escaped(value.skip(1));
        let whole = escaped(value);
        let code = escaped_char(c);
        escaped_texts_are_read_back(value.skip(1));
        lemma_escaped_char(c);
        assert(whole == code + rest);
        assert(whole.skip(code.len() as int) =~= rest);
        if code.len() == 6 {
            let digits = text::padded_hex(c as nat, 4);
            lemma_hex_digits(c as nat);
            text::hexadecimals_have_their_value(c as nat, 4);
            assert(whole[1] == code[1]);
            assert(whole.subrange(2, 6) =~= digits);
            assert((c as nat) as char == c);
        } else if code.len() == 2 {
            assert(whole[0] == '\\' && whole[1] == code[1]);
        } else {
            assert(whole[0] == c);
        }
        assert(value =~= seq![c] + value.skip(1));
    } else {
        assert(value =~= seq![]);
    }
}

/// A character that needs no escape stands for itself: any but the quote, the backslash and the
/// control characters.
pub proof fn other_characters_are_not_escaped(c: char)
    requires
        c != '"',
        c != '\\',
        c as int >= 32,
        !(127 <= c as int <= 159),
    ensures
        escaped_char(c) == seq![c],
{
}

/// Whether `code` is what stands between the quotes of a JSON string for a text.
pub open spec fn writes(code: Seq<char>, value: Seq<char>) -> bool {
    json_string(code) && unescaped(code) == value
}

/// Whether `numeral` is a number in decimal, without needless zeros.
pub open spec fn counts(numeral: Seq<char>, n: nat) -> bool {
    &&& numeral.len() > 0
    &&& forall|i: int| 0 <= i < numeral.len() ==> 48 <= #[trigger] numeral[i] as int <= 57
    &&& text::numeral_value(numeral, 10) == n
    &&& numeral.len() > 1 ==> numeral[0] as int != 48
}

/// Whether a line is that of a request, with these codes and numerals in it.
pub open spec fn is_request_line(
    line: Seq<char>,
    remote: Seq<char>,
    method: Seq<char>,
    path: Seq<char>,
    status: Seq<char>,
    bytes: Seq<char>,
    millis: Seq<char>,
    error: Option<Seq<char>>,
) -> bool {
    line == "{\"event\":\"request\",\"remote\":\""@ + remote + "\",\"method\":\""@ + method
        + "\",\"path\":\""@ + path + "\",\"status\":"@ + status + ",\"bytes\":"@ + bytes
        + ",\"duration_ms\":"@ + millis + (match error {
        Some(code) => ",\"error\":\""@ + code + "\""@,
        None => Seq::<char>::empty(),
    }) + "}"@
}

/// The line for a request is a JSON object that says from where it came, what it asked for, how it
/// was answered, with how many bytes and in what time, and which error there was, if any.
pub proof fn request_lines_say_what_happened(
    peer: Option<Seq<char>>,
    outcome: exchange::OutcomeModel,
    millis: nat,
)
    ensures
        exists|
            remote: Seq<char>,
            method: Seq<char>,
            path: Seq<char>,
            status: Seq<char>,
            bytes: Seq<char>,
            duration: Seq<char>,
            error: Option<Seq<char>>,
        |
            {
                &&& #[trigger] is_request_line(
                    request_text(peer, outcome, millis),
                    remote,
                    method,
                    path,
                    status,
                    bytes,
                    duration,
                    error,
                )
                &&& writes(
                    remote,
                    match peer {
                        Some(address) => address,
                        None => Seq::empty(),
                    },
                )
                &&& writes(method, outcome.method)
                &&& writes(path, outcome.path)
                &&& counts(status, response::status_code(outcome.status) as nat)
                &&& counts(bytes, outcome.bytes as nat)
                &&& counts(duration, millis)
                &&& error is Some <==> outcome.error is Some
                &&& error matches Some(code) ==> writes(code, outcome.error->0)
            },
{
    let from = match peer {
        Some(address) => address,
        None => ""@,
    };
    reveal_strlit("");
    assert(""@ =~= Seq::<char>::empty());
    let code = response::status_code(outcome.status) as nat;
    lemma_writes(from);
    lemma_writes(outcome.method);
    lemma_writes(outcome.path);
    lemma_counts(code);
    lemma_counts(outcome.bytes as nat);
    lemma_counts(millis);
    let error = match outcome.error {
        Some(text) => Some(escaped(text)),
        None => None,
    };
    if let Some(text) = outcome.error {
        lemma_writes(text);
    }
    assert(is_request_line(
        request_text(peer, outcome, millis),
        escaped(from),
        escaped(outcome.method),
        escaped(outcome.path),
        text::decimal(code),
        text::decimal(outcome.bytes as nat),
        text::decimal(millis),
        error,
    ));
}

proof fn lemma_writes(value: Seq<char>)
    ensures
        writes(escaped(value), value),
{
    escaped_texts_are_json(value);
    escaped_texts_are_read_back(value);
}

proof fn lemma_counts(n: nat)
    ensures
        counts(text::decimal(n), n),
{
    text::decimals_have_their_value(n, 1);
}

/// Whether a line is that of the start of the server, with these codes and numerals in it.
pub open spec fn is_started_line(
    line: Seq<char>,
    listen: Seq<char>,
    root: Seq<char>,
    threads: Seq<char>,
    queue_size: Seq<char>,
    settings: config::ConfigModel,
) -> bool {
    let truth = |value: bool| if value {
        seq!['t', 'r', 'u', 'e']
    } else {
        seq!['f', 'a', 'l', 's', 'e']
    };
    line == "{\"event\":\"started\",\"listen\":\""@ + listen + "\",\"root\":\""@ + root
        + "\",\"threads\":"@ + threads + ",\"queue_size\":"@ + queue_size + ",\"gzip\":"@ + truth(
        settings.gzip_enabled,
    ) + ",\"brotli\":"@ + truth(settings.brotli_enabled) + ",\"deny_dotfiles\":"@ + truth(
        settings.deny_dotfiles,
    ) + "}"@
}

/// The line for the start of the server is a JSON object that says where it listens and what it was
/// configured to do.
pub proof fn started_lines_say_how_the_server_runs(
    settings: config::ConfigModel,
    listen: Seq<char>,
)
    ensures
        exists|address: Seq<char>, root: Seq<char>, threads: Seq<char>, queue_size: Seq<char>|
            {
                &&& #[trigger] is_started_line(
                    started_text(settings, listen),
                    address,
                    root,
                    threads,
                    queue_size,
                    settings,
                )
                &&& writes(address, listen)
                &&& writes(root, text::lossy(settings.root))
                &&& counts(threads, settings.threads as nat)
                &&& counts(queue_size, settings.queue_size as nat)
            },
{
    reveal_strlit("true");
    reveal_strlit("false");
    assert("true"@ =~= seq!['t', 'r', 'u', 'e']);
    assert("false"@ =~= seq!['f', 'a', 'l', 's', 'e']);
    lemma_writes(listen);
    lemma_writes(text::lossy(settings.root));
    lemma_counts(settings.threads as nat);
    lemma_counts(settings.queue_size as nat);
    assert(is_started_line(
        started_text(settings, listen),
        escaped(listen),
        escaped(text::lossy(settings.root)),
        text::decimal(settings.threads as nat),
        text::decimal(settings.queue_size as nat),
        settings,
    ));
}

/// The other lines are JSON objects, too, each with its event and what there is to say of it.
pub proof fn other_lines_say_what_happened(message: Seq<char>, count: nat)
    ensures
        stopped_text(true) == "{\"event\":\"stopped\",\"clean\":"@ + seq!['t', 'r', 'u', 'e', '}'],
        stopped_text(false) == "{\"event\":\"stopped\",\"clean\":"@ + seq![
            'f',
            'a',
            'l',
            's',
            'e',
            '}',
        ],
        exists|code: Seq<char>|
            accept_error_text(message) == "{\"event\":\"accept_error\",\"error\":\""@ + code
                + "\"}"@ && #[trigger] writes(code, message),
        exists|numeral: Seq<char>|
            discarded_text(count) == "{\"event\":\"queue_discarded\",\"count\":"@ + numeral + "}"@
                && #[trigger] counts(numeral, count),
{
    reveal_strlit("true");
    reveal_strlit("false");
    reveal_strlit("}");
    assert(stopped_text(true) =~= "{\"event\":\"stopped\",\"clean\":"@ + seq![
        't',
        'r',
        'u',
        'e',
        '}',
    ]);
    assert(stopped_text(false) =~= "{\"event\":\"stopped\",\"clean\":"@ + seq![
        'f',
        'a',
        'l',
        's',
        'e',
        '}',
    ]);
    lemma_writes(message);
    lemma_counts(count);
}

} // verus!
