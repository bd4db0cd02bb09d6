//! What the environment variables mean: which settings follow from what is written in them.

use vstd::prelude::*;
use vstd::utf8::*;

use crate::bytes;
use crate::config;
use crate::config::{ConfigModel, ConfigProblem, EnvironmentModel, ListenAddr, Var};
use crate::fields;
use crate::text;

verus! {

proof fn lemma_digits_value(digits: Seq<char>)
    requires
        forall|i: int| 0 <= i < digits.len() ==> 48 <= #[trigger] digits[i] as int <= 57,
    ensures
        config::digits_value(digits) == text::numeral_value(digits, 10),
    decreases digits.len(),
{
    if digits.len() > 0 {
        let before = digits.drop_last();
        assert forall|i: int| 0 <= i < before.len() implies 48 <= #[trigger] before[i] as int
            <= 57 by {
            assert(before[i] == digits[i]);
        }
        lemma_digits_value(before);
        assert(48 <= digits[digits.len() - 1] as int <= 57);
    }
}

/// A number in decimal is read as that number, with zeros before it or a plus, as long as it is
/// within the bounds; else it is refused.
pub proof fn numbers_are_read(
    key: Seq<char>,
    n: nat,
    width: nat,
    plus: bool,
    default: int,
    min: int,
    max: int,
)
    requires
        width >= 1,
    ensures
        ({
            let raw = if plus {
                seq!['+'] + text::padded(n, width)
            } else {
                text::padded(n, width)
            };
            config::bounded_number(key, Var::Text(raw), default, min, max) == if min <= n <= max {
                Ok::<int, ConfigProblem>(n as int)
            } else {
                Err(ConfigProblem::Invalid(key, raw))
            }
        }),
{
    let digits = text::padded(n, width);
    let raw = if plus {
        seq!['+'] + digits
    } else {
        digits
    };
    text::decimals_have_their_value(n, width);
    lemma_digits_value(digits);
    assert(48 <= digits[0] as int <= 57);
    assert(config::unsigned_digits(raw) =~= digits);
    assert forall|i: int| 0 <= i < digits.len() implies '0' <= #[trigger] digits[i] <= '9' by {}
}

/// A text with anything in it that is no digit, but for a plus in front, is refused as a number,
/// and so is one without any digit.
pub proof fn other_texts_are_no_numbers(
    key: Seq<char>,
    raw: Seq<char>,
    default: int,
    min: int,
    max: int,
)
    requires
        raw.len() == 0 || raw == seq!['+'] || exists|i: int|
            0 <= i < raw.len() && !(48 <= #[trigger] raw[i] as int <= 57) && (i > 0 || raw[i]
                != '+'),
    ensures
        config::bounded_number(key, Var::Text(raw), default, min, max) == Err::<int, ConfigProblem>(
            ConfigProblem::Invalid(key, raw),
        ),
{
    let digits = config::unsigned_digits(raw);
    if raw.len() > 0 && raw != seq!['+'] {
        let i = choose|i: int|
            0 <= i < raw.len() && !(48 <= #[trigger] raw[i] as int <= 57) && (i > 0 || raw[i]
                != '+');
        if raw[0] == '+' {
            assert(digits[i - 1] == raw[i]);
        } else {
            assert(digits[i] == raw[i]);
        }
    }
}

/// A variable that is absent leaves a number, a switch and the headers at their defaults; one that
/// is not Unicode is refused.
pub proof fn absent_variables_leave_the_defaults(
    key: Seq<char>,
    default: int,
    min: int,
    max: int,
    switched: bool,
)
    ensures
        config::bounded_number(key, Var::Absent, default, min, max) == Ok::<int, ConfigProblem>(
            default,
        ),
        config::switch(key, Var::Absent, switched) == Ok::<bool, ConfigProblem>(switched),
        config::extra_headers(key, Var::Absent) == Ok::<
            Seq<(Seq<char>, Seq<char>)>,
            ConfigProblem,
        >(Seq::empty()),
        config::bounded_number(key, Var::NotUnicode, default, min, max) == Err::<
            int,
            ConfigProblem,
        >(ConfigProblem::Invalid(key, "<non-UTF-8>"@)),
        config::switch(key, Var::NotUnicode, switched) == Err::<bool, ConfigProblem>(
            ConfigProblem::Invalid(key, "<non-UTF-8>"@),
        ),
        config::extra_headers(key, Var::NotUnicode) == Err::<
            Seq<(Seq<char>, Seq<char>)>,
            ConfigProblem,
        >(ConfigProblem::Invalid(key, "<non-UTF-8>"@)),
{
}

/// Whether a word says yes, in any case of its letters.
pub open spec fn says_yes(word: Seq<char>) -> bool {
    ||| text::same_but_for_case(word, seq!['1'])
    ||| text::same_but_for_case(word, seq!['t', 'r', 'u', 'e'])
    ||| text::same_but_for_case(word, seq!['y', 'e', 's'])
    ||| text::same_but_for_case(word, seq!['o', 'n'])
}

/// Whether a word says no, in any case of its letters.
pub open spec fn says_no(word: Seq<char>) -> bool {
    ||| text::same_but_for_case(word, seq!['0'])
    ||| text::same_but_for_case(word, seq!['f', 'a', 'l', 's', 'e'])
    ||| text::same_but_for_case(word, seq!['n', 'o'])
    ||| text::same_but_for_case(word, seq!['o', 'f', 'f'])
}

proof fn lemma_word(word: Seq<char>, plain: Seq<char>)
    requires
        text::lowered(plain) == plain,
    ensures
        text::lowered(word) == plain <==> text::same_but_for_case(word, plain),
{
    text::lower_case_forgets_only_the_case(word, plain);
}

/// A switch is set by the words that say yes and the words that say no, whatever their case and the
/// white space around them; everything else is refused.
pub proof fn switches_are_read(
    key: Seq<char>,
    left: Seq<char>,
    word: Seq<char>,
    right: Seq<char>,
    default: bool,
)
    requires
        text::blank(left),
        text::blank(right),
        text::unpadded(word),
    ensures
        config::switch(key, Var::Text(left + word + right), default) == if says_yes(word) {
            Ok::<bool, ConfigProblem>(true)
        } else if says_no(word) {
            Ok(false)
        } else {
            Err(ConfigProblem::Invalid(key, left + word + right))
        },
{
    text::trimming_takes_off_padding(left, word, right);
    reveal_strlit("1");
    reveal_strlit("true");
    reveal_strlit("yes");
    reveal_strlit("on");
    reveal_strlit("0");
    reveal_strlit("false");
    reveal_strlit("no");
    reveal_strlit("off");
    assert("1"@ =~= seq!['1']);
    assert("true"@ =~= seq!['t', 'r', 'u', 'e']);
    assert("yes"@ =~= seq!['y', 'e', 's']);
    assert("on"@ =~= seq!['o', 'n']);
    assert("0"@ =~= seq!['0']);
    assert("false"@ =~= seq!['f', 'a', 'l', 's', 'e']);
    assert("no"@ =~= seq!['n', 'o']);
    assert("off"@ =~= seq!['o', 'f', 'f']);
    assert(text::lowered("1"@) =~= "1"@);
    assert(text::lowered("true"@) =~= "true"@);
    assert(text::lowered("yes"@) =~= "yes"@);
    assert(text::lowered("on"@) =~= "on"@);
    assert(text::lowered("0"@) =~= "0"@);
    assert(text::lowered("false"@) =~= "false"@);
    assert(text::lowered("no"@) =~= "no"@);
    assert(text::lowered("off"@) =~= "off"@);
    lemma_word(word, "1"@);
    lemma_word(word, "true"@);
    lemma_word(word, "yes"@);
    lemma_word(word, "on"@);
    lemma_word(word, "0"@);
    lemma_word(word, "false"@);
    lemma_word(word, "no"@);
    lemma_word(word, "off"@);
}

/// Whether a component can stand in a configured path: not empty, `.` or `..`, and without a NUL or
/// a backslash.
pub open spec fn usable(component: Seq<u8>) -> bool {
    &&& component.len() > 0
    &&& component != seq![46u8]
    &&& component != seq![46u8, 46u8]
    &&& !component.contains(0u8)
    &&& !component.contains(92u8)
}

/// Whether no component holds a slash, so that slashes part them.
pub open spec fn parted(components: Seq<Seq<u8>>) -> bool {
    forall|i: int| 0 <= i < components.len() ==> !(#[trigger] components[i]).contains(47u8)
}

/// Joined pieces hold what the pieces hold.
proof fn lemma_joined_contains(pieces: Seq<Seq<u8>>, i: int, b: u8)
    requires
        0 <= i < pieces.len(),
        pieces[i].contains(b),
    ensures
        bytes::joined_by(pieces, 47u8).contains(b),
    decreases pieces.len(),
{
    let whole = bytes::joined_by(pieces, 47u8);
    if pieces.len() > 1 {
        let rest = pieces.skip(1);
        let tail = bytes::joined_by(rest, 47u8);
        let at = pieces[0].len() as int + 1;
        assert(whole == pieces[0] + seq![47u8] + tail);
        if i == 0 {
            let k = choose|k: int| 0 <= k < pieces[0].len() && pieces[0][k] == b;
            assert(whole[k] == b);
        } else {
            assert(rest[i - 1] == pieces[i]);
            lemma_joined_contains(rest, i - 1, b);
            let k = choose|k: int| 0 <= k < tail.len() && tail[k] == b;
            assert(whole[at + k] == b);
        }
    }
}

/// Joined pieces hold nothing but what the pieces hold, and slashes.
proof fn lemma_joined_holds(pieces: Seq<Seq<u8>>, b: u8)
    requires
        b != 47,
        forall|i: int| 0 <= i < pieces.len() ==> !(#[trigger] pieces[i]).contains(b),
    ensures
        !bytes::joined_by(pieces, 47u8).contains(b),
    decreases pieces.len(),
{
    let whole = bytes::joined_by(pieces, 47u8);
    if pieces.len() > 0 {
        assert(!pieces[0].contains(b));
    }
    if pieces.len() > 1 {
        let rest = pieces.skip(1);
        assert forall|i: int| 0 <= i < rest.len() implies !(#[trigger] rest[i]).contains(b) by {
            assert(rest[i] == pieces[i + 1]);
        }
        lemma_joined_holds(rest, b);
        let tail = bytes::joined_by(rest, 47u8);
        assert forall|k: int| 0 <= k < whole.len() implies whole[k] != b by {
            if k < pieces[0].len() {
                assert(whole[k] == pieces[0][k]);
                assert(pieces[0].contains(pieces[0][k]));
            } else if k > pieces[0].len() {
                assert(whole[k] == tail[k - pieces[0].len() - 1]);
                assert(tail.contains(tail[k - pieces[0].len() - 1]));
            }
        }
    }
}

proof fn lemma_clean(components: Seq<Seq<u8>>)
    requires
        components.len() > 0,
        parted(components),
    ensures
        config::clean_components(bytes::joined_by(components, 47u8)) == if forall|i: int|
            0 <= i < components.len() ==> usable(#[trigger] components[i]) {
            Some(components)
        } else {
            None
        },
{
    let path = bytes::joined_by(components, 47u8);
    bytes::splitting_undoes_joining(components, 47u8);
    if forall|i: int| 0 <= i < components.len() ==> usable(#[trigger] components[i]) {
        lemma_joined_holds(components, 0);
        lemma_joined_holds(components, 92);
        assert(usable(components[0]));
        assert(path.len() >= components[0].len());
    } else {
        let i = choose|i: int| 0 <= i < components.len() && !usable(#[trigger] components[i]);
        if components[i].contains(0u8) {
            lemma_joined_contains(components, i, 0);
        } else if components[i].contains(92u8) {
            lemma_joined_contains(components, i, 92);
        }
    }
}

proof fn lemma_joined_first(components: Seq<Seq<u8>>)
    requires
        components.len() > 0,
        parted(components),
    ensures
        components[0].len() > 0 ==> ({
            let path = bytes::joined_by(components, 47u8);
            path.len() > 0 && path[0] == components[0][0] && path[0] != 47
        }),
        components[0].len() == 0 && components.len() > 1 ==> ({
            let path = bytes::joined_by(components, 47u8);
            path.len() > 0 && path[0] == 47
        }),
{
    if components[0].len() > 0 {
        assert(components[0].contains(components[0][0]));
    }
}

/// The path of the index is made of the components between its slashes. It is refused when one of
/// them is not usable, which is so of the empty one before a leading or behind a trailing slash.
pub proof fn relative_paths_are_read(key: Seq<char>, components: Seq<Seq<u8>>)
    requires
        components.len() > 0,
        parted(components),
    ensures
        ({
            let path = bytes::joined_by(components, 47u8);
            config::relative_path(key, path) == if forall|i: int|
                0 <= i < components.len() ==> usable(#[trigger] components[i]) {
                Ok::<Seq<Seq<u8>>, ConfigProblem>(components)
            } else {
                Err(ConfigProblem::Invalid(key, text::lossy(path)))
            }
        }),
{
    lemma_clean(components);
    lemma_joined_first(components);
    let path = bytes::joined_by(components, 47u8);
    if components[0].len() == 0 {
        assert(!usable(components[0]));
    }
}

/// The prefix of the assets begins with a slash, and is made of the components behind it, with or
/// without a slash at the end. It is refused when one of them is not usable.
pub proof fn url_prefixes_are_read(key: Seq<char>, components: Seq<Seq<u8>>)
    requires
        components.len() > 0,
        parted(components),
        components.last().len() > 0,
    ensures
        ({
            let path = seq![47u8] + bytes::joined_by(components, 47u8);
            let longer = path + seq![47u8];
            if forall|i: int| 0 <= i < components.len() ==> usable(#[trigger] components[i]) {
                &&& config::url_prefix(key, path) == Ok::<Seq<Seq<u8>>, ConfigProblem>(components)
                &&& config::url_prefix(key, longer) == Ok::<Seq<Seq<u8>>, ConfigProblem>(components)
            } else {
                let problem = ConfigProblem::Invalid(
                    key,
                    text::lossy(bytes::joined_by(components, 47u8)),
                );
                &&& config::url_prefix(key, path) == Err::<Seq<Seq<u8>>, ConfigProblem>(problem)
                &&& config::url_prefix(key, longer) == Err::<Seq<Seq<u8>>, ConfigProblem>(problem)
            }
        }),
{
    let inner = bytes::joined_by(components, 47u8);
    let path = seq![47u8] + inner;
    let longer = path + seq![47u8];
    lemma_clean(components);
    lemma_joined_end(components);
    assert(path.last() == inner.last());
    assert(path.skip(1) =~= inner);
    assert(longer.subrange(1, longer.len() - 1) =~= inner);
}

proof fn lemma_joined_end(components: Seq<Seq<u8>>)
    requires
        components.len() > 0,
        parted(components),
        components.last().len() > 0,
    ensures
        bytes::joined_by(components, 47u8).len() > 0,
        bytes::joined_by(components, 47u8).last() != 47,
    decreases components.len(),
{
    let whole = bytes::joined_by(components, 47u8);
    if components.len() > 1 {
        let rest = components.skip(1);
        assert forall|i: int| 0 <= i < rest.len() implies !(#[trigger] rest[i]).contains(47u8) by {
            assert(rest[i] == components[i + 1]);
        }
        assert(rest.last() == components.last());
        lemma_joined_end(rest);
        assert(whole.last() == bytes::joined_by(rest, 47u8).last());
    } else {
        assert(components[0].contains(components[0].last()));
    }
}

/// A prefix that does not begin with a slash is refused, and so is a lone slash or two of them.
pub proof fn other_url_prefixes_are_refused(key: Seq<char>, path: Seq<u8>)
    requires
        path.len() == 0 || path[0] != 47 || path == seq![47u8] || path == seq![47u8, 47u8],
    ensures
        config::url_prefix(key, path) == Err::<Seq<Seq<u8>>, ConfigProblem>(
            ConfigProblem::Invalid(
                key,
                text::lossy(
                    if path.len() > 0 && path[0] == 47 {
                        Seq::empty()
                    } else {
                        path
                    },
                ),
            ),
        ),
{
    if path == seq![47u8, 47u8] {
        assert(path.subrange(1, 1) =~= Seq::<u8>::empty());
    } else if path == seq![47u8] {
        assert(path.skip(1) =~= Seq::<u8>::empty());
    }
}

/// The address to listen on is the text of its variable, and else port 8080 of every interface.
pub proof fn addresses_are_taken_as_they_are(raw: Seq<char>)
    ensures
        config::listen_text(Var::Text(raw)) == raw,
        config::listen_text(Var::Absent) == "0.0.0.0:8080"@,
        config::listen_text(Var::NotUnicode) == "0.0.0.0:8080"@,
{
}

/// A header on a line of its own is read as its name and its value, whatever colons the value holds
/// and whatever white space there is around the two.
pub proof fn header_lines_are_read(
    before: Seq<Seq<char>>,
    left: Seq<char>,
    name: Seq<char>,
    first_gap: Seq<char>,
    second_gap: Seq<char>,
    value: Seq<char>,
    right: Seq<char>,
)
    requires
        config::headers_on(before) is Ok,
        config::headers_on(before)->Ok_0.len() < 32,
        text::blank(left),
        text::blank(first_gap),
        text::blank(second_gap),
        text::blank(right),
        text::unpadded(name),
        text::unpadded(value),
        !name.contains(':'),
        config::allowed_header((name, value)),
    ensures
        config::headers_on(
            before.push(left + name + first_gap + seq![':'] + second_gap + value + right),
        ) == Ok::<Seq<(Seq<char>, Seq<char>)>, Seq<char>>(
            config::headers_on(before)->Ok_0.push((name, value)),
        ),
{
    let line = left + name + first_gap + seq![':'] + second_gap + value + right;
    lemma_header_line(left, name, first_gap, second_gap, value, right);
    assert(before.push(line).drop_last() =~= before);
}

proof fn lemma_header_line(
    left: Seq<char>,
    name: Seq<char>,
    first_gap: Seq<char>,
    second_gap: Seq<char>,
    value: Seq<char>,
    right: Seq<char>,
)
    requires
        text::blank(left),
        text::blank(first_gap),
        text::blank(second_gap),
        text::blank(right),
        text::unpadded(name),
        text::unpadded(value),
        !name.contains(':'),
        config::allowed_header((name, value)),
    ensures
        ({
            let line = text::trimmed(
                left + name + first_gap + seq![':'] + second_gap + value + right,
            );
            &&& line.len() > 0
            &&& line.contains(':')
            &&& config::line_header(line) == (name, value)
        }),
{
    let line = left + name + first_gap + seq![':'] + second_gap + value + right;
    lemma_name_is_not_empty(name, value);
    let start = name + first_gap + seq![':'];
    let colon = (name.len() + first_gap.len()) as int;
    let middle = if value.len() > 0 {
        start + second_gap + value
    } else {
        start
    };
    let end = if value.len() > 0 {
        right
    } else {
        second_gap + right
    };
    if value.len() == 0 {
        assert forall|i: int| 0 <= i < end.len() implies text::is_blank(#[trigger] end[i]) by {
            if i < second_gap.len() {
                assert(end[i] == second_gap[i]);
            } else {
                assert(end[i] == right[i - second_gap.len()]);
            }
        }
    }
    assert(line =~= left + middle + end);
    assert(middle[0] == name[0]);
    assert(value.len() > 0 ==> middle.last() == value.last());
    assert(value.len() == 0 ==> middle.last() == ':');
    text::trimming_takes_off_padding(left, middle, end);
    assert(middle[colon] == ':');
    assert forall|j: int| 0 <= j < colon implies middle[j] != ':' by {
        if j < name.len() {
            assert(middle[j] == name[j]);
            assert(name.contains(name[j]));
        } else {
            assert(middle[j] == first_gap[j - name.len()]);
            assert(text::is_blank(first_gap[j - name.len()]));
        }
    }
    bytes::lemma_index_of_first_is(middle, ':', colon);
    let none = Seq::<char>::empty();
    assert(middle.take(colon) =~= none + name + first_gap);
    text::trimming_takes_off_padding(none, name, first_gap);
    if value.len() > 0 {
        assert(middle.skip(colon + 1) =~= second_gap + value + none);
        text::trimming_takes_off_padding(second_gap, value, none);
    } else {
        assert(middle.skip(colon + 1) =~= none + value + none);
        text::trimming_takes_off_padding(none, value, none);
    }
}

proof fn lemma_name_is_not_empty(name: Seq<char>, value: Seq<char>)
    requires
        config::allowed_header((name, value)),
    ensures
        name.len() > 0,
{
    if name.len() == 0 {
        assert(encode_utf8(name).len() == 0) by {
            is_ascii_chars_encode_utf8(name);
        }
    }
}

/// A blank line says nothing.
pub proof fn blank_lines_say_nothing(before: Seq<Seq<char>>, line: Seq<char>)
    requires
        text::blank(line),
    ensures
        config::headers_on(before.push(line)) == config::headers_on(before),
{
    let none = Seq::<char>::empty();
    text::trimming_takes_off_padding(line, none, none);
    assert(line + none + none =~= line);
    assert(before.push(line).drop_last() =~= before);
}

/// A line that is not blank is refused when it has no colon, or when there are 32 headers already;
/// and what follows does not change that.
pub proof fn other_lines_are_refused(
    before: Seq<Seq<char>>,
    left: Seq<char>,
    line: Seq<char>,
    right: Seq<char>,
)
    requires
        config::headers_on(before) is Ok,
        text::blank(left),
        text::blank(right),
        text::unpadded(line),
        line.len() > 0,
        !line.contains(':') || config::headers_on(before)->Ok_0.len() >= 32,
    ensures
        config::headers_on(before.push(left + line + right)) == Err::<
            Seq<(Seq<char>, Seq<char>)>,
            Seq<char>,
        >(line),
{
    text::trimming_takes_off_padding(left, line, right);
    assert(before.push(left + line + right).drop_last() =~= before);
}

/// A header that may not be configured is refused with its line.
pub proof fn forbidden_headers_are_refused(
    before: Seq<Seq<char>>,
    name: Seq<char>,
    value: Seq<char>,
)
    requires
        config::headers_on(before) is Ok,
        text::unpadded(name),
        text::unpadded(value),
        name.len() > 0,
        value.len() > 0,
        !name.contains(':'),
        !config::allowed_header((name, value)),
    ensures
        config::headers_on(before.push(name + seq![':', ' '] + value)) == Err::<
            Seq<(Seq<char>, Seq<char>)>,
            Seq<char>,
        >(name + seq![':', ' '] + value),
{
    let line = name + seq![':', ' '] + value;
    let none = Seq::<char>::empty();
    let gap = seq![' '];
    assert(line[0] == name[0] && line.last() == value.last());
    text::trimming_takes_off_padding(none, line, none);
    assert(none + line + none =~= line);
    let colon = name.len() as int;
    assert(line[colon] == ':');
    assert forall|j: int| 0 <= j < colon implies line[j] != ':' by {
        assert(line[j] == name[j]);
        assert(name.contains(name[j]));
    }
    bytes::lemma_index_of_first_is(line, ':', colon);
    assert(line.take(colon) =~= none + name + none);
    text::trimming_takes_off_padding(none, name, none);
    assert(line.skip(colon + 1) =~= gap + value + none);
    assert forall|i: int| 0 <= i < gap.len() implies text::is_blank(#[trigger] gap[i]) by {}
    text::trimming_takes_off_padding(gap, value, none);
    assert(before.push(line).drop_last() =~= before);
}

/// Whether a byte is a letter, a digit or one of ``! # $ % & ' * + - . ^ _ ` | ~``.
pub open spec fn token_byte(b: u8) -> bool {
    ||| 97 <= b <= 122
    ||| 65 <= b <= 90
    ||| 48 <= b <= 57
    ||| seq![33u8, 35, 36, 37, 38, 39, 42, 43, 45, 46, 94, 95, 96, 124, 126].contains(b)
}

/// Whether a name, in any case of its letters, is that of a header that the server sets by itself.
pub open spec fn own_header(name: Seq<char>) -> bool {
    ||| fields::same_name(name, "Cache-Control"@)
    ||| fields::same_name(name, "Connection"@)
    ||| fields::same_name(name, "Content-Encoding"@)
    ||| fields::same_name(name, "Content-Length"@)
    ||| fields::same_name(name, "Content-Type"@)
    ||| fields::same_name(name, "Date"@)
    ||| fields::same_name(name, "ETag"@)
    ||| fields::same_name(name, "Last-Modified"@)
    ||| fields::same_name(name, "Server"@)
    ||| fields::same_name(name, "Transfer-Encoding"@)
    ||| fields::same_name(name, "Vary"@)
}

/// A header may be configured exactly when its name has one to 64 bytes, all of them fit for a
/// name, its value has at most 1024 bytes, none of them a control character but the tab, and the
/// server does not set it by itself.
pub proof fn these_headers_may_be_configured(header: (Seq<char>, Seq<char>))
    ensures
        config::allowed_header(header) <==> {
            let name = encode_utf8(header.0);
            let value = encode_utf8(header.1);
            &&& 1 <= name.len() <= 64
            &&& forall|i: int| 0 <= i < name.len() ==> token_byte(#[trigger] name[i])
            &&& value.len() <= 1024
            &&& forall|i: int|
                0 <= i < value.len() ==> #[trigger] value[i] == 9 || 32 <= value[i] <= 126 || value[i]
                    >= 128
            &&& !own_header(header.0)
        },
{
    let name = encode_utf8(header.0);
    fields::lemma_reserved();
    fields::lemma_reserved_names(header.0);
    let marks = seq![33u8, 35, 36, 37, 38, 39, 42, 43, 45, 46, 94, 95, 96, 124, 126];
    assert forall|b: u8| crate::http::name_byte(b) == token_byte(b) by {
        if crate::http::name_byte(b) && !(97 <= b <= 122 || 65 <= b <= 90 || 48 <= b <= 57) {
            assert(marks[0] == 33 && marks[1] == 35 && marks[2] == 36 && marks[3] == 37 && marks[4]
                == 38 && marks[5] == 39 && marks[6] == 42 && marks[7] == 43 && marks[8] == 45
                && marks[9] == 46 && marks[10] == 94 && marks[11] == 95 && marks[12] == 96
                && marks[13] == 124 && marks[14] == 126);
            assert(marks.contains(b));
        }
    }
}

/// The environment with nothing set but the document root.
pub open spec fn bare(root: Seq<u8>) -> EnvironmentModel {
    EnvironmentModel {
        listen_addr: Var::Absent,
        root: Some(root),
        index: None,
        assets_path: None,
        threads: Var::Absent,
        queue_size: Var::Absent,
        gzip: Var::Absent,
        brotli: Var::Absent,
        deny_dotfiles: Var::Absent,
        request_timeout_secs: Var::Absent,
        shutdown_timeout_secs: Var::Absent,
        extra_headers: Var::Absent,
    }
}

/// The settings that nothing but the document root makes: `index.html`, `/assets`, so many threads
/// and 64 times as many connections that wait, sidecars of both kinds, no dotfiles, five seconds
/// for a request and ten for stopping.
pub open spec fn defaults(root: Seq<u8>, listen: ListenAddr, threads: int) -> ConfigModel {
    ConfigModel {
        listen_addr: listen,
        root,
        index: seq![encode_utf8("index.html"@)],
        assets_prefix: seq![encode_utf8("assets"@)],
        threads,
        queue_size: threads * 64,
        gzip_enabled: true,
        brotli_enabled: true,
        deny_dotfiles: true,
        request_timeout_secs: 5,
        shutdown_timeout_secs: 10,
        extra_headers: seq![],
    }
}

proof fn lemma_default_paths()
    ensures
        config::relative_path("STATIKA_INDEX"@, encode_utf8("index.html"@)) == Ok::<
            Seq<Seq<u8>>,
            ConfigProblem,
        >(seq![encode_utf8("index.html"@)]),
        config::url_prefix("STATIKA_ASSETS_PATH"@, encode_utf8("/assets"@)) == Ok::<
            Seq<Seq<u8>>,
            ConfigProblem,
        >(seq![encode_utf8("assets"@)]),
{
    reveal_strlit("index.html");
    reveal_strlit("assets");
    reveal_strlit("/assets");
    assert(is_ascii_chars("index.html"@));
    assert(is_ascii_chars("assets"@));
    assert(is_ascii_chars("/assets"@));
    is_ascii_chars_encode_utf8("index.html"@);
    is_ascii_chars_encode_utf8("assets"@);
    is_ascii_chars_encode_utf8("/assets"@);
    let index = encode_utf8("index.html"@);
    let assets = encode_utf8("assets"@);
    assert(index =~= seq![105u8, 110, 100, 101, 120, 46, 104, 116, 109, 108]);
    assert(assets =~= seq![97u8, 115, 115, 101, 116, 115]);
    assert(encode_utf8("/assets"@) =~= seq![47u8] + assets);
    assert(!index.contains(47u8) && !index.contains(0u8) && !index.contains(92u8));
    assert(!assets.contains(47u8) && !assets.contains(0u8) && !assets.contains(92u8));
    assert(usable(index) && usable(assets));
    assert(bytes::joined_by(seq![index], 47u8) == index);
    assert(bytes::joined_by(seq![assets], 47u8) == assets);
    relative_paths_are_read("STATIKA_INDEX"@, seq![index]);
    url_prefixes_are_read("STATIKA_ASSETS_PATH"@, seq![assets]);
}

/// The number of threads where none is set: one for each processor, at least one and at most 32.
pub open spec fn usual_threads(processors: Option<usize>) -> int {
    match processors {
        Some(n) if 1 <= n <= 32 => n as int,
        Some(n) if n > 32 => 32,
        _ => 1,
    }
}

/// With nothing set but an absolute document root, the settings are the defaults.
pub proof fn the_root_is_enough(root: Seq<u8>, listen: ListenAddr, processors: Option<usize>)
    requires
        root.len() > 0,
        root[0] == 47,
    ensures
        config::configuration(bare(root), Some(listen), processors) == Ok::<
            ConfigModel,
            ConfigProblem,
        >(defaults(root, listen, usual_threads(processors))),
{
    lemma_default_paths();
}

/// The server does not start without an absolute document root, nor without an address to listen
/// on.
pub proof fn the_root_is_needed(
    env: EnvironmentModel,
    listen: Option<ListenAddr>,
    processors: Option<usize>,
)
    requires
        listen is None || env.root is None || env.root->0.len() == 0 || env.root->0[0] != 47,
    ensures
        config::configuration(env, listen, processors) is Err,
        listen is None ==> config::configuration(env, listen, processors) == Err::<
            ConfigModel,
            ConfigProblem,
        >(
            ConfigProblem::Invalid(
                "STATIKA_LISTEN_ADDR"@,
                match env.listen_addr {
                    Var::Text(raw) => raw,
                    _ => "<non-UTF-8>"@,
                },
            ),
        ),
        listen is Some && env.root is None ==> config::configuration(env, listen, processors)
            == Err::<ConfigModel, ConfigProblem>(ConfigProblem::Missing("STATIKA_ROOT"@)),
        listen is Some && env.root is Some ==> config::configuration(env, listen, processors)
            == Err::<ConfigModel, ConfigProblem>(
            ConfigProblem::Invalid("STATIKA_ROOT"@, text::lossy(env.root->0)),
        ),
{
}

/// The outcome of a configuration in which one variable gives its setting or its problem.
pub open spec fn with<T>(
    setting: Result<T, ConfigProblem>,
    settings: spec_fn(T) -> ConfigModel,
) -> Result<ConfigModel, ConfigProblem> {
    match setting {
        Ok(value) => Ok(settings(value)),
        Err(problem) => Err(problem),
    }
}

/// Each variable makes its own setting, under its own name, and no other; the number of threads
/// makes that of the connections that wait, too, where none is set for them.
pub proof fn variables_make_their_own_settings(
    root: Seq<u8>,
    listen: ListenAddr,
    processors: Option<usize>,
    var: Var,
    raw: Seq<u8>,
)
    requires
        root.len() > 0,
        root[0] == 47,
    ensures
        ({
            let made = |env: EnvironmentModel|
                config::configuration(env, Some(listen), processors);
            let usual = defaults(root, listen, usual_threads(processors));
            &&& made(EnvironmentModel { index: Some(raw), ..bare(root) }) == with(
                config::relative_path("STATIKA_INDEX"@, raw),
                |index: Seq<Seq<u8>>| ConfigModel { index, ..usual },
            )
            &&& made(EnvironmentModel { assets_path: Some(raw), ..bare(root) }) == with(
                config::url_prefix("STATIKA_ASSETS_PATH"@, raw),
                |assets_prefix: Seq<Seq<u8>>| ConfigModel { assets_prefix, ..usual },
            )
            &&& made(EnvironmentModel { threads: var, ..bare(root) }) == with(
                config::bounded_number(
                    "STATIKA_THREADS"@,
                    var,
                    usual_threads(processors),
                    1,
                    256,
                ),
                |threads: int| defaults(root, listen, threads),
            )
            &&& made(EnvironmentModel { queue_size: var, ..bare(root) }) == with(
                config::bounded_number(
                    "STATIKA_QUEUE_SIZE"@,
                    var,
                    usual_threads(processors) * 64,
                    1,
                    65_536,
                ),
                |queue_size: int| ConfigModel { queue_size, ..usual },
            )
            &&& made(EnvironmentModel { gzip: var, ..bare(root) }) == with(
                config::switch("STATIKA_GZIP"@, var, true),
                |gzip_enabled: bool| ConfigModel { gzip_enabled, ..usual },
            )
            &&& made(EnvironmentModel { brotli: var, ..bare(root) }) == with(
                config::switch("STATIKA_BROTLI"@, var, true),
                |brotli_enabled: bool| ConfigModel { brotli_enabled, ..usual },
            )
            &&& made(EnvironmentModel { deny_dotfiles: var, ..bare(root) }) == with(
                config::switch("STATIKA_DENY_DOTFILES"@, var, true),
                |deny_dotfiles: bool| ConfigModel { deny_dotfiles, ..usual },
            )
            &&& made(EnvironmentModel { request_timeout_secs: var, ..bare(root) }) == with(
                config::bounded_number("STATIKA_REQUEST_TIMEOUT_SECS"@, var, 5, 1, 300),
                |request_timeout_secs: int| ConfigModel { request_timeout_secs, ..usual },
            )
            &&& made(EnvironmentModel { shutdown_timeout_secs: var, ..bare(root) }) == with(
                config::bounded_number("STATIKA_SHUTDOWN_TIMEOUT_SECS"@, var, 10, 1, 300),
                |shutdown_timeout_secs: int| ConfigModel { shutdown_timeout_secs, ..usual },
            )
            &&& made(EnvironmentModel { extra_headers: var, ..bare(root) }) == with(
                config::extra_headers("STATIKA_EXTRA_HEADERS"@, var),
                |extra_headers: Seq<(Seq<char>, Seq<char>)>| ConfigModel { extra_headers, ..usual },
            )
        }),
{
    lemma_default_paths();
}

/// Whether a configuration is one in which a variable gives its setting.
pub open spec fn gives<T>(setting: Result<T, ConfigProblem>, value: T) -> bool {
    setting == Ok::<T, ConfigProblem>(value)
}

/// Variables do not interfere: whatever the others are, an accepted configuration has the settings
/// that each of them gives.
pub proof fn variables_do_not_interfere(
    env: EnvironmentModel,
    listen: Option<ListenAddr>,
    processors: Option<usize>,
)
    requires
        config::configuration(env, listen, processors) is Ok,
    ensures
        ({
            let made = config::configuration(env, listen, processors)->Ok_0;
            &&& listen == Some(made.listen_addr)
            &&& env.root == Some(made.root)
            &&& env.index matches Some(raw) ==> gives(
                config::relative_path("STATIKA_INDEX"@, raw),
                made.index,
            )
            &&& env.index is None ==> made.index == seq![encode_utf8("index.html"@)]
            &&& env.assets_path matches Some(raw) ==> gives(
                config::url_prefix("STATIKA_ASSETS_PATH"@, raw),
                made.assets_prefix,
            )
            &&& env.assets_path is None ==> made.assets_prefix == seq![encode_utf8("assets"@)]
            &&& gives(
                config::bounded_number(
                    "STATIKA_THREADS"@,
                    env.threads,
                    usual_threads(processors),
                    1,
                    256,
                ),
                made.threads,
            )
            &&& gives(
                config::bounded_number(
                    "STATIKA_QUEUE_SIZE"@,
                    env.queue_size,
                    made.threads * 64,
                    1,
                    65_536,
                ),
                made.queue_size,
            )
            &&& gives(config::switch("STATIKA_GZIP"@, env.gzip, true), made.gzip_enabled)
            &&& gives(config::switch("STATIKA_BROTLI"@, env.brotli, true), made.brotli_enabled)
            &&& gives(
                config::switch("STATIKA_DENY_DOTFILES"@, env.deny_dotfiles, true),
                made.deny_dotfiles,
            )
            &&& gives(
                config::bounded_number(
                    "STATIKA_REQUEST_TIMEOUT_SECS"@,
                    env.request_timeout_secs,
                    5,
                    1,
                    300,
                ),
                made.request_timeout_secs,
            )
            &&& gives(
                config::bounded_number(
                    "STATIKA_SHUTDOWN_TIMEOUT_SECS"@,
                    env.shutdown_timeout_secs,
                    10,
                    1,
                    300,
                ),
                made.shutdown_timeout_secs,
            )
            &&& gives(
                config::extra_headers("STATIKA_EXTRA_HEADERS"@, env.extra_headers),
                made.extra_headers,
            )
        }),
{
    lemma_default_paths();
}

/// A header as it is written on a line: the name, a colon, a space and the value.
pub open spec fn written(header: (Seq<char>, Seq<char>)) -> Seq<char> {
    header.0 + seq![':', ' '] + header.1
}

/// Whether a header can be written on a line: it may be configured, its name and value neither
/// begin nor end with white space, its name holds no colon, and there is no line break in it.
pub open spec fn writable(header: (Seq<char>, Seq<char>)) -> bool {
    &&& config::allowed_header(header)
    &&& text::unpadded(header.0)
    &&& text::unpadded(header.1)
    &&& !header.0.contains(':')
    &&& !header.0.contains('\n')
    &&& !header.1.contains('\n')
}

proof fn lemma_written_lines(headers: Seq<(Seq<char>, Seq<char>)>)
    requires
        headers.len() <= 32,
        forall|i: int| 0 <= i < headers.len() ==> writable(#[trigger] headers[i]),
    ensures
        config::headers_on(Seq::new(headers.len(), |i: int| written(headers[i]))) == Ok::<
            Seq<(Seq<char>, Seq<char>)>,
            Seq<char>,
        >(headers),
    decreases headers.len(),
{
    let lines = Seq::new(headers.len(), |i: int| written(headers[i]));
    if headers.len() > 0 {
        let before = headers.drop_last();
        let fewer = Seq::new(before.len(), |i: int| written(before[i]));
        assert forall|i: int| 0 <= i < before.len() implies writable(#[trigger] before[i]) by {
            assert(before[i] == headers[i]);
        }
        lemma_written_lines(before);
        let last = headers[headers.len() - 1];
        assert(writable(last));
        let none = Seq::<char>::empty();
        let gap = seq![' '];
        assert forall|i: int| 0 <= i < gap.len() implies text::is_blank(#[trigger] gap[i]) by {}
        header_lines_are_read(fewer, none, last.0, none, gap, last.1, none);
        assert(none + last.0 + none + seq![':'] + gap + last.1 + none =~= written(last));
        assert(lines =~= fewer.push(written(last)));
        assert(before.push(last) =~= headers);
    } else {
        assert(lines =~= Seq::<Seq<char>>::empty());
        assert(headers =~= Seq::<(Seq<char>, Seq<char>)>::empty());
    }
}

/// Headers that are written one to a line are read back as they are, up to 32 of them.
pub proof fn written_headers_are_read_back(
    key: Seq<char>,
    headers: Seq<(Seq<char>, Seq<char>)>,
)
    requires
        0 < headers.len() <= 32,
        forall|i: int| 0 <= i < headers.len() ==> writable(#[trigger] headers[i]),
    ensures
        config::extra_headers(
            key,
            Var::Text(
                bytes::joined_by(Seq::new(headers.len(), |i: int| written(headers[i])), '\n'),
            ),
        ) == Ok::<Seq<(Seq<char>, Seq<char>)>, ConfigProblem>(headers),
{
    let lines = Seq::new(headers.len(), |i: int| written(headers[i]));
    assert forall|i: int| 0 <= i < lines.len() implies !(#[trigger] lines[i]).contains('\n') by {
        let header = headers[i];
        assert(writable(header));
        let line = written(header);
        assert forall|k: int| 0 <= k < line.len() implies line[k] != '\n' by {
            if k < header.0.len() {
                assert(line[k] == header.0[k]);
                assert(header.0.contains(header.0[k]));
            } else if k >= header.0.len() + 2 {
                assert(line[k] == header.1[k - header.0.len() - 2]);
                assert(header.1.contains(header.1[k - header.0.len() - 2]));
            }
        }
    }
    bytes::splitting_undoes_joining(lines, '\n');
    lemma_written_lines(headers);
}

/// A configuration whose variables are read back is the one that was meant, headers with colons in
/// their values included.
pub proof fn configured_headers_reach_the_configuration(
    root: Seq<u8>,
    listen: ListenAddr,
    processors: Option<usize>,
    headers: Seq<(Seq<char>, Seq<char>)>,
)
    requires
        root.len() > 0,
        root[0] == 47,
        0 < headers.len() <= 32,
        forall|i: int| 0 <= i < headers.len() ==> writable(#[trigger] headers[i]),
    ensures
        ({
            let raw = bytes::joined_by(
                Seq::new(headers.len(), |i: int| written(headers[i])),
                '\n',
            );
            let env = EnvironmentModel { extra_headers: Var::Text(raw), ..bare(root) };
            config::configuration(env, Some(listen), processors) matches Ok(made)
                && made.extra_headers == headers
        }),
{
    let raw = bytes::joined_by(Seq::new(headers.len(), |i: int| written(headers[i])), '\n');
    written_headers_are_read_back("STATIKA_EXTRA_HEADERS"@, headers);
    variables_make_their_own_settings(root, listen, processors, Var::Text(raw), root);
}

/// A problem with the headers shows the line that is refused, and the lines behind it do not
/// matter.
pub proof fn problems_show_their_line(
    key: Seq<char>,
    lines: Seq<Seq<char>>,
    more: Seq<Seq<char>>,
    line: Seq<char>,
)
    requires
        lines.len() > 0,
        config::headers_on(lines) == Err::<Seq<(Seq<char>, Seq<char>)>, Seq<char>>(line),
        forall|i: int| 0 <= i < lines.len() ==> !(#[trigger] lines[i]).contains('\n'),
        forall|i: int| 0 <= i < more.len() ==> !(#[trigger] more[i]).contains('\n'),
    ensures
        config::extra_headers(key, Var::Text(bytes::joined_by(lines + more, '\n'))) == Err::<
            Seq<(Seq<char>, Seq<char>)>,
            ConfigProblem,
        >(ConfigProblem::Invalid(key, line)),
{
    let all = lines + more;
    assert forall|i: int| 0 <= i < all.len() implies !(#[trigger] all[i]).contains('\n') by {
        if i < lines.len() {
            assert(all[i] == lines[i]);
        } else {
            assert(all[i] == more[i - lines.len()]);
        }
    }
    bytes::splitting_undoes_joining(all, '\n');
    lemma_still_refused(lines, more, line);
}

proof fn lemma_still_refused(lines: Seq<Seq<char>>, more: Seq<Seq<char>>, line: Seq<char>)
    requires
        config::headers_on(lines) == Err::<Seq<(Seq<char>, Seq<char>)>, Seq<char>>(line),
    ensures
        config::headers_on(lines + more) == Err::<Seq<(Seq<char>, Seq<char>)>, Seq<char>>(line),
    decreases more.len(),
{
    if more.len() == 0 {
        assert(lines + more =~= lines);
    } else {
        lemma_still_refused(lines, more.drop_last(), line);
        assert((lines + more).drop_last() =~= lines + more.drop_last());
    }
}

/// A prefix may end in one slash, but not in two.
pub proof fn two_slashes_at_the_end_are_refused(key: Seq<char>, inner: Seq<u8>)
    ensures
        config::url_prefix(key, seq![47u8] + inner + seq![47u8, 47]) == Err::<
            Seq<Seq<u8>>,
            ConfigProblem,
        >(ConfigProblem::Invalid(key, text::lossy(inner + seq![47u8]))),
{
    let path = seq![47u8] + inner + seq![47u8, 47];
    let kept = inner + seq![47u8];
    let none = Seq::<u8>::empty();
    assert(path.last() == 47);
    assert(path.subrange(1, path.len() - 1) =~= kept);
    assert(kept =~= inner + seq![47u8] + none);
    bytes::the_last_piece_is_behind_the_last_separator(inner, 47u8, none);
    let components = bytes::split(kept, 47u8);
    bytes::lemma_split_is_not_empty(kept, 47u8);
    assert(components[components.len() - 1] == none);
}

} // verus!
