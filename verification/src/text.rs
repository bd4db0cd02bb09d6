//! Text: numerals, characters, trimming and UTF-8.

use vstd::prelude::*;
use vstd::slice::*;
use vstd::utf8::*;

use crate::bytes;

verus! {

/// Appends one character; specifies `String::push`, which puts `c` at the end of the string.
pub assume_specification[ String::push ](s: &mut String, c: char)
    ensures
        final(s)@ == old(s)@.push(c),
;

/// The character that stands for the digit `d` in bases up to sixteen.
pub open spec fn digit(d: int) -> char {
    if d < 10 {
        (48 + d) as char
    } else {
        (87 + d) as char
    }
}

/// `n` in decimal, filled up with zeros on the left to at least `width` digits.
pub open spec fn padded(n: nat, width: nat) -> Seq<char>
    decreases n, width,
{
    if n == 0 && width == 0 {
        seq![]
    } else {
        padded(n / 10, (if width == 0 { 0 } else { width - 1 }) as nat).push(digit((n % 10) as int))
    }
}

/// `n` in decimal.
pub open spec fn decimal(n: nat) -> Seq<char> {
    padded(n, 1)
}

/// `n` in lower-case hexadecimal, filled up with zeros on the left to at least `width` digits.
pub open spec fn padded_hex(n: nat, width: nat) -> Seq<char>
    decreases n, width,
{
    if n == 0 && width == 0 {
        seq![]
    } else {
        padded_hex(n / 16, (if width == 0 { 0 } else { width - 1 }) as nat).push(
            digit((n % 16) as int),
        )
    }
}

/// `n` in lower-case hexadecimal.
pub open spec fn hexadecimal(n: nat) -> Seq<char> {
    padded_hex(n, 1)
}

fn digit_char(d: u8) -> (c: char)
    requires
        d < 16,
    ensures
        c == digit(d as int),
{
    if d < 10 {
        (48 + d) as char
    } else {
        (87 + d) as char
    }
}

/// Appends `n` in decimal with at least `width` digits.
pub fn push_padded(out: &mut String, n: u128, width: u8)
    ensures
        final(out)@ == old(out)@ + padded(n as nat, width as nat),
    decreases n, width,
{
    if n == 0 && width == 0 {
        assert(out@ + Seq::<char>::empty() == out@);
        return;
    }
    push_padded(out, n / 10, if width == 0 { 0 } else { width - 1 });
    out.push(digit_char((n % 10) as u8));
    assert(out@ =~= old(out)@ + padded(n as nat, width as nat));
}

/// Appends `n` in decimal.
pub fn push_decimal(out: &mut String, n: u128)
    ensures
        final(out)@ == old(out)@ + decimal(n as nat),
{
    push_padded(out, n, 1);
}

/// Appends `n` in hexadecimal with at least `width` digits.
pub fn push_padded_hex(out: &mut String, n: u64, width: u8)
    ensures
        final(out)@ == old(out)@ + padded_hex(n as nat, width as nat),
    decreases n, width,
{
    if n == 0 && width == 0 {
        assert(out@ + Seq::<char>::empty() == out@);
        return;
    }
    push_padded_hex(out, n / 16, if width == 0 { 0 } else { width - 1 });
    out.push(digit_char((n % 16) as u8));
    assert(out@ =~= old(out)@ + padded_hex(n as nat, width as nat));
}

/// The characters of a text.
pub fn chars_of(text: &str) -> (chars: Vec<char>)
    ensures
        chars@ == text@,
{
    let mut chars: Vec<char> = Vec::new();
    for c in it: text.chars()
        invariant
            chars@ == text@.take(it.index() as int),
            it.seq() == text@,
    {
        chars.push(c);
    }
    chars
}

/// The text that the characters make up.
pub fn text_of(chars: &[char]) -> (text: String)
    ensures
        text@ == chars@,
{
    let mut text = String::new();
    for i in 0..chars.len()
        invariant
            text@ == chars@.take(i as int),
    {
        text.push(chars[i]);
        assert(chars@.take(i as int).push(chars@[i as int]) =~= chars@.take(i + 1));
    }
    assert(chars@.take(chars@.len() as int) =~= chars@);
    text
}

/// The text that `String::from_utf8_lossy` reads out of `bytes`: the characters that the bytes
/// encode, with U+FFFD in place of what is not UTF-8.
pub uninterp spec fn utf8_lossy(bytes: Seq<u8>) -> Seq<char>;

/// Calls `String::from_utf8_lossy`. The result depends on the bytes alone, and is exactly the text
/// that they encode when they are valid UTF-8. How the replacement characters are placed otherwise
/// is left to the name.
#[verifier::external_body]
pub(crate) fn from_utf8_lossy(bytes: &[u8]) -> (text: String)
    ensures
        text@ == utf8_lossy(bytes@),
        valid_utf8(bytes@) ==> text@ == decode_utf8(bytes@),
{
    String::from_utf8_lossy(bytes).into_owned()
}

/// The text that bytes are read as: what they encode when they are valid UTF-8, else what
/// [`utf8_lossy`] makes of them.
pub open spec fn lossy(bytes: Seq<u8>) -> Seq<char> {
    if valid_utf8(bytes) {
        decode_utf8(bytes)
    } else {
        utf8_lossy(bytes)
    }
}

/// Text that was written as bytes is read back as it was.
pub proof fn written_texts_are_read_back(text: Seq<char>)
    ensures
        lossy(encode_utf8(text)) == text,
{
    encode_utf8_valid_utf8(text);
    encode_utf8_decode_utf8(text);
}

/// The error of `core::str::from_utf8`.
#[verifier::external_type_specification]
#[verifier::external_body]
pub struct ExUtf8Error(core::str::Utf8Error);

/// `core::str::from_utf8` accepts exactly the byte sequences that are valid UTF-8, and the text it
/// hands out is made of the very bytes it was given.
pub assume_specification[ core::str::from_utf8 ](v: &[u8]) -> (result: Result<
    &str,
    core::str::Utf8Error,
>)
    ensures
        result is Ok <==> valid_utf8(v@),
        result matches Ok(s) ==> encode_utf8(s@) == v@,
;

/// Whether two texts are the same.
pub fn same_text(first: &str, second: &str) -> (same: bool)
    ensures
        same == (first@ == second@),
{
    proof {
        encode_utf8_decode_utf8(first@);
        encode_utf8_decode_utf8(second@);
    }
    bytes::equal(first.as_bytes(), second.as_bytes())
}

/// Whether the character has Unicode's `White_Space` property.
pub open spec fn white_space(c: char) -> bool {
    ||| '\u{9}' <= c <= '\u{d}'
    ||| c == ' '
    ||| c == '\u{85}'
    ||| c == '\u{a0}'
    ||| c == '\u{1680}'
    ||| '\u{2000}' <= c <= '\u{200a}'
    ||| c == '\u{2028}'
    ||| c == '\u{2029}'
    ||| c == '\u{202f}'
    ||| c == '\u{205f}'
    ||| c == '\u{3000}'
}

fn is_white_space(c: char) -> (yes: bool)
    ensures
        yes == white_space(c),
{
    ('\u{9}' <= c && c <= '\u{d}') || c == ' ' || c == '\u{85}' || c == '\u{a0}' || c == '\u{1680}'
        || ('\u{2000}' <= c && c <= '\u{200a}') || c == '\u{2028}' || c == '\u{2029}' || c
        == '\u{202f}' || c == '\u{205f}' || c == '\u{3000}'
}

/// The text from its first character that is not white space on.
pub open spec fn trim_start(text: Seq<char>) -> Seq<char>
    decreases text.len(),
{
    if text.len() > 0 && white_space(text[0]) {
        trim_start(text.drop_first())
    } else {
        text
    }
}

/// The text up to its last character that is not white space.
pub open spec fn trim_end(text: Seq<char>) -> Seq<char>
    decreases text.len(),
{
    if text.len() > 0 && white_space(text.last()) {
        trim_end(text.drop_last())
    } else {
        text
    }
}

/// The text without the white space at both ends.
pub open spec fn trimmed(text: Seq<char>) -> Seq<char> {
    trim_end(trim_start(text))
}

/// Cuts the white space off both ends.
pub fn trim(text: &[char]) -> (rest: &[char])
    ensures
        rest@ == trimmed(text@),
{
    let mut start: usize = 0;
    assert(text@.skip(0) =~= text@);
    while start < text.len() && is_white_space(text[start])
        invariant
            start <= text.len(),
            trim_start(text@.skip(start as int)) == trim_start(text@),
        decreases text.len() - start,
    {
        assert(text@.skip(start as int).drop_first() =~= text@.skip(start + 1));
        start = start + 1;
    }
    let mut end: usize = text.len();
    assert(text@.subrange(start as int, end as int) =~= text@.skip(start as int));
    while start < end && is_white_space(text[end - 1])
        invariant
            start <= end <= text.len(),
            trim_end(text@.subrange(start as int, end as int)) == trimmed(text@),
        decreases end,
    {
        assert(text@.subrange(start as int, end as int).drop_last() =~= text@.subrange(
            start as int,
            end - 1,
        ));
        end = end - 1;
    }
    slice_subrange(text, start, end)
}

/// The contents of borrowed pieces of a text.
pub open spec fn pieces(slices: Seq<&[char]>) -> Seq<Seq<char>> {
    slices.map_values(|slice: &[char]| slice@)
}

/// Cuts a text at every separator.
pub fn split_at_each(text: &[char], separator: char) -> (slices: Vec<&[char]>)
    ensures
        pieces(slices@) == bytes::split(text@, separator),
{
    let mut slices: Vec<&[char]> = Vec::new();
    let mut rest: &[char] = text;
    assert(pieces(slices@) + bytes::split(rest@, separator) =~= bytes::split(text@, separator));
    loop
        invariant
            pieces(slices@) + bytes::split(rest@, separator) == bytes::split(text@, separator),
        decreases rest@.len(),
    {
        let mut i: usize = 0;
        while i < rest.len() && rest[i] != separator
            invariant
                i <= rest.len(),
                forall|j: int| 0 <= j < i ==> rest@[j] != separator,
            decreases rest.len() - i,
        {
            i = i + 1;
        }
        proof {
            bytes::lemma_index_of_first_is(rest@, separator, i as int);
        }
        let ghost before = slices@;
        if i == rest.len() {
            slices.push(rest);
            assert(pieces(slices@) =~= pieces(before) + bytes::split(rest@, separator));
            return slices;
        }
        slices.push(slice_subrange(rest, 0, i));
        assert(rest@.subrange(0, i as int) =~= rest@.take(i as int));
        assert(rest@.skip(i + 1) =~= rest@.subrange(i + 1, rest@.len() as int));
        assert(pieces(slices@) =~= pieces(before) + seq![rest@.take(i as int)]);
        assert(pieces(slices@) + bytes::split(rest@.skip(i + 1), separator) =~= pieces(before)
            + bytes::split(rest@, separator));
        rest = slice_subrange(rest, i + 1, rest.len());
    }
}

/// The character with an upper-case ASCII letter turned into the lower-case one.
pub open spec fn lower_char(c: char) -> char {
    if 'A' <= c <= 'Z' {
        (c as u32 + 32) as char
    } else {
        c
    }
}

/// The text with its ASCII letters in lower case.
pub open spec fn lowered(text: Seq<char>) -> Seq<char> {
    text.map_values(|c: char| lower_char(c))
}

/// The text with its ASCII letters in lower case.
pub fn to_lower(text: &[char]) -> (lower: String)
    ensures
        lower@ == lowered(text@),
{
    let mut lower = String::new();
    for i in 0..text.len()
        invariant
            lower@ == lowered(text@.take(i as int)),
    {
        let c = text[i];
        if 'A' <= c && c <= 'Z' {
            lower.push((c as u8 + 32) as char);
        } else {
            lower.push(c);
        }
        assert(lower@ =~= lowered(text@.take(i + 1)));
    }
    assert(text@.take(text@.len() as int) =~= text@);
    lower
}

/// Whether a character is white space, by its number.
pub open spec fn is_blank(c: char) -> bool {
    let n = c as int;
    ||| 9 <= n <= 13
    ||| n == 32
    ||| n == 133
    ||| n == 160
    ||| n == 5760
    ||| 8192 <= n <= 8202
    ||| n == 8232
    ||| n == 8233
    ||| n == 8239
    ||| n == 8287
    ||| n == 12288
}

/// Whether all characters are white space.
pub open spec fn blank(text: Seq<char>) -> bool {
    forall|i: int| 0 <= i < text.len() ==> is_blank(#[trigger] text[i])
}

/// Whether a text neither begins nor ends with white space.
pub open spec fn unpadded(text: Seq<char>) -> bool {
    text.len() > 0 ==> !is_blank(text[0]) && !is_blank(text.last())
}

/// Trimming takes off the white space around, and nothing else.
pub proof fn trimming_takes_off_padding(left: Seq<char>, middle: Seq<char>, right: Seq<char>)
    requires
        blank(left),
        blank(right),
        unpadded(middle),
    ensures
        trimmed(left + middle + right) == middle,
{
    let whole = left + middle + right;
    if middle.len() == 0 {
        assert forall|i: int| 0 <= i < whole.len() implies white_space(#[trigger] whole[i]) by {
            if i < left.len() {
                assert(whole[i] == left[i]);
            } else {
                assert(whole[i] == right[i - left.len()]);
            }
        }
        lemma_all_white(whole);
        assert(middle =~= seq![]);
    } else {
        assert(!white_space(middle[0]) && !white_space(middle.last()));
        lemma_trim_start(left, middle + right);
        assert(whole =~= left + (middle + right));
        lemma_trim_end(middle, right);
    }
}

proof fn lemma_all_white(text: Seq<char>)
    requires
        forall|i: int| 0 <= i < text.len() ==> white_space(#[trigger] text[i]),
    ensures
        trim_start(text) == Seq::<char>::empty(),
        trimmed(text) == Seq::<char>::empty(),
    decreases text.len(),
{
    if text.len() > 0 {
        let rest = text.drop_first();
        assert forall|i: int| 0 <= i < rest.len() implies white_space(#[trigger] rest[i]) by {
            assert(rest[i] == text[i + 1]);
        }
        lemma_all_white(rest);
        assert(white_space(text[0]));
    } else {
        assert(text =~= Seq::<char>::empty());
    }
}

proof fn lemma_trim_start(left: Seq<char>, rest: Seq<char>)
    requires
        blank(left),
        rest.len() > 0,
        !white_space(rest[0]),
    ensures
        trim_start(left + rest) == rest,
    decreases left.len(),
{
    let whole = left + rest;
    if left.len() == 0 {
        assert(whole =~= rest);
    } else {
        let less = left.drop_first();
        assert(white_space(left[0]));
        assert forall|i: int| 0 <= i < less.len() implies is_blank(#[trigger] less[i]) by {
            assert(less[i] == left[i + 1]);
        }
        assert(whole.drop_first() =~= less + rest);
        lemma_trim_start(less, rest);
    }
}

proof fn lemma_trim_end(middle: Seq<char>, right: Seq<char>)
    requires
        blank(right),
        middle.len() > 0,
        !white_space(middle.last()),
    ensures
        trim_end(middle + right) == middle,
    decreases right.len(),
{
    let whole = middle + right;
    if right.len() == 0 {
        assert(whole =~= middle);
    } else {
        let less = right.drop_last();
        assert(white_space(right[right.len() - 1]));
        assert forall|i: int| 0 <= i < less.len() implies is_blank(#[trigger] less[i]) by {
            assert(less[i] == right[i]);
        }
        assert(whole.drop_last() =~= middle + less);
        lemma_trim_end(middle, less);
    }
}

/// Whether two texts are the same but for the case of ASCII letters: at each place the same
/// character, or the two cases of one letter, which lie 32 apart.
pub open spec fn same_but_for_case(first: Seq<char>, second: Seq<char>) -> bool {
    &&& first.len() == second.len()
    &&& forall|i: int|
        0 <= i < first.len() ==> {
            ||| #[trigger] first[i] == second[i]
            ||| 65 <= first[i] as int <= 90 && second[i] as int == first[i] as int + 32
            ||| 65 <= second[i] as int <= 90 && first[i] as int == second[i] as int + 32
        }
}

/// Lower case is the same for two texts exactly when they are the same but for the case of ASCII
/// letters, and it is a text without upper-case ones.
pub proof fn lower_case_forgets_only_the_case(first: Seq<char>, second: Seq<char>)
    ensures
        lowered(first) == lowered(second) <==> same_but_for_case(first, second),
        same_but_for_case(first, lowered(first)),
        forall|i: int|
            0 <= i < first.len() ==> !(65 <= #[trigger] lowered(first)[i] as int <= 90),
{
    let (a, b) = (lowered(first), lowered(second));
    assert forall|i: int| 0 <= i < first.len() implies a[i] as int == if 65 <= first[i] as int
        <= 90 {
        first[i] as int + 32
    } else {
        first[i] as int
    } by {
        lemma_lower_char(first[i]);
    }
    assert forall|i: int| 0 <= i < second.len() implies b[i] as int == if 65 <= second[i] as int
        <= 90 {
        second[i] as int + 32
    } else {
        second[i] as int
    } by {
        lemma_lower_char(second[i]);
    }
    if a == b {
        assert(a.len() == b.len());
        assert forall|i: int| 0 <= i < first.len() implies ({
            ||| #[trigger] first[i] == second[i]
            ||| 65 <= first[i] as int <= 90 && second[i] as int == first[i] as int + 32
            ||| 65 <= second[i] as int <= 90 && first[i] as int == second[i] as int + 32
        }) by {
            assert(a[i] == b[i]);
        }
    } else if same_but_for_case(first, second) {
        assert forall|i: int| 0 <= i < a.len() implies a[i] == b[i] by {
            assert(first[i] == second[i] || 65 <= first[i] as int <= 90 && second[i] as int
                == first[i] as int + 32 || 65 <= second[i] as int <= 90 && first[i] as int
                == second[i] as int + 32);
        }
        assert(a =~= b);
    }
}

proof fn lemma_lower_char(c: char)
    ensures
        lower_char(c) as int == if 65 <= c as int <= 90 {
            c as int + 32
        } else {
            c as int
        },
{
}

/// The value of a numeral in a base up to sixteen, by its digits `0` to `9` and `a` to `f`.
pub open spec fn numeral_value(numeral: Seq<char>, base: nat) -> nat
    decreases numeral.len(),
{
    if numeral.len() == 0 {
        0
    } else {
        let n = numeral.last() as int;
        numeral_value(numeral.drop_last(), base) * base + (if n <= 57 {
            n - 48
        } else {
            n - 87
        }) as nat
    }
}

/// A number in decimal has the value of the number, digits alone, as many as asked for at least,
/// and no more than that unless they are needed.
pub proof fn decimals_have_their_value(n: nat, width: nat)
    ensures
        numeral_value(padded(n, width), 10) == n,
        forall|i: int|
            0 <= i < padded(n, width).len() ==> 48 <= #[trigger] padded(n, width)[i] as int <= 57,
        padded(n, width).len() >= width,
        padded(n, width).len() > width ==> padded(n, width)[0] as int != 48,
    decreases n, width,
{
    let numeral = padded(n, width);
    if n != 0 || width != 0 {
        let less = (if width == 0 { 0 } else { width - 1 }) as nat;
        decimals_have_their_value(n / 10, less);
        let before = padded(n / 10, less);
        let d = digit((n % 10) as int);
        assert(d as int == 48 + n % 10);
        assert(numeral == before.push(d));
        assert(numeral.drop_last() =~= before);
        assert forall|i: int| 0 <= i < numeral.len() implies 48 <= #[trigger] numeral[i] as int
            <= 57 by {
            if i < before.len() {
                assert(numeral[i] == before[i]);
            }
        }
        if numeral.len() > width {
            if before.len() > less {
                assert(numeral[0] == before[0]);
            } else {
                assert(before.len() == 0 && width == 0);
                if n / 10 != 0 {
                    assert(padded(n / 10, 0).len() > 0);
                }
                assert(numeral[0] == d);
            }
        }
    }
}

/// A number in hexadecimal has the value of the number, lower-case digits alone, as many as asked
/// for at least, and no more than that unless they are needed.
pub proof fn hexadecimals_have_their_value(n: nat, width: nat)
    ensures
        numeral_value(padded_hex(n, width), 16) == n,
        forall|i: int|
            0 <= i < padded_hex(n, width).len() ==> {
                let c = #[trigger] padded_hex(n, width)[i] as int;
                48 <= c <= 57 || 97 <= c <= 102
            },
        padded_hex(n, width).len() >= width,
        padded_hex(n, width).len() > width ==> padded_hex(n, width)[0] as int != 48,
    decreases n, width,
{
    let numeral = padded_hex(n, width);
    if n != 0 || width != 0 {
        let less = (if width == 0 { 0 } else { width - 1 }) as nat;
        hexadecimals_have_their_value(n / 16, less);
        let before = padded_hex(n / 16, less);
        let d = digit((n % 16) as int);
        assert(d as int == if n % 16 < 10 {
            48 + n % 16
        } else {
            87 + n % 16
        });
        assert(numeral == before.push(d));
        assert(numeral.drop_last() =~= before);
        assert forall|i: int| 0 <= i < numeral.len() implies ({
            let c = #[trigger] numeral[i] as int;
            48 <= c <= 57 || 97 <= c <= 102
        }) by {
            if i < before.len() {
                assert(numeral[i] == before[i]);
            }
        }
        if numeral.len() > width {
            if before.len() > less {
                assert(numeral[0] == before[0]);
            } else {
                assert(before.len() == 0 && width == 0);
                if n / 16 != 0 {
                    assert(padded_hex(n / 16, 0).len() > 0);
                }
                assert(numeral[0] == d);
            }
        }
    }
}

} // verus!
