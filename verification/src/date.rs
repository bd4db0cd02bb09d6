//! Dates as HTTP writes them, such as `Sun, 06 Nov 1994 08:49:37 GMT`.

use vstd::prelude::*;
use vstd::slice::*;
use vstd::utf8::*;

use crate::bytes::equal_text;
use crate::calendar;
use crate::calendar::{civil_from_days, days_from_civil, days_in_month};
use crate::text;
use crate::text::push_padded;

verus! {

const SECONDS_PER_DAY: i64 = 86_400;

/// The name of a day of the week, counted from Sunday as 0.
pub open spec fn weekday_name(weekday: int) -> Seq<char> {
    if weekday == 0 {
        "Sun"@
    } else if weekday == 1 {
        "Mon"@
    } else if weekday == 2 {
        "Tue"@
    } else if weekday == 3 {
        "Wed"@
    } else if weekday == 4 {
        "Thu"@
    } else if weekday == 5 {
        "Fri"@
    } else {
        "Sat"@
    }
}

/// The name of a month, counted from January as 1.
pub open spec fn month_name(month: int) -> Seq<char> {
    if month == 1 {
        "Jan"@
    } else if month == 2 {
        "Feb"@
    } else if month == 3 {
        "Mar"@
    } else if month == 4 {
        "Apr"@
    } else if month == 5 {
        "May"@
    } else if month == 6 {
        "Jun"@
    } else if month == 7 {
        "Jul"@
    } else if month == 8 {
        "Aug"@
    } else if month == 9 {
        "Sep"@
    } else if month == 10 {
        "Oct"@
    } else if month == 11 {
        "Nov"@
    } else {
        "Dec"@
    }
}

/// A year with at least four characters, filled up with zeros behind the sign.
pub open spec fn year_text(year: i32) -> Seq<char> {
    if year < 0 {
        "-"@ + text::padded((-year) as nat, 3)
    } else {
        text::padded(year as nat, 4)
    }
}

/// An HTTP date put together from its fields.
#[verifier::opaque]
pub open spec fn date_text(
    weekday: int,
    date: (int, int, int),
    hour: int,
    minute: int,
    second: int,
) -> Seq<char> {
    weekday_name(weekday) + ", "@ + text::padded(date.2 as nat, 2) + " "@ + month_name(date.1)
        + " "@ + year_text(date.0 as i32) + " "@ + text::padded(hour as nat, 2) + ":"@
        + text::padded(minute as nat, 2) + ":"@ + text::padded(second as nat, 2) + " GMT"@
}

/// The HTTP date of a moment given in seconds since 1 January 1970; moments before that day are
/// written as its start.
pub open spec fn http_date_text(unix_seconds: int) -> Seq<char> {
    let seconds = if unix_seconds < 0 { 0 } else { unix_seconds };
    let days = seconds / 86_400;
    let of_day = seconds % 86_400;
    date_text(
        (days + 4) % 7,
        calendar::civil_date(days),
        of_day / 3600,
        of_day % 3600 / 60,
        of_day % 60,
    )
}

fn weekday_str(weekday: i64) -> (name: &'static str)
    requires
        0 <= weekday < 7,
    ensures
        name@ == weekday_name(weekday as int),
{
    match weekday {
        0 => "Sun",
        1 => "Mon",
        2 => "Tue",
        3 => "Wed",
        4 => "Thu",
        5 => "Fri",
        _ => "Sat",
    }
}

fn month_str(month: u32) -> (name: &'static str)
    requires
        1 <= month <= 12,
    ensures
        name@ == month_name(month as int),
{
    match month {
        1 => "Jan",
        2 => "Feb",
        3 => "Mar",
        4 => "Apr",
        5 => "May",
        6 => "Jun",
        7 => "Jul",
        8 => "Aug",
        9 => "Sep",
        10 => "Oct",
        11 => "Nov",
        _ => "Dec",
    }
}

/// Writes a moment, given in seconds since 1 January 1970, as an HTTP date.
pub fn http_date(unix_seconds: i64) -> (date: String)
    ensures
        date@ == http_date_text(unix_seconds as int),
{
    let seconds: i64 = if unix_seconds < 0 { 0 } else { unix_seconds };
    let days: i64 = seconds / SECONDS_PER_DAY;
    let second_of_day: i64 = seconds % SECONDS_PER_DAY;
    let hour: i64 = second_of_day / 3600;
    let minute: i64 = (second_of_day % 3600) / 60;
    let second: i64 = second_of_day % 60;
    proof {
        calendar::every_day_has_a_date(days as int);
    }
    let (year, month, day) = civil_from_days(days);
    let weekday: i64 = (days + 4) % 7;

    let mut out = String::new();
    out.append(weekday_str(weekday));
    out.append(", ");
    push_padded(&mut out, day as u128, 2);
    out.append(" ");
    out.append(month_str(month));
    out.append(" ");
    if year < 0 {
        out.append("-");
        push_padded(&mut out, (-(year as i64)) as u128, 3);
    } else {
        push_padded(&mut out, year as u128, 4);
    }
    out.append(" ");
    push_padded(&mut out, hour as u128, 2);
    out.append(":");
    push_padded(&mut out, minute as u128, 2);
    out.append(":");
    push_padded(&mut out, second as u128, 2);
    out.append(" GMT");
    proof {
        reveal(date_text);
    }
    assert(out@ =~= http_date_text(unix_seconds as int));
    out
}

/// Whether the byte is an ASCII digit.
pub open spec fn decimal_digit(b: u8) -> bool {
    48 <= b <= 57
}

/// The number that two ASCII digits write.
pub open spec fn two_digits(s: Seq<u8>) -> Option<int> {
    if s.len() == 2 && decimal_digit(s[0]) && decimal_digit(s[1]) {
        Some((s[0] - 48) * 10 + (s[1] - 48))
    } else {
        None
    }
}

/// The number that four ASCII digits write.
pub open spec fn four_digits(s: Seq<u8>) -> Option<int> {
    if s.len() == 4 && decimal_digit(s[0]) && decimal_digit(s[1]) && decimal_digit(s[2])
        && decimal_digit(s[3]) {
        Some((s[0] - 48) * 1000 + (s[1] - 48) * 100 + (s[2] - 48) * 10 + (s[3] - 48))
    } else {
        None
    }
}

/// The month whose name the bytes spell.
pub open spec fn month_number(s: Seq<u8>) -> Option<int> {
    if exists|month: int| 1 <= month <= 12 && s == encode_utf8(#[trigger] month_name(month)) {
        Some(choose|month: int| 1 <= month <= 12 && s == encode_utf8(#[trigger] month_name(month)))
    } else {
        None
    }
}

/// Whether the bytes have the length and the punctuation of an HTTP date.
pub open spec fn date_layout(s: Seq<u8>) -> bool {
    &&& s.len() == 29
    &&& s[3] == ',' as u8
    &&& s[4] == ' ' as u8
    &&& s[7] == ' ' as u8
    &&& s[11] == ' ' as u8
    &&& s[16] == ' ' as u8
    &&& s[19] == ':' as u8
    &&& s[22] == ':' as u8
    &&& s[25] == ' ' as u8
    &&& s.subrange(26, 29) == encode_utf8("GMT"@)
}

/// The moment that an HTTP date names, in seconds since 1 January 1970. The name of the weekday is
/// not looked at, a leap second counts as the second before it, and dates before 1970 are refused.
pub open spec fn http_date_seconds(s: Seq<u8>) -> Option<int> {
    if !date_layout(s) {
        None
    } else {
        match (
            two_digits(s.subrange(5, 7)),
            month_number(s.subrange(8, 11)),
            four_digits(s.subrange(12, 16)),
            two_digits(s.subrange(17, 19)),
            two_digits(s.subrange(20, 22)),
            two_digits(s.subrange(23, 25)),
        ) {
            (Some(day), Some(month), Some(year), Some(hour), Some(minute), Some(second)) => {
                if year >= 1970 && calendar::valid_date(year, month, day) && hour <= 23 && minute <= 59
                    && second <= 60 {
                    Some(
                        calendar::day_number(year, month, day) * 86_400 + hour * 3600 + minute * 60 + if second
                            == 60 {
                            59
                        } else {
                            second
                        },
                    )
                } else {
                    None
                }
            },
            _ => None,
        }
    }
}

fn is_digit(b: u8) -> (yes: bool)
    ensures
        yes == decimal_digit(b),
{
    48 <= b && b <= 57
}

/// Reads a number of exactly two digits.
pub fn parse_2_digits(bytes: &[u8]) -> (number: Option<u32>)
    ensures
        number is Some <==> two_digits(bytes@) is Some,
        number matches Some(n) ==> n == two_digits(bytes@)->0 && n < 100,
{
    if bytes.len() != 2 || !is_digit(bytes[0]) || !is_digit(bytes[1]) {
        return None;
    }
    Some((bytes[0] - 48) as u32 * 10 + (bytes[1] - 48) as u32)
}

/// Reads a number of exactly four digits.
pub fn parse_4_digits(bytes: &[u8]) -> (number: Option<i32>)
    ensures
        number is Some <==> four_digits(bytes@) is Some,
        number matches Some(n) ==> n == four_digits(bytes@)->0 && 0 <= n < 10_000,
{
    if bytes.len() != 4 || !is_digit(bytes[0]) || !is_digit(bytes[1]) || !is_digit(bytes[2])
        || !is_digit(bytes[3]) {
        return None;
    }
    Some(
        (bytes[0] - 48) as i32 * 1000 + (bytes[1] - 48) as i32 * 100 + (bytes[2] - 48) as i32 * 10
            + (bytes[3] - 48) as i32,
    )
}

/// What the name of each month looks like.
proof fn lemma_month_names()
    ensures
        month_name(1) =~= seq!['J', 'a', 'n'],
        month_name(2) =~= seq!['F', 'e', 'b'],
        month_name(3) =~= seq!['M', 'a', 'r'],
        month_name(4) =~= seq!['A', 'p', 'r'],
        month_name(5) =~= seq!['M', 'a', 'y'],
        month_name(6) =~= seq!['J', 'u', 'n'],
        month_name(7) =~= seq!['J', 'u', 'l'],
        month_name(8) =~= seq!['A', 'u', 'g'],
        month_name(9) =~= seq!['S', 'e', 'p'],
        month_name(10) =~= seq!['O', 'c', 't'],
        month_name(11) =~= seq!['N', 'o', 'v'],
        month_name(12) =~= seq!['D', 'e', 'c'],
{
    reveal_strlit("Jan");
    reveal_strlit("Feb");
    reveal_strlit("Mar");
    reveal_strlit("Apr");
    reveal_strlit("May");
    reveal_strlit("Jun");
    reveal_strlit("Jul");
    reveal_strlit("Aug");
    reveal_strlit("Sep");
    reveal_strlit("Oct");
    reveal_strlit("Nov");
    reveal_strlit("Dec");
}

/// The months have different names.
proof fn lemma_months_differ(first: int, second: int)
    requires
        1 <= first <= 12,
        1 <= second <= 12,
        month_name(first) == month_name(second),
    ensures
        first == second,
{
    lemma_month_names();
    let a = month_name(first);
    let b = month_name(second);
    assert(a[0] == b[0] && a[1] == b[1] && a[2] == b[2]);
}

/// The bytes of a month's name are read as that month.
proof fn lemma_month_number(month: int)
    requires
        1 <= month <= 12,
    ensures
        month_number(encode_utf8(month_name(month))) == Some(month),
{
    let s = encode_utf8(month_name(month));
    let found = choose|m: int| 1 <= m <= 12 && s == encode_utf8(#[trigger] month_name(m));
    assert(1 <= month <= 12 && s == encode_utf8(month_name(month)));
    encode_utf8_decode_utf8(month_name(month));
    encode_utf8_decode_utf8(month_name(found));
    lemma_months_differ(month, found);
}

/// Reads the name of a month.
pub fn parse_month(bytes: &[u8]) -> (month: Option<u32>)
    ensures
        month is Some <==> month_number(bytes@) is Some,
        month matches Some(m) ==> m == month_number(bytes@)->0 && 1 <= m <= 12,
{
    for month in 1..13u32
        invariant
            forall|m: int| 1 <= m < month ==> bytes@ != encode_utf8(#[trigger] month_name(m)),
    {
        if equal_text(bytes, month_str(month)) {
            proof {
                lemma_month_number(month as int);
            }
            return Some(month);
        }
    }
    None
}

/// Reads an HTTP date.
pub fn parse_http_date(value: &str) -> (seconds: Option<i64>)
    ensures
        seconds is Some <==> http_date_seconds(encode_utf8(value@)) is Some,
        seconds matches Some(s) ==> s == http_date_seconds(encode_utf8(value@))->0,
{
    let bytes = value.as_bytes();
    if bytes.len() != 29 || bytes[3] != ',' as u8 || bytes[4] != ' ' as u8 || bytes[7] != ' ' as u8
        || bytes[11] != ' ' as u8 || bytes[16] != ' ' as u8 || bytes[19] != ':' as u8 || bytes[22]
        != ':' as u8 || bytes[25] != ' ' as u8 || !equal_text(slice_subrange(bytes, 26, 29), "GMT") {
        return None;
    }
    let day = parse_2_digits(slice_subrange(bytes, 5, 7))?;
    let month = parse_month(slice_subrange(bytes, 8, 11))?;
    let year = parse_4_digits(slice_subrange(bytes, 12, 16))?;
    let hour = parse_2_digits(slice_subrange(bytes, 17, 19))?;
    let minute = parse_2_digits(slice_subrange(bytes, 20, 22))?;
    let second = parse_2_digits(slice_subrange(bytes, 23, 25))?;
    if year < 1970 || day == 0 || day > days_in_month(year, month) || hour > 23 || minute > 59
        || second > 60 {
        return None;
    }
    proof {
        calendar::lemma_days_to_year(year as int);
        calendar::lemma_day_of_year(year as int, month as int, day as int);
    }
    Some(
        days_from_civil(year, month, day) * SECONDS_PER_DAY + hour as i64 * 3600 + minute as i64 * 60
            + (if second > 59 { 59 } else { second }) as i64,
    )
}

/// Reads an HTTP date from raw bytes, which must be UTF-8.
pub fn parse_http_date_bytes(value: &[u8]) -> (seconds: Option<i64>)
    ensures
        seconds is Some <==> valid_utf8(value@) && http_date_seconds(value@) is Some,
        seconds matches Some(s) ==> s == http_date_seconds(value@)->0,
{
    match core::str::from_utf8(value) {
        Ok(text) => parse_http_date(text),
        Err(_) => None,
    }
}

/// A number below a hundred fills two places.
proof fn lemma_two_places(n: nat)
    requires
        n < 100,
    ensures
        text::padded(n, 2) =~= seq![text::digit((n / 10) as int), text::digit((n % 10) as int)],
{
    reveal_with_fuel(text::padded, 3);
}

/// A number below ten thousand fills four places.
proof fn lemma_four_places(n: nat)
    requires
        n < 10_000,
    ensures
        text::padded(n, 4) =~= seq![
            text::digit((n / 1000) as int),
            text::digit((n / 100 % 10) as int),
            text::digit((n / 10 % 10) as int),
            text::digit((n % 10) as int),
        ],
{
    reveal_with_fuel(text::padded, 5);
}

/// A moment from 1970 to 9999 lies in a year of four digits.
proof fn lemma_four_digit_year(days: int)
    requires
        0 <= days <= 2_932_896,
    ensures
        1970 <= calendar::civil_date(days).0 <= 9999,
{
    calendar::every_day_has_a_date(days);
    let date = calendar::civil_date(days);
    calendar::lemma_day_of_year(date.0, date.1, date.2);
    if date.0 < 1970 {
        calendar::lemma_years_ascend(date.0, 1970);
    } else if date.0 >= 10_000 {
        calendar::lemma_days_to_year(10_000);
        if date.0 > 10_000 {
            calendar::lemma_years_ascend(10_000, date.0);
        }
    }
}

/// Every weekday's name is three ASCII letters.
proof fn lemma_weekday_names(weekday: int)
    ensures
        weekday_name(weekday).len() == 3,
        is_ascii_chars(weekday_name(weekday)),
{
    reveal_strlit("Sun");
    reveal_strlit("Mon");
    reveal_strlit("Tue");
    reveal_strlit("Wed");
    reveal_strlit("Thu");
    reveal_strlit("Fri");
    reveal_strlit("Sat");
    let name = weekday_name(weekday);
    assert(name =~= seq![name[0], name[1], name[2]]);
}

/// Whether the fields of a date and time of day are in range and the year has four digits.
spec fn plain_fields(date: (int, int, int), hour: int, minute: int, second: int) -> bool {
    &&& 1970 <= date.0 <= 9999
    &&& calendar::valid_date(date.0, date.1, date.2)
    &&& 0 <= hour <= 23
    &&& 0 <= minute <= 59
    &&& 0 <= second <= 59
}

/// The characters of an HTTP date in a year of four digits, place by place.
proof fn lemma_date_places(weekday: int, date: (int, int, int), hour: int, minute: int, second: int)
    requires
        plain_fields(date, hour, minute, second),
    ensures
        ({
            let m = month_name(date.1);
            let t = date_text(weekday, date, hour, minute, second);
            &&& t.len() == 29
            &&& t[3] == ',' && t[4] == ' ' && t[7] == ' ' && t[11] == ' ' && t[16] == ' '
            &&& t[19] == ':' && t[22] == ':' && t[25] == ' '
            &&& t[5] == text::digit(date.2 / 10) && t[6] == text::digit(date.2 % 10)
            &&& m.len() == 3 && t[8] == m[0] && t[9] == m[1] && t[10] == m[2]
            &&& t[12] == text::digit(date.0 / 1000) && t[13] == text::digit(date.0 / 100 % 10)
            &&& t[14] == text::digit(date.0 / 10 % 10) && t[15] == text::digit(date.0 % 10)
            &&& t[17] == text::digit(hour / 10) && t[18] == text::digit(hour % 10)
            &&& t[20] == text::digit(minute / 10) && t[21] == text::digit(minute % 10)
            &&& t[23] == text::digit(second / 10) && t[24] == text::digit(second % 10)
            &&& t[26] == 'G' && t[27] == 'M' && t[28] == 'T'
        }),
{
    reveal(date_text);
    lemma_weekday_names(weekday);
    lemma_month_names();
    lemma_two_places(date.2 as nat);
    lemma_four_places(date.0 as nat);
    lemma_two_places(hour as nat);
    lemma_two_places(minute as nat);
    lemma_two_places(second as nat);
    reveal_strlit(", ");
    reveal_strlit(" ");
    reveal_strlit(":");
    reveal_strlit(" GMT");
}

/// Decimal digits are ASCII.
proof fn lemma_padded_ascii(n: nat, width: nat)
    ensures
        is_ascii_chars(text::padded(n, width)),
    decreases n, width,
{
    if n != 0 || width != 0 {
        lemma_padded_ascii(n / 10, (if width == 0 { 0 } else { width - 1 }) as nat);
    }
}

/// What a decimal digit looks like as a byte.
proof fn lemma_digit(d: int)
    requires
        0 <= d <= 9,
    ensures
        text::digit(d) as u8 == 48 + d,
        '0' <= text::digit(d) <= '9',
{
}

/// An HTTP date in a year of four digits is ASCII, so its bytes are its characters.
proof fn lemma_date_ascii(weekday: int, date: (int, int, int), hour: int, minute: int, second: int)
    requires
        plain_fields(date, hour, minute, second),
    ensures
        is_ascii_chars(date_text(weekday, date, hour, minute, second)),
        is_ascii_chars(month_name(date.1)),
{
    reveal(date_text);
    lemma_weekday_names(weekday);
    lemma_month_names();
    lemma_padded_ascii(date.2 as nat, 2);
    lemma_padded_ascii(date.0 as nat, 4);
    lemma_padded_ascii(hour as nat, 2);
    lemma_padded_ascii(minute as nat, 2);
    lemma_padded_ascii(second as nat, 2);
    reveal_strlit(", ");
    reveal_strlit(" ");
    reveal_strlit(":");
    reveal_strlit(" GMT");
    assert(", "@ =~= seq![',', ' ']);
    assert(" "@ =~= seq![' ']);
    assert(":"@ =~= seq![':']);
    assert(" GMT"@ =~= seq![' ', 'G', 'M', 'T']);
    let name = month_name(date.1);
    assert(name =~= seq![name[0], name[1], name[2]]);
}

/// Two bytes that spell a number in digits are read as that number.
proof fn lemma_two_digits(s: Seq<u8>, i: int, n: int)
    requires
        0 <= n <= 99,
        0 <= i,
        i + 2 <= s.len(),
        s[i] == text::digit(n / 10) as u8,
        s[i + 1] == text::digit(n % 10) as u8,
    ensures
        two_digits(s.subrange(i, i + 2)) == Some(n),
{
    lemma_digit(n / 10);
    lemma_digit(n % 10);
}

/// Four bytes that spell a number in digits are read as that number.
proof fn lemma_four_digits(s: Seq<u8>, i: int, n: int)
    requires
        0 <= n <= 9999,
        0 <= i,
        i + 4 <= s.len(),
        s[i] == text::digit(n / 1000) as u8,
        s[i + 1] == text::digit(n / 100 % 10) as u8,
        s[i + 2] == text::digit(n / 10 % 10) as u8,
        s[i + 3] == text::digit(n % 10) as u8,
    ensures
        four_digits(s.subrange(i, i + 4)) == Some(n),
{
    lemma_digit(n / 1000);
    lemma_digit(n / 100 % 10);
    lemma_digit(n / 10 % 10);
    lemma_digit(n % 10);
    assert(n / 100 == n / 10 / 10);
    assert(n / 1000 == n / 100 / 10);
    let t = s.subrange(i, i + 4);
    assert(t[0] == 48 + n / 1000 && t[1] == 48 + n / 100 % 10);
    assert(t[2] == 48 + n / 10 % 10 && t[3] == 48 + n % 10);
}

/// The fields of an HTTP date are read back from its bytes.
proof fn lemma_date_read_back(
    s: Seq<u8>,
    weekday: int,
    date: (int, int, int),
    hour: int,
    minute: int,
    second: int,
)
    requires
        plain_fields(date, hour, minute, second),
        s.len() == 29,
        forall|i: int|
            0 <= i < 29 ==> s[i] == #[trigger] date_text(weekday, date, hour, minute, second)[i] as u8,
        s.subrange(8, 11) == encode_utf8(month_name(date.1)),
        s.subrange(26, 29) == encode_utf8("GMT"@),
    ensures
        http_date_seconds(s) == Some(
            calendar::day_number(date.0, date.1, date.2) * 86_400 + hour * 3600 + minute * 60
                + second,
        ),
{
    let chars = date_text(weekday, date, hour, minute, second);
    lemma_date_places(weekday, date, hour, minute, second);
    assert(date_layout(s)) by {
        assert(s[3] == chars[3] as u8 && s[4] == chars[4] as u8 && s[7] == chars[7] as u8);
        assert(s[11] == chars[11] as u8 && s[16] == chars[16] as u8 && s[19] == chars[19] as u8);
        assert(s[22] == chars[22] as u8 && s[25] == chars[25] as u8);
    }
    assert(month_number(s.subrange(8, 11)) == Some(date.1)) by {
        lemma_month_number(date.1);
    }
    assert(two_digits(s.subrange(5, 7)) == Some(date.2)) by {
        assert(s[5] == chars[5] as u8 && s[6] == chars[6] as u8);
        lemma_two_digits(s, 5, date.2);
    }
    assert(four_digits(s.subrange(12, 16)) == Some(date.0)) by {
        assert(s[12] == chars[12] as u8 && s[13] == chars[13] as u8);
        assert(s[14] == chars[14] as u8 && s[15] == chars[15] as u8);
        lemma_four_digits(s, 12, date.0);
    }
    assert(two_digits(s.subrange(17, 19)) == Some(hour)) by {
        assert(s[17] == chars[17] as u8 && s[18] == chars[18] as u8);
        lemma_two_digits(s, 17, hour);
    }
    assert(two_digits(s.subrange(20, 22)) == Some(minute)) by {
        assert(s[20] == chars[20] as u8 && s[21] == chars[21] as u8);
        lemma_two_digits(s, 20, minute);
    }
    assert(two_digits(s.subrange(23, 25)) == Some(second)) by {
        assert(s[23] == chars[23] as u8 && s[24] == chars[24] as u8);
        lemma_two_digits(s, 23, second);
    }
}

/// A piece of an ASCII text has the bytes of the text's piece.
proof fn lemma_ascii_piece(chars: Seq<char>, from: int, to: int)
    requires
        is_ascii_chars(chars),
        0 <= from <= to <= chars.len(),
    ensures
        encode_utf8(chars).subrange(from, to) == encode_utf8(chars.subrange(from, to)),
{
    let piece = chars.subrange(from, to);
    is_ascii_chars_encode_utf8(chars);
    assert(is_ascii_chars(piece));
    is_ascii_chars_encode_utf8(piece);
    assert forall|i: int| 0 <= i < to - from implies encode_utf8(chars)[from + i] == encode_utf8(
        piece,
    )[i] by {
        assert(piece[i] == chars[from + i]);
    }
    assert(encode_utf8(chars).subrange(from, to) =~= encode_utf8(piece));
}

/// The bytes of an HTTP date in a year of four digits.
proof fn lemma_date_bytes(weekday: int, date: (int, int, int), hour: int, minute: int, second: int)
    requires
        plain_fields(date, hour, minute, second),
    ensures
        ({
            let chars = date_text(weekday, date, hour, minute, second);
            let s = encode_utf8(chars);
            &&& s.len() == 29
            &&& forall|i: int| 0 <= i < 29 ==> s[i] == #[trigger] chars[i] as u8
            &&& s.subrange(8, 11) == encode_utf8(month_name(date.1))
            &&& s.subrange(26, 29) == encode_utf8("GMT"@)
        }),
{
    let chars = date_text(weekday, date, hour, minute, second);
    let name = month_name(date.1);
    lemma_date_ascii(weekday, date, hour, minute, second);
    lemma_date_places(weekday, date, hour, minute, second);
    is_ascii_chars_encode_utf8(chars);
    assert(chars.subrange(8, 11) =~= name);
    lemma_ascii_piece(chars, 8, 11);
    assert(chars.subrange(26, 29) =~= "GMT"@) by {
        reveal_strlit("GMT");
    }
    lemma_ascii_piece(chars, 26, 29);
}

/// The seconds of a day, taken apart and put together.
proof fn lemma_time_of_day(of_day: int)
    requires
        0 <= of_day < 86_400,
    ensures
        0 <= of_day / 3600 <= 23,
        0 <= of_day % 3600 / 60 <= 59,
        0 <= of_day % 60 <= 59,
        of_day / 3600 * 3600 + of_day % 3600 / 60 * 60 + of_day % 60 == of_day,
{
    assert(of_day % 60 == of_day % 3600 % 60);
}

/// A written date is read back as the moment it was written from, for every moment of the years
/// 1970 to 9999.
pub proof fn http_dates_round_trip(unix_seconds: int)
    requires
        0 <= unix_seconds <= 253_402_300_799,
    ensures
        valid_utf8(encode_utf8(http_date_text(unix_seconds))),
        http_date_seconds(encode_utf8(http_date_text(unix_seconds))) == Some(unix_seconds),
{
    let days = unix_seconds / 86_400;
    let of_day = unix_seconds % 86_400;
    let date = calendar::civil_date(days);
    let (hour, minute, second) = (of_day / 3600, of_day % 3600 / 60, of_day % 60);
    let weekday = (days + 4) % 7;
    encode_utf8_valid_utf8(http_date_text(unix_seconds));
    calendar::every_day_has_a_date(days);
    lemma_four_digit_year(days);
    lemma_time_of_day(of_day);
    lemma_date_bytes(weekday, date, hour, minute, second);
    let s = encode_utf8(http_date_text(unix_seconds));
    lemma_date_read_back(s, weekday, date, hour, minute, second);
}

/// Every moment before 1970 is written as the start of 1970.
pub proof fn early_dates_are_clamped(unix_seconds: int)
    requires
        unix_seconds < 0,
    ensures
        http_date_text(unix_seconds) == http_date_text(0),
{
}

/// The days of the week have their names.
pub proof fn weekdays_have_their_names()
    ensures
        weekday_name(0) == seq!['S', 'u', 'n'],
        weekday_name(1) == seq!['M', 'o', 'n'],
        weekday_name(2) == seq!['T', 'u', 'e'],
        weekday_name(3) == seq!['W', 'e', 'd'],
        weekday_name(4) == seq!['T', 'h', 'u'],
        weekday_name(5) == seq!['F', 'r', 'i'],
        weekday_name(6) == seq!['S', 'a', 't'],
{
    reveal_strlit("Sun");
    reveal_strlit("Mon");
    reveal_strlit("Tue");
    reveal_strlit("Wed");
    reveal_strlit("Thu");
    reveal_strlit("Fri");
    reveal_strlit("Sat");
    assert("Sun"@ =~= seq!['S', 'u', 'n']);
    assert("Mon"@ =~= seq!['M', 'o', 'n']);
    assert("Tue"@ =~= seq!['T', 'u', 'e']);
    assert("Wed"@ =~= seq!['W', 'e', 'd']);
    assert("Thu"@ =~= seq!['T', 'h', 'u']);
    assert("Fri"@ =~= seq!['F', 'r', 'i']);
    assert("Sat"@ =~= seq!['S', 'a', 't']);
}

/// A date begins with the name of its day of the week. The first of January 1970 was a Thursday,
/// and a week has seven days.
pub proof fn dates_begin_with_the_weekday(unix_seconds: int)
    requires
        0 <= unix_seconds,
    ensures
        http_date_text(unix_seconds).take(3) == weekday_name((unix_seconds / 86_400 + 4) % 7),
{
    reveal(date_text);
    let name = weekday_name((unix_seconds / 86_400 + 4) % 7);
    lemma_weekday_names((unix_seconds / 86_400 + 4) % 7);
    assert(http_date_text(unix_seconds).take(3) =~= name);
}

/// A date shows, place by place, the day of its month, the month, the year and the time of day of
/// the moment, in the years 1970 to 9999.
pub proof fn dates_show_their_fields(unix_seconds: int)
    requires
        0 <= unix_seconds <= 253_402_300_799,
    ensures
        ({
            let t = http_date_text(unix_seconds);
            let date = calendar::civil_date(unix_seconds / 86_400);
            let of_day = unix_seconds % 86_400;
            let two = |at: int, n: int|
                t[at] as int == 48 + n / 10 && t[at + 1] as int == 48 + n % 10;
            &&& t.len() == 29
            &&& t[3] == ',' && t[4] == ' ' && t[7] == ' ' && t[11] == ' ' && t[16] == ' '
            &&& t[19] == ':' && t[22] == ':' && t[25] == ' '
            &&& t[26] == 'G' && t[27] == 'M' && t[28] == 'T'
            &&& two(5, date.2)
            &&& t.subrange(8, 11) == month_name(date.1)
            &&& two(12, date.0 / 100)
            &&& two(14, date.0 % 100)
            &&& two(17, of_day / 3600)
            &&& two(20, of_day / 60 % 60)
            &&& two(23, of_day % 60)
        }),
{
    let days = unix_seconds / 86_400;
    let of_day = unix_seconds % 86_400;
    let date = calendar::civil_date(days);
    calendar::every_day_has_a_date(days);
    lemma_four_digit_year(days);
    lemma_time_of_day(of_day);
    assert(of_day % 3600 / 60 == of_day / 60 % 60);
    let (hour, minute, second) = (of_day / 3600, of_day % 3600 / 60, of_day % 60);
    let weekday = (days + 4) % 7;
    lemma_date_places(weekday, date, hour, minute, second);
    let t = http_date_text(unix_seconds);
    assert(t.subrange(8, 11) =~= month_name(date.1));
    lemma_digit(date.2 / 10);
    lemma_digit(date.2 % 10);
    lemma_digit(date.0 / 1000);
    lemma_digit(date.0 / 100 % 10);
    lemma_digit(date.0 / 10 % 10);
    lemma_digit(date.0 % 10);
    lemma_digit(hour / 10);
    lemma_digit(hour % 10);
    lemma_digit(minute / 10);
    lemma_digit(minute % 10);
    lemma_digit(second / 10);
    lemma_digit(second % 10);
    assert(date.0 / 100 / 10 == date.0 / 1000);
    assert(date.0 % 100 / 10 == date.0 / 10 % 10);
    assert(date.0 % 100 % 10 == date.0 % 10);
}

/// The name of the weekday is not looked at when a date is read.
pub proof fn weekdays_are_not_looked_at(first: Seq<u8>, second: Seq<u8>)
    requires
        first.len() == second.len(),
        forall|i: int| 3 <= i < first.len() ==> #[trigger] first[i] == second[i],
    ensures
        http_date_seconds(first) == http_date_seconds(second),
{
    if first.len() == 29 {
        assert(first.subrange(5, 7) =~= second.subrange(5, 7));
        assert(first.subrange(8, 11) =~= second.subrange(8, 11));
        assert(first.subrange(12, 16) =~= second.subrange(12, 16));
        assert(first.subrange(17, 19) =~= second.subrange(17, 19));
        assert(first.subrange(20, 22) =~= second.subrange(20, 22));
        assert(first.subrange(23, 25) =~= second.subrange(23, 25));
        assert(first.subrange(26, 29) =~= second.subrange(26, 29));
    }
}

/// A leap second is read as the second before it.
pub proof fn leap_seconds_are_read_as_the_second_before(leap: Seq<u8>, plain: Seq<u8>)
    requires
        leap.len() == plain.len() == 29,
        forall|i: int|
            0 <= i < 29 && i != 23 && i != 24 ==> #[trigger] leap[i] == plain[i],
        leap[23] == 54,
        leap[24] == 48,
        plain[23] == 53,
        plain[24] == 57,
    ensures
        http_date_seconds(leap) == http_date_seconds(plain),
{
    assert(leap.subrange(5, 7) =~= plain.subrange(5, 7));
    assert(leap.subrange(8, 11) =~= plain.subrange(8, 11));
    assert(leap.subrange(12, 16) =~= plain.subrange(12, 16));
    assert(leap.subrange(17, 19) =~= plain.subrange(17, 19));
    assert(leap.subrange(20, 22) =~= plain.subrange(20, 22));
    assert(leap.subrange(26, 29) =~= plain.subrange(26, 29));
    assert(two_digits(leap.subrange(23, 25)) == Some(60int));
    assert(two_digits(plain.subrange(23, 25)) == Some(59int));
}

/// The number that two digits at a place write.
pub open spec fn number_at(s: Seq<u8>, at: int) -> int {
    (s[at] - 48) * 10 + (s[at + 1] - 48)
}

/// Bytes of another length, with other punctuation, with anything but digits in the place of
/// numbers, with a year before 1970, or with a time that no day has, are not read as a date.
pub proof fn other_dates_are_refused(s: Seq<u8>)
    requires
        s.len() != 29 || s[3] != 44 || s[4] != 32 || s[7] != 32 || s[11] != 32 || s[16] != 32
            || s[19] != 58 || s[22] != 58 || s[25] != 32 || s[26] != 71 || s[27] != 77 || s[28] != 84
            || (exists|i: int|
            (5 <= i <= 6 || 12 <= i <= 15 || 17 <= i <= 18 || 20 <= i <= 21 || 23 <= i <= 24) && !(48
                <= #[trigger] s[i] <= 57)) || number_at(s, 5) == 0 || number_at(s, 5) > 31
            || number_at(s, 12) * 100 + number_at(s, 14) < 1970 || number_at(s, 17) > 23
            || number_at(s, 20) > 59 || number_at(s, 23) > 60,
    ensures
        http_date_seconds(s) is None,
{
    reveal_strlit("GMT");
    assert(is_ascii_chars("GMT"@));
    is_ascii_chars_encode_utf8("GMT"@);
    if http_date_seconds(s) is Some {
        let end = s.subrange(26, 29);
        assert(end[0] == s[26] && end[1] == s[27] && end[2] == s[28]);
        assert(end == encode_utf8("GMT"@));
        assert(encode_utf8("GMT"@)[0] == 71 && encode_utf8("GMT"@)[1] == 77 && encode_utf8(
            "GMT"@,
        )[2] == 84);
        let (day, year) = (s.subrange(5, 7), s.subrange(12, 16));
        let (hour, minute, second) = (s.subrange(17, 19), s.subrange(20, 22), s.subrange(23, 25));
        assert(two_digits(day) is Some && four_digits(year) is Some);
        assert(two_digits(hour) is Some && two_digits(minute) is Some && two_digits(second) is Some);
        assert(day[0] == s[5] && day[1] == s[6]);
        assert(year[0] == s[12] && year[1] == s[13] && year[2] == s[14] && year[3] == s[15]);
        assert(hour[0] == s[17] && hour[1] == s[18]);
        assert(minute[0] == s[20] && minute[1] == s[21]);
        assert(second[0] == s[23] && second[1] == s[24]);
    }
}

/// What is read as a date has the name of a month in its place, and a day that the month has.
pub proof fn read_dates_are_in_the_calendar(s: Seq<u8>)
    requires
        http_date_seconds(s) is Some,
    ensures
        exists|month: int|
            {
                &&& 1 <= month <= 12
                &&& s.subrange(8, 11) == encode_utf8(#[trigger] month_name(month))
                &&& number_at(s, 5) <= calendar::month_length(
                    number_at(s, 12) * 100 + number_at(s, 14),
                    month,
                )
            },
{
    let month = month_number(s.subrange(8, 11))->0;
    assert(s.subrange(8, 11) == encode_utf8(month_name(month)));
    let (day, year) = (s.subrange(5, 7), s.subrange(12, 16));
    assert(day[0] == s[5] && day[1] == s[6]);
    assert(year[0] == s[12] && year[1] == s[13] && year[2] == s[14] && year[3] == s[15]);
    assert(calendar::valid_date(four_digits(year)->0, month, two_digits(day)->0));
}

/// A date shows its year with as many digits as it takes, four at least, whatever comes behind the
/// year 9999.
pub proof fn dates_show_the_whole_year(unix_seconds: int)
    requires
        0 <= unix_seconds,
        calendar::civil_date(unix_seconds / 86_400).0 <= i32::MAX,
    ensures
        ({
            let t = http_date_text(unix_seconds);
            let year = calendar::civil_date(unix_seconds / 86_400).0;
            &&& t.len() >= 29
            &&& text::numeral_value(t.subrange(12, t.len() - 13), 10) == year
            &&& t[11] == ' '
            &&& t[t.len() - 13] == ' '
        }),
{
    let days = unix_seconds / 86_400;
    let of_day = unix_seconds % 86_400;
    let date = calendar::civil_date(days);
    calendar::every_day_has_a_date(days);
    calendar::lemma_day_of_year(date.0, date.1, date.2);
    if date.0 < 1970 {
        calendar::lemma_years_ascend(date.0, 1970);
    }
    lemma_time_of_day(of_day);
    let (hour, minute, second) = (of_day / 3600, of_day % 3600 / 60, of_day % 60);
    let weekday = (days + 4) % 7;
    let digits = text::padded(date.0 as nat, 4);
    reveal(date_text);
    lemma_weekday_names(weekday);
    lemma_month_names();
    lemma_two_places(date.2 as nat);
    lemma_two_places(hour as nat);
    lemma_two_places(minute as nat);
    lemma_two_places(second as nat);
    reveal_strlit(", ");
    reveal_strlit(" ");
    reveal_strlit(":");
    reveal_strlit(" GMT");
    text::decimals_have_their_value(date.0 as nat, 4);
    let t = http_date_text(unix_seconds);
    let start = weekday_name(weekday) + ", "@ + text::padded(date.2 as nat, 2) + " "@ + month_name(
        date.1,
    ) + " "@;
    let end = " "@ + text::padded(hour as nat, 2) + ":"@ + text::padded(minute as nat, 2) + ":"@
        + text::padded(second as nat, 2) + " GMT"@;
    assert(start.len() == 12 && end.len() == 13);
    assert(year_text(date.0 as i32) == digits);
    assert(t =~= start + digits + end);
    assert(t.subrange(12, t.len() - 13) =~= digits);
    assert(t[11] == start[11]);
    assert(t[t.len() - 13] == end[0]);
}

} // verus!
