//! Byte sequences: comparing, searching, splitting and trimming.

use vstd::prelude::*;
use vstd::slice::*;

verus! {

pub const LF: u8 = 10;

pub const CR: u8 = 13;

pub const SPACE: u8 = 32;

pub const PERCENT: u8 = 37;

pub const COMMA: u8 = 44;

pub const DASH: u8 = 45;

pub const DOT: u8 = 46;

pub const SLASH: u8 = 47;

pub const ZERO: u8 = 48;

pub const ONE: u8 = 49;

pub const NINE: u8 = 57;

pub const COLON: u8 = 58;

pub const SEMICOLON: u8 = 59;

pub const QUESTION_MARK: u8 = 63;

pub const BACKSLASH: u8 = 92;

pub const UNDERSCORE: u8 = 95;

/// Whether two byte sequences are the same.
pub fn equal(first: &[u8], second: &[u8]) -> (same: bool)
    ensures
        same == (first@ == second@),
{
    if first.len() != second.len() {
        return false;
    }
    for i in 0..first.len()
        invariant
            first.len() == second.len(),
            first@.take(i as int) == second@.take(i as int),
    {
        if first[i] != second[i] {
            return false;
        }
        assert(first@.take(i + 1) =~= first@.take(i as int).push(first@[i as int]));
        assert(second@.take(i + 1) =~= second@.take(i as int).push(second@[i as int]));
    }
    assert(first@.take(first@.len() as int) =~= first@);
    assert(second@.take(second@.len() as int) =~= second@);
    true
}

/// The index of the first `x` in `s`, the length of `s` when there is none.
pub open spec fn index_of_first<T>(s: Seq<T>, x: T) -> int
    decreases s.len(),
{
    if s.len() == 0 || s[0] == x {
        0
    } else {
        1 + index_of_first(s.drop_first(), x)
    }
}

/// The pieces of `s` between the separators, empty ones included: always one more than there are
/// separators.
pub open spec fn split<T>(s: Seq<T>, separator: T) -> Seq<Seq<T>>
    decreases s.len(),
{
    let i = index_of_first(s, separator);
    proof {
        lemma_index_of_first(s, separator);
    }
    if i == s.len() {
        seq![s]
    } else {
        seq![s.take(i)] + split(s.skip(i + 1), separator)
    }
}

/// What `index_of_first` finds.
pub broadcast proof fn lemma_index_of_first<T>(s: Seq<T>, x: T)
    ensures
        0 <= #[trigger] index_of_first(s, x) <= s.len(),
        index_of_first(s, x) < s.len() ==> s[index_of_first(s, x)] == x,
        forall|i: int| 0 <= i < index_of_first(s, x) ==> s[i] != x,
    decreases s.len(),
{
    if s.len() == 0 || s[0] == x {
    } else {
        lemma_index_of_first(s.drop_first(), x);
        assert forall|i: int| 0 <= i < index_of_first(s, x) implies s[i] != x by {
            if i > 0 {
                assert(s[i] == s.drop_first()[i - 1]);
            }
        }
    }
}

/// An index with `x` at it and no `x` before it is the one that `index_of_first` finds.
pub proof fn lemma_index_of_first_is<T>(s: Seq<T>, x: T, i: int)
    requires
        0 <= i <= s.len(),
        i < s.len() ==> s[i] == x,
        forall|j: int| 0 <= j < i ==> s[j] != x,
    ensures
        index_of_first(s, x) == i,
{
    lemma_index_of_first(s, x);
    let k = index_of_first(s, x);
    if k < i {
        assert(s[k] != x);
    } else if i < k {
        assert(s[i] != x);
    }
}

/// There is always a first piece.
pub proof fn lemma_split_is_not_empty<T>(s: Seq<T>, separator: T)
    ensures
        split(s, separator).len() > 0,
{
}

/// The pieces hold no separator and nothing that the whole does not hold.
pub proof fn lemma_split_pieces<T>(s: Seq<T>, separator: T, i: int)
    requires
        0 <= i < split(s, separator).len(),
    ensures
        !split(s, separator)[i].contains(separator),
        forall|j: int|
            0 <= j < split(s, separator)[i].len() ==> s.contains(
                #[trigger] split(s, separator)[i][j],
            ),
    decreases s.len(),
{
    let k = index_of_first(s, separator);
    lemma_index_of_first(s, separator);
    if k < s.len() && i > 0 {
        let rest = s.skip(k + 1);
        lemma_split_pieces(rest, separator, i - 1);
        assert(split(s, separator)[i] == split(rest, separator)[i - 1]);
        let piece = split(s, separator)[i];
        assert forall|j: int| 0 <= j < piece.len() implies s.contains(#[trigger] piece[j]) by {
            assert(rest.contains(split(rest, separator)[i - 1][j]));
            let m = choose|m: int| 0 <= m < rest.len() && rest[m] == piece[j];
            assert(s[k + 1 + m] == piece[j]);
        }
    } else {
        assert(split(s, separator)[i] == s.take(k)) by {
            if k == s.len() {
                assert(s.take(k) =~= s);
            }
        }
    }
}

/// The index of the first byte `x`, the length when there is none.
pub fn find(bytes: &[u8], x: u8) -> (index: usize)
    ensures
        index == index_of_first(bytes@, x),
        index <= bytes.len(),
{
    let mut i: usize = 0;
    while i < bytes.len() && bytes[i] != x
        invariant
            i <= bytes.len(),
            forall|j: int| 0 <= j < i ==> bytes@[j] != x,
        decreases bytes.len() - i,
    {
        i = i + 1;
    }
    proof {
        lemma_index_of_first_is(bytes@, x, i as int);
    }
    i
}

/// Whether the byte `x` occurs.
pub fn contains(bytes: &[u8], x: u8) -> (found: bool)
    ensures
        found == bytes@.contains(x),
{
    let i = find(bytes, x);
    proof {
        lemma_index_of_first(bytes@, x);
    }
    i < bytes.len()
}

/// The contents of borrowed byte sequences.
pub open spec fn pieces(slices: Seq<&[u8]>) -> Seq<Seq<u8>> {
    slices.map_values(|slice: &[u8]| slice@)
}

/// The contents of owned byte sequences.
pub open spec fn parts(vectors: Seq<Vec<u8>>) -> Seq<Seq<u8>> {
    vectors.map_values(|vector: Vec<u8>| vector@)
}

/// Cuts the bytes at every separator.
pub fn split_at_each(bytes: &[u8], separator: u8) -> (slices: Vec<&[u8]>)
    ensures
        pieces(slices@) == split(bytes@, separator),
{
    broadcast use lemma_index_of_first;

    let mut slices: Vec<&[u8]> = Vec::new();
    let mut rest: &[u8] = bytes;
    assert(pieces(slices@) + split(rest@, separator) =~= split(bytes@, separator));
    loop
        invariant
            pieces(slices@) + split(rest@, separator) == split(bytes@, separator),
        decreases rest@.len(),
    {
        let i = find(rest, separator);
        let ghost before = slices@;
        if i == rest.len() {
            slices.push(rest);
            assert(pieces(slices@) =~= pieces(before) + split(rest@, separator));
            return slices;
        }
        slices.push(slice_subrange(rest, 0, i));
        assert(rest@.subrange(0, i as int) =~= rest@.take(i as int));
        assert(rest@.skip(i + 1) =~= rest@.subrange(i + 1, rest@.len() as int));
        assert(pieces(slices@) =~= pieces(before) + seq![rest@.take(i as int)]);
        assert(pieces(slices@) + split(rest@.skip(i + 1), separator) =~= pieces(before) + split(
            rest@,
            separator,
        ));
        rest = slice_subrange(rest, i + 1, rest.len());
    }
}

/// Whether the byte is ASCII white space: space, tab, line feed, form feed or carriage return.
pub open spec fn white(b: u8) -> bool {
    b == 32 || b == 9 || b == 10 || b == 12 || b == 13
}

/// The bytes from the first that is not white space on.
pub open spec fn trim_start(s: Seq<u8>) -> Seq<u8>
    decreases s.len(),
{
    if s.len() > 0 && white(s[0]) {
        trim_start(s.drop_first())
    } else {
        s
    }
}

/// The bytes up to the last that is not white space.
pub open spec fn trim_end(s: Seq<u8>) -> Seq<u8>
    decreases s.len(),
{
    if s.len() > 0 && white(s.last()) {
        trim_end(s.drop_last())
    } else {
        s
    }
}

/// The bytes without the white space at both ends.
pub open spec fn trimmed(s: Seq<u8>) -> Seq<u8> {
    trim_end(trim_start(s))
}

/// Whether the byte is ASCII white space.
pub fn is_white(b: u8) -> (yes: bool)
    ensures
        yes == white(b),
{
    b == 32 || b == 9 || b == 10 || b == 12 || b == 13
}

/// Cuts the ASCII white space off both ends.
pub fn trim_ascii(bytes: &[u8]) -> (rest: &[u8])
    ensures
        rest@ == trimmed(bytes@),
{
    let mut start: usize = 0;
    assert(bytes@.skip(0) =~= bytes@);
    while start < bytes.len() && is_white(bytes[start])
        invariant
            start <= bytes.len(),
            trim_start(bytes@.skip(start as int)) == trim_start(bytes@),
        decreases bytes.len() - start,
    {
        assert(bytes@.skip(start as int).drop_first() =~= bytes@.skip(start + 1));
        start = start + 1;
    }
    let mut end: usize = bytes.len();
    assert(bytes@.subrange(start as int, end as int) =~= bytes@.skip(start as int));
    while start < end && is_white(bytes[end - 1])
        invariant
            start <= end <= bytes.len(),
            trim_end(bytes@.subrange(start as int, end as int)) == trimmed(bytes@),
        decreases end,
    {
        assert(bytes@.subrange(start as int, end as int).drop_last() =~= bytes@.subrange(
            start as int,
            end - 1,
        ));
        end = end - 1;
    }
    slice_subrange(bytes, start, end)
}

/// The byte with an upper-case ASCII letter turned into the lower-case one.
pub open spec fn lower_byte(b: u8) -> u8 {
    if 65 <= b <= 90 {
        (b + 32) as u8
    } else {
        b
    }
}

/// The bytes with ASCII letters in lower case.
pub open spec fn lowered(s: Seq<u8>) -> Seq<u8> {
    s.map_values(|b: u8| lower_byte(b))
}

/// Whether two byte sequences differ at most in the case of ASCII letters.
pub open spec fn same_letters(first: Seq<u8>, second: Seq<u8>) -> bool {
    lowered(first) == lowered(second)
}

fn to_lower_byte(b: u8) -> (lower: u8)
    ensures
        lower == lower_byte(b),
{
    if 65 <= b && b <= 90 {
        b + 32
    } else {
        b
    }
}

/// Whether the bytes differ from the UTF-8 form of `text` at most in the case of ASCII letters.
pub fn eq_ignore_ascii_case(bytes: &[u8], text: &str) -> (same: bool)
    ensures
        same == same_letters(bytes@, vstd::utf8::encode_utf8(text@)),
{
    let other = text.as_bytes();
    if bytes.len() != other.len() {
        assert(lowered(bytes@).len() != lowered(other@).len());
        return false;
    }
    for i in 0..bytes.len()
        invariant
            bytes.len() == other.len(),
            other@ == vstd::utf8::encode_utf8(text@),
            forall|j: int| 0 <= j < i ==> lower_byte(bytes@[j]) == lower_byte(other@[j]),
    {
        if to_lower_byte(bytes[i]) != to_lower_byte(other[i]) {
            assert(lowered(bytes@)[i as int] != lowered(other@)[i as int]);
            return false;
        }
    }
    assert(lowered(bytes@) =~= lowered(other@));
    true
}

/// Whether the bytes are the UTF-8 form of `text`.
pub fn equal_text(bytes: &[u8], text: &str) -> (same: bool)
    ensures
        same == (bytes@ == vstd::utf8::encode_utf8(text@)),
{
    equal(bytes, text.as_bytes())
}

/// A copy of a path, component by component.
pub fn copy_parts(vectors: &[Vec<u8>]) -> (copy: Vec<Vec<u8>>)
    ensures
        parts(copy@) == parts(vectors@),
{
    let mut copy: Vec<Vec<u8>> = Vec::new();
    for i in 0..vectors.len()
        invariant
            parts(copy@) == parts(vectors@.take(i as int)),
    {
        let ghost before = copy@;
        copy.push(slice_to_vec(vectors[i].as_slice()));
        assert(parts(copy@) =~= parts(before).push(vectors@[i as int]@));
        assert(parts(copy@) =~= parts(vectors@.take(i + 1)));
    }
    assert(vectors@.take(vectors@.len() as int) =~= vectors@);
    copy
}

/// Whether the path `vectors` begins with the components of `prefix`.
pub fn parts_start_with(vectors: &[Vec<u8>], prefix: &[Vec<u8>]) -> (yes: bool)
    ensures
        yes == parts(prefix@).is_prefix_of(parts(vectors@)),
{
    if vectors.len() < prefix.len() {
        return false;
    }
    for i in 0..prefix.len()
        invariant
            prefix.len() <= vectors.len(),
            forall|j: int| 0 <= j < i ==> prefix@[j]@ == vectors@[j]@,
    {
        if !equal(prefix[i].as_slice(), vectors[i].as_slice()) {
            assert(parts(prefix@)[i as int] != parts(vectors@).take(prefix@.len() as int)[i as int]);
            return false;
        }
    }
    assert(parts(prefix@) =~= parts(vectors@).subrange(0, prefix@.len() as int));
    true
}

/// Pieces with a separator between each two of them.
pub open spec fn joined_by<T>(pieces: Seq<Seq<T>>, separator: T) -> Seq<T>
    decreases pieces.len(),
{
    if pieces.len() == 0 {
        seq![]
    } else if pieces.len() == 1 {
        pieces[0]
    } else {
        pieces[0] + seq![separator] + joined_by(pieces.skip(1), separator)
    }
}

/// Splitting takes apart what was put together with separators, as long as no piece holds one.
pub proof fn splitting_undoes_joining<T>(pieces: Seq<Seq<T>>, separator: T)
    requires
        pieces.len() > 0,
        forall|i: int| 0 <= i < pieces.len() ==> !(#[trigger] pieces[i]).contains(separator),
    ensures
        split(joined_by(pieces, separator), separator) == pieces,
    decreases pieces.len(),
{
    let whole = joined_by(pieces, separator);
    let n = pieces[0].len() as int;
    assert(!pieces[0].contains(separator));
    assert forall|j: int| 0 <= j < n implies whole[j] != separator by {
        assert(whole[j] == pieces[0][j]);
        assert(pieces[0].contains(pieces[0][j]));
    }
    if pieces.len() == 1 {
        lemma_index_of_first_is(whole, separator, n);
        assert(pieces =~= seq![pieces[0]]);
    } else {
        let rest = pieces.skip(1);
        assert forall|i: int| 0 <= i < rest.len() implies !(#[trigger] rest[i]).contains(separator) by {
            assert(rest[i] == pieces[i + 1]);
        }
        splitting_undoes_joining(rest, separator);
        assert(whole[n] == separator);
        lemma_index_of_first_is(whole, separator, n);
        assert(whole.take(n) =~= pieces[0]);
        assert(whole.skip(n + 1) =~= joined_by(rest, separator));
        assert(pieces =~= seq![pieces[0]] + rest);
    }
}

/// Joining puts together what splitting took apart.
pub proof fn joining_undoes_splitting<T>(s: Seq<T>, separator: T)
    ensures
        joined_by(split(s, separator), separator) == s,
    decreases s.len(),
{
    let k = index_of_first(s, separator);
    lemma_index_of_first(s, separator);
    let pieces = split(s, separator);
    if k < s.len() {
        let rest = s.skip(k + 1);
        joining_undoes_splitting(rest, separator);
        lemma_split_is_not_empty(rest, separator);
        assert(pieces.skip(1) =~= split(rest, separator));
        assert(pieces[0] == s.take(k));
        assert(s =~= s.take(k) + seq![separator] + rest);
    }
}

/// Whether all bytes are spaces, tabs, line feeds, form feeds or carriage returns.
pub open spec fn blank(s: Seq<u8>) -> bool {
    forall|i: int|
        0 <= i < s.len() ==> {
            let b = #[trigger] s[i];
            b == 32 || b == 9 || b == 10 || b == 12 || b == 13
        }
}

/// Whether a sequence neither begins nor ends with such a byte.
pub open spec fn unpadded(s: Seq<u8>) -> bool {
    s.len() > 0 ==> !blank(seq![s[0]]) && !blank(seq![s.last()])
}

/// Trimming takes off the white space around, and nothing else.
pub proof fn trimming_takes_off_padding(left: Seq<u8>, middle: Seq<u8>, right: Seq<u8>)
    requires
        blank(left),
        blank(right),
        unpadded(middle),
    ensures
        trimmed(left + middle + right) == middle,
{
    let whole = left + middle + right;
    if middle.len() == 0 {
        assert forall|i: int| 0 <= i < whole.len() implies white(#[trigger] whole[i]) by {
            if i < left.len() {
                assert(whole[i] == left[i]);
            } else {
                assert(whole[i] == right[i - left.len()]);
            }
        }
        lemma_all_white(whole);
        assert(middle =~= seq![]);
    } else {
        assert(!white(middle[0]) && !white(middle.last())) by {
            let first = seq![middle[0]];
            let last = seq![middle.last()];
            if white(middle[0]) {
                assert forall|i: int| 0 <= i < first.len() implies ({
                    let b = #[trigger] first[i];
                    b == 32 || b == 9 || b == 10 || b == 12 || b == 13
                }) by {}
                assert(blank(first));
            }
            if white(middle.last()) {
                assert(blank(last));
            }
        }
        lemma_trim_start(left, middle + right);
        assert(whole =~= left + (middle + right));
        lemma_trim_end(middle, right);
    }
}

proof fn lemma_all_white(s: Seq<u8>)
    requires
        forall|i: int| 0 <= i < s.len() ==> white(#[trigger] s[i]),
    ensures
        trim_start(s) == Seq::<u8>::empty(),
        trimmed(s) == Seq::<u8>::empty(),
    decreases s.len(),
{
    if s.len() > 0 {
        let rest = s.drop_first();
        assert forall|i: int| 0 <= i < rest.len() implies white(#[trigger] rest[i]) by {
            assert(rest[i] == s[i + 1]);
        }
        lemma_all_white(rest);
        assert(white(s[0]));
    } else {
        assert(s =~= Seq::<u8>::empty());
    }
}

proof fn lemma_trim_start(left: Seq<u8>, rest: Seq<u8>)
    requires
        blank(left),
        rest.len() > 0,
        !white(rest[0]),
    ensures
        trim_start(left + rest) == rest,
    decreases left.len(),
{
    let whole = left + rest;
    if left.len() == 0 {
        assert(whole =~= rest);
    } else {
        let less = left.drop_first();
        assert(white(left[0]));
        assert forall|i: int| 0 <= i < less.len() implies ({
            let b = #[trigger] less[i];
            b == 32 || b == 9 || b == 10 || b == 12 || b == 13
        }) by {
            assert(less[i] == left[i + 1]);
        }
        assert(whole.drop_first() =~= less + rest);
        lemma_trim_start(less, rest);
    }
}

proof fn lemma_trim_end(middle: Seq<u8>, right: Seq<u8>)
    requires
        blank(right),
        middle.len() > 0,
        !white(middle.last()),
    ensures
        trim_end(middle + right) == middle,
    decreases right.len(),
{
    let whole = middle + right;
    if right.len() == 0 {
        assert(whole =~= middle);
    } else {
        let less = right.drop_last();
        assert(white(right[right.len() - 1]));
        assert forall|i: int| 0 <= i < less.len() implies ({
            let b = #[trigger] less[i];
            b == 32 || b == 9 || b == 10 || b == 12 || b == 13
        }) by {
            assert(less[i] == right[i]);
        }
        assert(whole.drop_last() =~= middle + less);
        lemma_trim_end(middle, less);
    }
}

/// Whether two words are the same but for the case of ASCII letters: at each place the same byte,
/// or the two cases of one letter, which lie 32 apart.
pub open spec fn same_word(first: Seq<u8>, second: Seq<u8>) -> bool {
    &&& first.len() == second.len()
    &&& forall|i: int|
        0 <= i < first.len() ==> {
            ||| #[trigger] first[i] == second[i]
            ||| 65 <= first[i] <= 90 && second[i] == first[i] + 32
            ||| 65 <= second[i] <= 90 && first[i] == second[i] + 32
        }
}

/// Words are taken for the same exactly when they are the same but for the case of ASCII letters.
pub proof fn words_are_compared_without_case(first: Seq<u8>, second: Seq<u8>)
    ensures
        same_letters(first, second) == same_word(first, second),
{
    let (a, b) = (lowered(first), lowered(second));
    if a == b {
        assert(a.len() == b.len());
        assert forall|i: int| 0 <= i < first.len() implies ({
            ||| #[trigger] first[i] == second[i]
            ||| 65 <= first[i] <= 90 && second[i] == first[i] + 32
            ||| 65 <= second[i] <= 90 && first[i] == second[i] + 32
        }) by {
            assert(a[i] == b[i]);
        }
    } else if same_word(first, second) {
        assert forall|i: int| 0 <= i < a.len() implies a[i] == b[i] by {
            assert(first[i] == second[i] || 65 <= first[i] <= 90 && second[i] == first[i] + 32
                || 65 <= second[i] <= 90 && first[i] == second[i] + 32);
        }
        assert(a =~= b);
    }
}

/// What stands behind the last separator is the last piece, and so is the whole where there is
/// none.
pub proof fn the_last_piece_is_behind_the_last_separator<T>(
    before: Seq<T>,
    separator: T,
    last: Seq<T>,
)
    requires
        !last.contains(separator),
    ensures
        split(before + seq![separator] + last, separator).last() == last,
        split(last, separator) == seq![last],
    decreases before.len(),
{
    assert forall|j: int| 0 <= j < last.len() implies last[j] != separator by {
        assert(last.contains(last[j]));
    }
    lemma_index_of_first_is(last, separator, last.len() as int);
    let whole = before + seq![separator] + last;
    let k = index_of_first(whole, separator);
    lemma_index_of_first(whole, separator);
    assert(whole[before.len() as int] == separator);
    assert(k <= before.len());
    let rest = whole.skip(k + 1);
    lemma_split_is_not_empty(rest, separator);
    assert(split(whole, separator).last() == split(rest, separator).last());
    if k == before.len() {
        assert(rest =~= last);
    } else {
        let less = before.skip(k + 1);
        assert(rest =~= less + seq![separator] + last);
        the_last_piece_is_behind_the_last_separator(less, separator, last);
    }
}

} // verus!
