//! Content encodings that a client accepts.

use vstd::prelude::*;
use vstd::slice::*;
use vstd::utf8::*;

use crate::bytes;
use crate::bytes::{
    eq_ignore_ascii_case, split_at_each, trim_ascii, COMMA, DOT, NINE, ONE, SEMICOLON, ZERO,
};

verus! {

/// How much a client wants each encoding, in thousandths; zero means not at all.
#[derive(Clone, Copy, Debug, Default, PartialEq, Eq, Structural)]
pub struct AcceptedEncodings {
    pub br_q: u16,
    pub gzip_q: u16,
}

impl AcceptedEncodings {
    /// Whether Brotli may be sent.
    pub fn accepts_br(self) -> (yes: bool)
        ensures
            yes == (self.br_q > 0),
    {
        self.br_q > 0
    }

    /// Whether gzip may be sent.
    pub fn accepts_gzip(self) -> (yes: bool)
        ensures
            yes == (self.gzip_q > 0),
    {
        self.gzip_q > 0
    }

    /// Whether Brotli comes first; it wins ties.
    pub fn prefer_br(self) -> (yes: bool)
        ensures
            yes == (self.br_q >= self.gzip_q),
    {
        self.br_q >= self.gzip_q
    }
}

/// The digit at an index, zero behind the end.
pub open spec fn digit_at(s: Seq<u8>, i: int) -> int {
    if i < s.len() {
        s[i] - ZERO
    } else {
        0
    }
}

/// Whether a quality value is well formed: `0` with perhaps a point and up to three digits, or `1`
/// with perhaps a point and up to three zeros.
pub open spec fn quality_layout(s: Seq<u8>) -> bool {
    &&& 1 <= s.len() <= 5
    &&& s[0] == ZERO || s[0] == ONE
    &&& s.len() > 1 ==> s[1] == DOT
    &&& forall|i: int| 2 <= i < s.len() ==> ZERO <= #[trigger] s[i] <= NINE
    &&& s[0] == ONE ==> forall|i: int| 2 <= i < s.len() ==> #[trigger] s[i] == ZERO
}

/// A quality value in thousandths.
pub open spec fn quality(s: Seq<u8>) -> Option<int> {
    if quality_layout(s) {
        Some((s[0] - ZERO) * 1000 + digit_at(s, 2) * 100 + digit_at(s, 3) * 10 + digit_at(s, 4))
    } else {
        None
    }
}

/// Reads a quality value.
pub fn parse_quality(value: &[u8]) -> (thousandths: Option<u16>)
    ensures
        thousandths is Some <==> quality(value@) is Some,
        thousandths matches Some(q) ==> q == quality(value@)->0 && q <= 1000,
{
    if value.len() == 0 || value.len() > 5 || (value[0] != ZERO && value[0] != ONE) {
        return None;
    }
    if value.len() > 1 && value[1] != DOT {
        return None;
    }
    let top: u8 = if value[0] == ONE { ZERO } else { NINE };
    let mut total: u16 = (value[0] - ZERO) as u16;
    for i in 2..5usize
        invariant
            1 <= value.len() <= 5,
            value@[0] == ZERO || value@[0] == ONE,
            value.len() > 1 ==> value@[1] == DOT,
            top == (if value@[0] == ONE { ZERO } else { NINE }),
            forall|j: int| 2 <= j < i && j < value.len() ==> ZERO <= #[trigger] value@[j] <= top,
            i == 2 ==> total == value@[0] - ZERO,
            i == 3 ==> total == (value@[0] - ZERO) * 10 + digit_at(value@, 2),
            i == 4 ==> total == (value@[0] - ZERO) * 100 + digit_at(value@, 2) * 10 + digit_at(
                value@,
                3,
            ),
            i == 5 ==> total == (value@[0] - ZERO) * 1000 + digit_at(value@, 2) * 100 + digit_at(
                value@,
                3,
            ) * 10 + digit_at(value@, 4),
            i == 2 ==> total <= 1,
            i == 3 ==> total <= 10,
            i == 4 ==> total <= 100,
            i == 5 ==> total <= 1000,
    {
        if i < value.len() {
            let digit = value[i];
            if digit < ZERO || digit > top {
                return None;
            }
            total = total * 10 + (digit - ZERO) as u16;
        } else {
            total = total * 10;
        }
    }
    Some(total)
}

/// Whether a parameter of an accepted encoding gives its quality.
pub open spec fn is_quality_field(field: Seq<u8>) -> bool {
    field.len() >= 2 && bytes::same_letters(field.take(2), encode_utf8("q="@))
}

/// The quality that the last quality parameter behind the first field gives: zero when it cannot
/// be read, 1000 when there is no such parameter.
pub open spec fn fields_quality(fields: Seq<Seq<u8>>) -> int
    decreases fields.len(),
{
    if fields.len() <= 1 {
        1000
    } else {
        let field = bytes::trimmed(fields.last());
        if is_quality_field(field) {
            match quality(field.skip(2)) {
                Some(q) => q,
                None => 0,
            }
        } else {
            fields_quality(fields.drop_last())
        }
    }
}

/// The encoding that an item of `Accept-Encoding` speaks of.
pub open spec fn item_token(item: Seq<u8>) -> Seq<u8> {
    bytes::trimmed(bytes::split(item, SEMICOLON)[0])
}

/// The quality of an item of `Accept-Encoding`.
pub open spec fn item_quality(item: Seq<u8>) -> int {
    fields_quality(bytes::split(item, SEMICOLON))
}

/// The quality of the last item that names the encoding, in any case of its letters.
pub open spec fn named_quality(items: Seq<Seq<u8>>, name: Seq<char>) -> Option<int>
    decreases items.len(),
{
    if items.len() == 0 {
        None
    } else if bytes::same_letters(item_token(items.last()), encode_utf8(name)) {
        Some(item_quality(items.last()))
    } else {
        named_quality(items.drop_last(), name)
    }
}

/// The quality that `Accept-Encoding` gives an encoding: its own, else that of `*`, else zero.
pub open spec fn encoding_quality(value: Seq<u8>, name: Seq<char>) -> int {
    let items = bytes::split(value, COMMA);
    match named_quality(items, name) {
        Some(q) => q,
        None => match named_quality(items, "*"@) {
            Some(q) => q,
            None => 0,
        },
    }
}

/// Reads the quality of an item from its fields.
fn read_quality(fields: &[&[u8]]) -> (thousandths: u16)
    requires
        fields@.len() > 0,
    ensures
        thousandths == fields_quality(bytes::pieces(fields@)),
        thousandths <= 1000,
{
    let mut thousandths: u16 = 1000;
    for i in 1..fields.len()
        invariant
            fields@.len() > 0,
            thousandths == fields_quality(bytes::pieces(fields@.take(i as int))),
            thousandths <= 1000,
    {
        let field = trim_ascii(fields[i]);
        let ghost seen = bytes::pieces(fields@.take(i + 1));
        assert(seen.drop_last() =~= bytes::pieces(fields@.take(i as int)));
        assert(seen.last() == fields@[i as int]@);
        if field.len() >= 2 && eq_ignore_ascii_case(slice_subrange(field, 0, 2), "q=") {
            assert(field@.subrange(0, 2) =~= field@.take(2));
            assert(field@.subrange(2, field@.len() as int) =~= field@.skip(2));
            thousandths = match parse_quality(slice_subrange(field, 2, field.len())) {
                Some(q) => q,
                None => 0,
            };
        } else {
            assert(field@.len() >= 2 ==> field@.subrange(0, 2) =~= field@.take(2));
        }
    }
    assert(fields@.take(fields@.len() as int) =~= fields@);
    thousandths
}

/// Reads the value of `Accept-Encoding`.
pub fn accepted_encodings(value: &[u8]) -> (accepted: AcceptedEncodings)
    ensures
        accepted.br_q == encoding_quality(value@, "br"@),
        accepted.gzip_q == encoding_quality(value@, "gzip"@),
        accepted.br_q <= 1000,
        accepted.gzip_q <= 1000,
{
    let mut br: Option<u16> = None;
    let mut gzip: Option<u16> = None;
    let mut wildcard: Option<u16> = None;
    let items = split_at_each(value, COMMA);
    for i in 0..items.len()
        invariant
            bytes::pieces(items@) == bytes::split(value@, COMMA),
            is_quality_of(br, bytes::pieces(items@.take(i as int)), "br"@),
            is_quality_of(gzip, bytes::pieces(items@.take(i as int)), "gzip"@),
            is_quality_of(wildcard, bytes::pieces(items@.take(i as int)), "*"@),
    {
        let fields = split_at_each(items[i], SEMICOLON);
        let ghost seen = bytes::pieces(items@.take(i + 1));
        assert(seen.drop_last() =~= bytes::pieces(items@.take(i as int)));
        assert(seen.last() == items@[i as int]@);
        proof {
            bytes::lemma_split_is_not_empty(items@[i as int]@, SEMICOLON);
            assert(bytes::pieces(fields@).len() == fields@.len());
            assert(bytes::pieces(fields@)[0] == fields@[0]@);
        }
        let token = trim_ascii(fields[0]);
        let thousandths = read_quality(fields.as_slice());
        if eq_ignore_ascii_case(token, "br") {
            br = Some(thousandths);
        }
        if eq_ignore_ascii_case(token, "gzip") {
            gzip = Some(thousandths);
        }
        if eq_ignore_ascii_case(token, "*") {
            wildcard = Some(thousandths);
        }
    }
    assert(items@.take(items@.len() as int) =~= items@);
    let fallback: u16 = match wildcard {
        Some(q) => q,
        None => 0,
    };
    AcceptedEncodings {
        br_q: match br {
            Some(q) => q,
            None => fallback,
        },
        gzip_q: match gzip {
            Some(q) => q,
            None => fallback,
        },
    }
}

/// Whether `found` is the quality of the last of the items that names the encoding.
spec fn is_quality_of(found: Option<u16>, items: Seq<Seq<u8>>, name: Seq<char>) -> bool {
    &&& found is Some <==> named_quality(items, name) is Some
    &&& found matches Some(q) ==> q == named_quality(items, name)->0 && q <= 1000
}

proof fn lemma_fields_quality(fields: Seq<Seq<u8>>)
    ensures
        0 <= fields_quality(fields) <= 1000,
    decreases fields.len(),
{
    if fields.len() > 1 {
        lemma_fields_quality(fields.drop_last());
        let s = bytes::trimmed(fields.last()).skip(2);
        if quality_layout(s) && s[0] == ONE {
            assert(forall|i: int| 2 <= i < s.len() ==> #[trigger] s[i] == ZERO);
        }
    }
}

proof fn lemma_named_quality(items: Seq<Seq<u8>>, name: Seq<char>)
    ensures
        named_quality(items, name) matches Some(q) ==> 0 <= q <= 1000,
    decreases items.len(),
{
    if items.len() > 0 {
        lemma_fields_quality(bytes::split(items.last(), SEMICOLON));
        lemma_named_quality(items.drop_last(), name);
    }
}

/// The quality of an encoding is never above one, that is, a thousand thousandths.
pub proof fn qualities_are_bounded(value: Seq<u8>, name: Seq<char>)
    ensures
        0 <= encoding_quality(value, name) <= 1000,
{
    lemma_named_quality(bytes::split(value, COMMA), name);
    lemma_named_quality(bytes::split(value, COMMA), "*"@);
}

/// One offer of an `Accept-Encoding` value: a coding with perhaps white space around it, and its
/// parameters.
pub struct Offer {
    pub left: Seq<u8>,
    pub coding: Seq<u8>,
    pub right: Seq<u8>,
    pub params: Seq<Seq<u8>>,
}

/// Whether an offer can be told from its neighbours: only white space around the coding, and
/// neither a comma nor a semicolon in any part.
pub open spec fn offer_ok(offer: Offer) -> bool {
    &&& bytes::blank(offer.left)
    &&& bytes::blank(offer.right)
    &&& bytes::unpadded(offer.coding)
    &&& !offer.coding.contains(COMMA)
    &&& !offer.coding.contains(SEMICOLON)
    &&& forall|i: int|
        0 <= i < offer.params.len() ==> !(#[trigger] offer.params[i]).contains(COMMA)
            && !offer.params[i].contains(SEMICOLON)
}

/// The parts of an offer between the semicolons.
pub open spec fn offer_fields(offer: Offer) -> Seq<Seq<u8>> {
    seq![offer.left + offer.coding + offer.right] + offer.params
}

/// An offer as it is written.
pub open spec fn offer_text(offer: Offer) -> Seq<u8> {
    bytes::joined_by(offer_fields(offer), SEMICOLON)
}

/// The texts of offers.
pub open spec fn offer_texts(offers: Seq<Offer>) -> Seq<Seq<u8>> {
    offers.map_values(|offer: Offer| offer_text(offer))
}

/// Offers as they are written in one value.
pub open spec fn offers_text(offers: Seq<Offer>) -> Seq<u8> {
    bytes::joined_by(offer_texts(offers), COMMA)
}

/// Whether every offer can be told from its neighbours.
pub open spec fn offers_ok(offers: Seq<Offer>) -> bool {
    forall|i: int| 0 <= i < offers.len() ==> offer_ok(#[trigger] offers[i])
}

/// Whether an offer is one of the coding, in any case of its letters.
pub open spec fn offers_coding(offer: Offer, name: Seq<char>) -> bool {
    bytes::same_word(offer.coding, encode_utf8(name))
}

proof fn lemma_blank_has_no(s: Seq<u8>, x: u8)
    requires
        bytes::blank(s),
        x == COMMA || x == SEMICOLON,
    ensures
        !s.contains(x),
{
    if s.contains(x) {
        let i = choose|i: int| 0 <= i < s.len() && s[i] == x;
        assert(s[i] == x);
    }
}

proof fn lemma_joined_by_lacks(pieces: Seq<Seq<u8>>, separator: u8, x: u8)
    requires
        x != separator,
        forall|i: int| 0 <= i < pieces.len() ==> !(#[trigger] pieces[i]).contains(x),
    ensures
        !bytes::joined_by(pieces, separator).contains(x),
    decreases pieces.len(),
{
    let whole = bytes::joined_by(pieces, separator);
    if pieces.len() == 1 {
        assert(!pieces[0].contains(x));
    } else if pieces.len() > 1 {
        let rest = pieces.skip(1);
        assert forall|i: int| 0 <= i < rest.len() implies !(#[trigger] rest[i]).contains(x) by {
            assert(rest[i] == pieces[i + 1]);
        }
        lemma_joined_by_lacks(rest, separator, x);
        assert(!pieces[0].contains(x));
        if whole.contains(x) {
            let j = choose|j: int| 0 <= j < whole.len() && whole[j] == x;
            let n = pieces[0].len() as int;
            if j < n {
                assert(pieces[0][j] == x);
            } else if j > n {
                assert(bytes::joined_by(rest, separator)[j - n - 1] == x);
            }
        }
    }
}

proof fn lemma_offer_fields(offer: Offer)
    requires
        offer_ok(offer),
    ensures
        !offer_text(offer).contains(COMMA),
        bytes::split(offer_text(offer), SEMICOLON) == offer_fields(offer),
        item_token(offer_text(offer)) == offer.coding,
        item_quality(offer_text(offer)) == fields_quality(offer_fields(offer)),
{
    let fields = offer_fields(offer);
    let first = offer.left + offer.coding + offer.right;
    lemma_blank_has_no(offer.left, COMMA);
    lemma_blank_has_no(offer.left, SEMICOLON);
    lemma_blank_has_no(offer.right, COMMA);
    lemma_blank_has_no(offer.right, SEMICOLON);
    lemma_concat_lacks(offer.left, offer.coding, offer.right, COMMA);
    lemma_concat_lacks(offer.left, offer.coding, offer.right, SEMICOLON);
    assert forall|i: int| 0 <= i < fields.len() implies !(#[trigger] fields[i]).contains(COMMA)
        && !fields[i].contains(SEMICOLON) by {
        if i > 0 {
            assert(fields[i] == offer.params[i - 1]);
        }
    }
    lemma_joined_by_lacks(fields, SEMICOLON, COMMA);
    bytes::splitting_undoes_joining(fields, SEMICOLON);
    bytes::trimming_takes_off_padding(offer.left, offer.coding, offer.right);
    assert(fields[0] == first);
}

proof fn lemma_concat_lacks(a: Seq<u8>, b: Seq<u8>, c: Seq<u8>, x: u8)
    requires
        !a.contains(x),
        !b.contains(x),
        !c.contains(x),
    ensures
        !(a + b + c).contains(x),
{
    let whole = a + b + c;
    if whole.contains(x) {
        let i = choose|i: int| 0 <= i < whole.len() && whole[i] == x;
        if i < a.len() {
            assert(a[i] == x);
        } else if i < a.len() + b.len() {
            assert(b[i - a.len()] == x);
        } else {
            assert(c[i - a.len() - b.len()] == x);
        }
    }
}

proof fn lemma_offers_split(offers: Seq<Offer>)
    requires
        offers_ok(offers),
        offers.len() > 0,
    ensures
        bytes::split(offers_text(offers), COMMA) == offer_texts(offers),
{
    let texts = offer_texts(offers);
    assert forall|i: int| 0 <= i < texts.len() implies !(#[trigger] texts[i]).contains(COMMA) by {
        assert(offer_ok(offers[i]));
        lemma_offer_fields(offers[i]);
    }
    bytes::splitting_undoes_joining(texts, COMMA);
}

proof fn lemma_named(offers: Seq<Offer>, name: Seq<char>, i: int)
    requires
        offers_ok(offers),
        0 <= i < offers.len(),
        offers_coding(offers[i], name),
        forall|j: int| i < j < offers.len() ==> !offers_coding(#[trigger] offers[j], name),
    ensures
        named_quality(offer_texts(offers), name) == Some(fields_quality(offer_fields(offers[i]))),
    decreases offers.len(),
{
    let texts = offer_texts(offers);
    let last = offers.last();
    assert(offer_ok(offers[offers.len() - 1]));
    lemma_offer_fields(last);
    bytes::words_are_compared_without_case(last.coding, encode_utf8(name));
    assert(texts.last() == offer_text(last));
    if i < offers.len() - 1 {
        assert(!offers_coding(offers[offers.len() - 1], name));
        let before = offers.drop_last();
        assert(texts.drop_last() =~= offer_texts(before));
        assert forall|j: int| 0 <= j < before.len() implies offer_ok(#[trigger] before[j]) by {
            assert(before[j] == offers[j]);
        }
        assert forall|j: int| i < j < before.len() implies !offers_coding(
            #[trigger] before[j],
            name,
        ) by {
            assert(before[j] == offers[j]);
        }
        lemma_named(before, name, i);
    }
}

proof fn lemma_unnamed(offers: Seq<Offer>, name: Seq<char>)
    requires
        offers_ok(offers),
        forall|j: int| 0 <= j < offers.len() ==> !offers_coding(#[trigger] offers[j], name),
    ensures
        named_quality(offer_texts(offers), name) is None,
    decreases offers.len(),
{
    if offers.len() > 0 {
        let texts = offer_texts(offers);
        let last = offers.last();
        assert(offer_ok(offers[offers.len() - 1]));
        lemma_offer_fields(last);
        bytes::words_are_compared_without_case(last.coding, encode_utf8(name));
        assert(!offers_coding(offers[offers.len() - 1], name));
        let before = offers.drop_last();
        assert(texts.drop_last() =~= offer_texts(before));
        assert forall|j: int| 0 <= j < before.len() implies offer_ok(#[trigger] before[j])
            && !offers_coding(before[j], name) by {
            assert(before[j] == offers[j]);
        }
        lemma_unnamed(before, name);
    }
}

/// The last offer of a coding decides its quality, whatever other codings are offered before and
/// behind it.
pub proof fn the_last_offer_of_a_coding_decides(offers: Seq<Offer>, name: Seq<char>, i: int)
    requires
        offers_ok(offers),
        0 <= i < offers.len(),
        offers_coding(offers[i], name),
        forall|j: int| i < j < offers.len() ==> !offers_coding(#[trigger] offers[j], name),
    ensures
        encoding_quality(offers_text(offers), name) == fields_quality(offer_fields(offers[i])),
{
    lemma_offers_split(offers);
    lemma_named(offers, name, i);
}

/// For a coding that is not offered by its name, the last `*` decides.
pub proof fn otherwise_the_last_star_decides(offers: Seq<Offer>, name: Seq<char>, i: int)
    requires
        offers_ok(offers),
        0 <= i < offers.len(),
        forall|j: int| 0 <= j < offers.len() ==> !offers_coding(#[trigger] offers[j], name),
        offers_coding(offers[i], "*"@),
        forall|j: int| i < j < offers.len() ==> !offers_coding(#[trigger] offers[j], "*"@),
    ensures
        encoding_quality(offers_text(offers), name) == fields_quality(offer_fields(offers[i])),
{
    lemma_offers_split(offers);
    lemma_unnamed(offers, name);
    lemma_named(offers, "*"@, i);
}

/// A coding that is offered neither by its name nor by a `*` is not accepted.
pub proof fn codings_that_are_not_offered_are_refused(offers: Seq<Offer>, name: Seq<char>)
    requires
        offers_ok(offers),
        offers.len() > 0,
        forall|j: int|
            0 <= j < offers.len() ==> !offers_coding(#[trigger] offers[j], name) && !offers_coding(
                offers[j],
                "*"@,
            ),
    ensures
        encoding_quality(offers_text(offers), name) == 0,
{
    lemma_offers_split(offers);
    lemma_unnamed(offers, name);
    lemma_unnamed(offers, "*"@);
}

proof fn lemma_named_insert(offers: Seq<Offer>, i: int, other: Offer, name: Seq<char>)
    requires
        offers_ok(offers),
        offer_ok(other),
        0 <= i <= offers.len(),
        !offers_coding(other, name),
    ensures
        named_quality(offer_texts(offers.insert(i, other)), name) == named_quality(
            offer_texts(offers),
            name,
        ),
        offers_ok(offers.insert(i, other)),
    decreases offers.len(),
{
    let more = offers.insert(i, other);
    assert forall|j: int| 0 <= j < more.len() implies offer_ok(#[trigger] more[j]) by {
        if j < i {
            assert(more[j] == offers[j]);
        } else if j > i {
            assert(more[j] == offers[j - 1]);
        }
    }
    let texts = offer_texts(more);
    assert(texts.drop_last() =~= offer_texts(more.drop_last()));
    assert(texts.last() == offer_text(more.last()));
    if i == offers.len() {
        lemma_offer_fields(other);
        bytes::words_are_compared_without_case(other.coding, encode_utf8(name));
        assert(more.drop_last() =~= offers);
        assert(more.last() == other);
    } else {
        let before = offers.drop_last();
        assert forall|j: int| 0 <= j < before.len() implies offer_ok(#[trigger] before[j]) by {
            assert(before[j] == offers[j]);
        }
        lemma_named_insert(before, i, other, name);
        assert(more.drop_last() =~= before.insert(i, other));
        assert(more.last() == offers.last());
        assert(offer_texts(offers).drop_last() =~= offer_texts(before));
        assert(offer_texts(offers).last() == offer_text(offers.last()));
    }
}

/// An offer of any other coding than the one asked for and `*` changes nothing, wherever it stands.
pub proof fn other_codings_do_not_matter(
    offers: Seq<Offer>,
    i: int,
    other: Offer,
    name: Seq<char>,
)
    requires
        offers_ok(offers),
        offers.len() > 0,
        offer_ok(other),
        0 <= i <= offers.len(),
        !offers_coding(other, name),
        !offers_coding(other, "*"@),
    ensures
        encoding_quality(offers_text(offers.insert(i, other)), name) == encoding_quality(
            offers_text(offers),
            name,
        ),
{
    lemma_named_insert(offers, i, other, name);
    lemma_named_insert(offers, i, other, "*"@);
    lemma_offers_split(offers);
    lemma_offers_split(offers.insert(i, other));
}

/// An offer without a quality parameter has the quality of one.
pub proof fn offers_are_worth_one_by_default(fields: Seq<Seq<u8>>)
    requires
        fields.len() > 0,
        forall|i: int| 1 <= i < fields.len() ==> !names_quality(#[trigger] fields[i]),
    ensures
        fields_quality(fields) == 1000,
    decreases fields.len(),
{
    if fields.len() > 1 {
        assert(!names_quality(fields[fields.len() - 1]));
        lemma_names_quality(fields.last());
        let before = fields.drop_last();
        assert forall|i: int| 1 <= i < before.len() implies !names_quality(#[trigger] before[i]) by {
            assert(before[i] == fields[i]);
        }
        offers_are_worth_one_by_default(before);
    }
}

/// Whether a parameter, but for white space around it, begins with `q=` or `Q=`.
pub open spec fn names_quality(field: Seq<u8>) -> bool {
    exists|left: Seq<u8>, value: Seq<u8>, right: Seq<u8>, q: u8|
        is_quality_parameter(field, left, q, value, right)
}

/// Whether a parameter is `value` behind `q=`, with white space around.
pub open spec fn is_quality_parameter(
    field: Seq<u8>,
    left: Seq<u8>,
    q: u8,
    value: Seq<u8>,
    right: Seq<u8>,
) -> bool {
    &&& bytes::blank(left)
    &&& bytes::blank(right)
    &&& q == 113 || q == 81
    &&& bytes::unpadded(seq![q, 61u8] + value)
    &&& field == left + (seq![q, 61u8] + value) + right
}

proof fn lemma_quality_prefix(field: Seq<u8>)
    ensures
        is_quality_field(field) == (field.len() >= 2 && (field[0] == 113 || field[0] == 81)
            && field[1] == 61),
{
    reveal_strlit("q=");
    assert(is_ascii_chars("q="@));
    is_ascii_chars_encode_utf8("q="@);
    let sign = encode_utf8("q="@);
    assert(sign[0] == 'q' as u8 && sign[1] == '=' as u8);
    if field.len() >= 2 {
        let start = field.take(2);
        bytes::words_are_compared_without_case(start, sign);
        assert(start[0] == field[0] && start[1] == field[1]);
        if bytes::same_word(start, sign) {
            assert(start[0] == sign[0] || 65 <= start[0] <= 90 && sign[0] == start[0] + 32 || 65
                <= sign[0] <= 90 && start[0] == sign[0] + 32);
            assert(start[1] == sign[1] || 65 <= start[1] <= 90 && sign[1] == start[1] + 32 || 65
                <= sign[1] <= 90 && start[1] == sign[1] + 32);
        }
    }
}

/// What trimming leaves lies between white space.
proof fn lemma_trimmed_parts(s: Seq<u8>) -> (parts: (Seq<u8>, Seq<u8>))
    ensures
        bytes::blank(parts.0),
        bytes::blank(parts.1),
        s == parts.0 + bytes::trimmed(s) + parts.1,
        bytes::unpadded(bytes::trimmed(s)),
{
    let (left, rest) = lemma_trim_start_parts(s);
    let (middle, right) = lemma_trim_end_parts(rest);
    assert(s =~= left + middle + right);
    if middle.len() > 0 {
        assert(middle[0] == rest[0]);
        assert(!bytes::blank(seq![middle[0]])) by {
            assert(seq![middle[0]][0] == middle[0]);
        }
        assert(!bytes::blank(seq![middle.last()])) by {
            assert(seq![middle.last()][0] == middle.last());
        }
    }
    (left, right)
}

proof fn lemma_trim_start_parts(s: Seq<u8>) -> (parts: (Seq<u8>, Seq<u8>))
    ensures
        bytes::blank(parts.0),
        s == parts.0 + parts.1,
        parts.1 == bytes::trim_start(s),
        parts.1.len() > 0 ==> !bytes::white(parts.1[0]),
    decreases s.len(),
{
    if s.len() > 0 && bytes::white(s[0]) {
        let (left, rest) = lemma_trim_start_parts(s.drop_first());
        let more = seq![s[0]] + left;
        assert forall|i: int| 0 <= i < more.len() implies ({
            let b = #[trigger] more[i];
            b == 32 || b == 9 || b == 10 || b == 12 || b == 13
        }) by {
            if i > 0 {
                assert(more[i] == left[i - 1]);
            }
        }
        assert(s =~= seq![s[0]] + s.drop_first());
        assert(seq![s[0]] + (left + rest) =~= more + rest);
        (more, rest)
    } else {
        assert(s =~= Seq::<u8>::empty() + s);
        (Seq::empty(), s)
    }
}

proof fn lemma_trim_end_parts(s: Seq<u8>) -> (parts: (Seq<u8>, Seq<u8>))
    ensures
        bytes::blank(parts.1),
        s == parts.0 + parts.1,
        parts.0 == bytes::trim_end(s),
        parts.0.len() > 0 ==> !bytes::white(parts.0.last()),
    decreases s.len(),
{
    if s.len() > 0 && bytes::white(s.last()) {
        let (rest, right) = lemma_trim_end_parts(s.drop_last());
        let more = right + seq![s.last()];
        assert forall|i: int| 0 <= i < more.len() implies ({
            let b = #[trigger] more[i];
            b == 32 || b == 9 || b == 10 || b == 12 || b == 13
        }) by {
            if i < right.len() {
                assert(more[i] == right[i]);
            }
        }
        assert(s =~= s.drop_last() + seq![s.last()]);
        assert((rest + right) + seq![s.last()] =~= rest + more);
        (rest, more)
    } else {
        assert(s =~= s + Seq::<u8>::empty());
        (s, Seq::empty())
    }
}

proof fn lemma_names_quality(field: Seq<u8>)
    ensures
        names_quality(field) == is_quality_field(bytes::trimmed(field)),
{
    let inner = bytes::trimmed(field);
    lemma_quality_prefix(inner);
    if names_quality(field) {
        let (left, value, right, q) = choose|
            left: Seq<u8>,
            value: Seq<u8>,
            right: Seq<u8>,
            q: u8,
        |
            is_quality_parameter(field, left, q, value, right);
        let middle = seq![q, 61u8] + value;
        bytes::trimming_takes_off_padding(left, middle, right);
        assert(inner == middle);
        assert(middle[0] == q && middle[1] == 61);
    }
    if is_quality_field(inner) {
        let (left, right) = lemma_trimmed_parts(field);
        let value = inner.skip(2);
        assert(inner =~= seq![inner[0], 61u8] + value);
        assert(is_quality_parameter(field, left, inner[0], value, right));
    }
}

/// The last quality parameter of an offer gives its quality: none at all where it cannot be read.
pub proof fn the_last_quality_parameter_decides(
    fields: Seq<Seq<u8>>,
    i: int,
    left: Seq<u8>,
    q: u8,
    value: Seq<u8>,
    right: Seq<u8>,
)
    requires
        1 <= i < fields.len(),
        is_quality_parameter(fields[i], left, q, value, right),
        forall|j: int| i < j < fields.len() ==> !names_quality(#[trigger] fields[j]),
    ensures
        fields_quality(fields) == match quality(value) {
            Some(thousandths) => thousandths,
            None => 0,
        },
    decreases fields.len(),
{
    let last = fields.last();
    lemma_names_quality(last);
    if i == fields.len() - 1 {
        assert(names_quality(last));
        let middle = seq![q, 61u8] + value;
        bytes::trimming_takes_off_padding(left, middle, right);
        assert(middle.skip(2) =~= value);
    } else {
        assert(!names_quality(fields[fields.len() - 1]));
        let before = fields.drop_last();
        assert forall|j: int| i < j < before.len() implies !names_quality(#[trigger] before[j]) by {
            assert(before[j] == fields[j]);
        }
        the_last_quality_parameter_decides(before, i, left, q, value, right);
    }
}

/// Quality values are read as thousandths: `0` and `1`, perhaps with a point, and `0` with up to
/// three decimals, whose missing places are zeros. Anything with a fourth decimal, another sign or
/// a value above one is none.
pub proof fn qualities_are_decimals(a: u8, b: u8, c: u8, rest: Seq<u8>)
    requires
        48 <= a <= 57,
        48 <= b <= 57,
        48 <= c <= 57,
    ensures
        quality(seq![48u8]) == Some(0int),
        quality(seq![48u8, 46]) == Some(0int),
        quality(seq![49u8]) == Some(1000int),
        quality(seq![49u8, 46]) == Some(1000int),
        quality(seq![48u8, 46, a]) == Some((a - 48) * 100),
        quality(seq![48u8, 46, a, b]) == Some((a - 48) * 100 + (b - 48) * 10),
        quality(seq![48u8, 46, a, b, c]) == Some((a - 48) * 100 + (b - 48) * 10 + (c - 48)),
        quality(seq![49u8, 46, 48, 48, 48]) == Some(1000int),
        quality(seq![49u8, 46, 48, 48]) == Some(1000int),
        quality(seq![49u8, 46, 48]) == Some(1000int),
        a != 48 || b != 48 || c != 48 ==> quality(seq![49u8, 46, a, b, c]) is None,
        a != 48 || b != 48 ==> quality(seq![49u8, 46, a, b]) is None,
        a != 48 ==> quality(seq![49u8, 46, a]) is None,
        quality(Seq::<u8>::empty()) is None,
        rest.len() > 5 ==> quality(rest) is None,
        rest.len() > 0 && rest[0] != 48 && rest[0] != 49 ==> quality(rest) is None,
        rest.len() > 1 && rest[1] != 46 ==> quality(rest) is None,
        (exists|i: int| 2 <= i < rest.len() && !(48 <= #[trigger] rest[i] <= 57)) ==> quality(rest)
            is None,
{
    if quality_layout(seq![49u8, 46, a, b, c]) {
        let s = seq![49u8, 46, a, b, c];
        assert(s[2] == ZERO && s[3] == ZERO && s[4] == ZERO);
    }
    if quality_layout(seq![49u8, 46, a, b]) {
        let s = seq![49u8, 46, a, b];
        assert(s[2] == ZERO && s[3] == ZERO);
    }
    if quality_layout(seq![49u8, 46, a]) {
        let s = seq![49u8, 46, a];
        assert(s[2] == ZERO);
    }
}

} // verus!
