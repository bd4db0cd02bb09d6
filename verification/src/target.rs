//! Request targets and the paths they name.

use vstd::prelude::*;
use vstd::slice::*;

use crate::bytes;
use crate::bytes::{
    contains, find, split_at_each, BACKSLASH, DOT, PERCENT, QUESTION_MARK, SLASH,
};
use crate::http::RequestError;

verus! {

/// A path below the document root, and whether the target ended in a slash.
#[derive(Debug)]
pub struct DecodedPath {
    pub components: Vec<Vec<u8>>,
    pub trailing_slash: bool,
}

/// What a [`DecodedPath`] holds.
pub struct PathModel {
    pub components: Seq<Seq<u8>>,
    pub trailing_slash: bool,
}

impl View for DecodedPath {
    type V = PathModel;

    open spec fn view(&self) -> PathModel {
        PathModel {
            components: bytes::parts(self.components@),
            trailing_slash: self.trailing_slash,
        }
    }
}

/// The value of a hexadecimal digit.
pub open spec fn hex_value(b: u8) -> Option<int> {
    if 48 <= b <= 57 {
        Some(b - 48)
    } else if 97 <= b <= 102 {
        Some(b - 87)
    } else if 65 <= b <= 70 {
        Some(b - 55)
    } else {
        None
    }
}

/// The value of a hexadecimal digit.
pub fn hex(byte: u8) -> (value: Option<u8>)
    ensures
        value is Some <==> hex_value(byte) is Some,
        value matches Some(v) ==> v == hex_value(byte)->0 && v < 16,
{
    match byte {
        48..=57 => Some(byte - 48),
        97..=102 => Some(byte - 87),
        65..=70 => Some(byte - 55),
        _ => None,
    }
}

/// Whether the byte is an ASCII control character.
pub open spec fn control(b: u8) -> bool {
    b <= 31 || b == 127
}

/// Whether there is a control character.
pub fn contains_ctl(bytes: &[u8]) -> (found: bool)
    ensures
        found == exists|i: int| 0 <= i < bytes@.len() && control(#[trigger] bytes@[i]),
{
    for i in 0..bytes.len()
        invariant
            forall|j: int| 0 <= j < i ==> !control(#[trigger] bytes@[j]),
    {
        if bytes[i] <= 31 || bytes[i] == 127 {
            assert(control(bytes@[i as int]));
            return true;
        }
    }
    false
}

/// The part of a target before the query.
pub open spec fn target_path(target: Seq<u8>) -> Seq<u8> {
    target.take(bytes::index_of_first(target, QUESTION_MARK))
}

/// The bytes that a percent-encoded sequence stands for; none when an escape is malformed.
pub open spec fn percent_decoded(s: Seq<u8>) -> Option<Seq<u8>>
    decreases s.len(),
{
    if s.len() == 0 {
        Some(seq![])
    } else if s[0] != PERCENT {
        match percent_decoded(s.skip(1)) {
            Some(rest) => Some(seq![s[0]] + rest),
            None => None,
        }
    } else if s.len() < 3 {
        None
    } else {
        match (hex_value(s[1]), hex_value(s[2]), percent_decoded(s.skip(3))) {
            (Some(high), Some(low), Some(rest)) => Some(seq![(high * 16 + low) as u8] + rest),
            _ => None,
        }
    }
}

/// The pieces that are not empty.
pub open spec fn filled(pieces: Seq<Seq<u8>>) -> Seq<Seq<u8>> {
    pieces.filter(|piece: Seq<u8>| piece.len() > 0)
}

/// Whether the component is `.` or `..`.
pub open spec fn is_dots(component: Seq<u8>) -> bool {
    component == seq![DOT] || component == seq![DOT, DOT]
}

/// Whether decoded bytes may stand in a path.
pub open spec fn path_bytes(decoded: Seq<u8>) -> bool {
    forall|i: int|
        0 <= i < decoded.len() ==> !control(#[trigger] decoded[i]) && decoded[i] != BACKSLASH
}

/// The components that a target names and whether its path ends in a slash; none when the target
/// is refused.
pub open spec fn decoded_target(target: Seq<u8>) -> Option<PathModel> {
    let path = target_path(target);
    if path.len() == 0 || path[0] != SLASH {
        None
    } else {
        match percent_decoded(path) {
            Some(decoded) => {
                let components = filled(bytes::split(decoded, SLASH));
                if path_bytes(decoded) && (forall|i: int|
                    0 <= i < components.len() ==> !is_dots(#[trigger] components[i])) {
                    Some(PathModel { components, trailing_slash: path.last() == SLASH })
                } else {
                    None
                }
            },
            None => None,
        }
    }
}

/// Whether a component names an entry of its directory and nothing else.
pub open spec fn safe_component(component: Seq<u8>) -> bool {
    &&& component.len() > 0
    &&& !is_dots(component)
    &&& !component.contains(SLASH)
    &&& !component.contains(BACKSLASH)
    &&& !component.contains(0u8)
}

/// Whether every component of a path names an entry of its directory and nothing else.
pub open spec fn safe_path(path: Seq<Seq<u8>>) -> bool {
    forall|i: int| 0 <= i < path.len() ==> safe_component(#[trigger] path[i])
}

/// An accepted target never leads out of the document root: no component is empty, `.` or `..`,
/// and none holds a slash, a backslash, a NUL or any other control character, however the target
/// was encoded.
pub proof fn decoded_paths_stay_below_the_root(target: Seq<u8>)
    requires
        decoded_target(target) is Some,
    ensures
        safe_path(decoded_target(target)->0.components),
        forall|i: int, j: int|
            0 <= i < decoded_target(target)->0.components.len() && 0 <= j
                < decoded_target(target)->0.components[i].len() ==> !control(
                #[trigger] decoded_target(target)->0.components[i][j],
            ),
{
    let decoded = percent_decoded(target_path(target))->0;
    let pieces = bytes::split(decoded, SLASH);
    let components = filled(pieces);
    assert forall|i: int| 0 <= i < components.len() implies safe_component(#[trigger] components[i])
        && (forall|j: int|
        0 <= j < components[i].len() ==> !control(#[trigger] components[i][j])) by {
        let pred = |piece: Seq<u8>| piece.len() > 0;
        pieces.lemma_filter_pred(pred, i);
        assert(components.contains(components[i]));
        pieces.lemma_filter_contains_rev(pred, components[i]);
        let k = choose|k: int| 0 <= k < pieces.len() && pieces[k] == components[i];
        bytes::lemma_split_pieces(decoded, SLASH, k);
        assert forall|j: int| 0 <= j < components[i].len() implies !control(
            #[trigger] components[i][j],
        ) && components[i][j] != BACKSLASH by {
            assert(decoded.contains(pieces[k][j]));
            let m = choose|m: int| 0 <= m < decoded.len() && decoded[m] == pieces[k][j];
            assert(!control(decoded[m]));
        }
        if components[i].contains(0u8) {
            let j = choose|j: int| 0 <= j < components[i].len() && components[i][j] == 0u8;
            assert(control(components[i][j]));
        }
    }
}

/// Takes the percent encoding off.
fn percent_decode(path: &[u8]) -> (decoded: Option<Vec<u8>>)
    ensures
        decoded is Some <==> percent_decoded(path@) is Some,
        decoded matches Some(d) ==> d@ == percent_decoded(path@)->0,
{
    let mut decoded: Vec<u8> = Vec::new();
    let mut cursor: usize = 0;
    assert(path@.skip(0) =~= path@);
    assert(percent_decoded(path@) matches Some(rest) ==> decoded@ + rest =~= rest);
    while cursor < path.len()
        invariant
            cursor <= path.len(),
            percent_decoded(path@) is Some <==> percent_decoded(path@.skip(cursor as int)) is Some,
            percent_decoded(path@.skip(cursor as int)) matches Some(rest) ==> percent_decoded(path@)
                == Some(decoded@ + rest),
        decreases path.len() - cursor,
    {
        let ghost rest = path@.skip(cursor as int);
        let ghost before = decoded@;
        if path[cursor] == PERCENT {
            if path.len() - cursor < 3 {
                return None;
            }
            let high = match hex(path[cursor + 1]) {
                Some(high) => high,
                None => return None,
            };
            let low = match hex(path[cursor + 2]) {
                Some(low) => low,
                None => return None,
            };
            decoded.push(high * 16 + low);
            assert(rest.skip(3) =~= path@.skip(cursor + 3));
            assert(percent_decoded(rest.skip(3)) matches Some(tail) ==> before + (seq![
                (high * 16 + low) as u8,
            ] + tail) =~= decoded@ + tail);
            cursor = cursor + 3;
        } else {
            decoded.push(path[cursor]);
            assert(rest.skip(1) =~= path@.skip(cursor + 1));
            assert(percent_decoded(rest.skip(1)) matches Some(tail) ==> before + (seq![rest[0]]
                + tail) =~= decoded@ + tail);
            cursor = cursor + 1;
        }
    }
    assert(path@.skip(path@.len() as int) =~= seq![]);
    assert(decoded@ + Seq::<u8>::empty() =~= decoded@);
    Some(decoded)
}

/// Turns a request target into a path below the document root.
pub fn decode_target(target: &[u8]) -> (path: Result<DecodedPath, RequestError>)
    ensures
        path is Ok <==> decoded_target(target@) is Some,
        path matches Ok(p) ==> p@ == decoded_target(target@)->0,
        path matches Err(e) ==> e is BadRequest,
{
    let end = find(target, QUESTION_MARK);
    let path = slice_subrange(target, 0, end);
    assert(path@ =~= target_path(target@));
    if path.len() == 0 || path[0] != SLASH {
        return Err(RequestError::BadRequest);
    }
    let trailing_slash = path[path.len() - 1] == SLASH;
    let decoded = match percent_decode(path) {
        Some(decoded) => decoded,
        None => return Err(RequestError::BadRequest),
    };
    if contains(decoded.as_slice(), BACKSLASH) || contains_ctl(decoded.as_slice()) {
        return Err(RequestError::BadRequest);
    }
    assert(path_bytes(decoded@)) by {
        assert forall|i: int| 0 <= i < decoded@.len() implies !control(#[trigger] decoded@[i])
            && decoded@[i] != BACKSLASH by {
            assert(decoded@.contains(decoded@[i]));
        }
    }

    let pieces = split_at_each(decoded.as_slice(), SLASH);
    let ghost whole = bytes::split(decoded@, SLASH);
    let ghost pred = |piece: Seq<u8>| piece.len() > 0;
    let mut components: Vec<Vec<u8>> = Vec::new();
    for i in 0..pieces.len()
        invariant
            bytes::pieces(pieces@) == whole,
            whole == bytes::split(decoded@, SLASH),
            target_path(target@).len() > 0 && target_path(target@)[0] == SLASH,
            percent_decoded(target_path(target@)) == Some(decoded@),
            bytes::parts(components@) == filled(whole.take(i as int)),
            forall|j: int|
                0 <= j < components@.len() ==> !is_dots(#[trigger] bytes::parts(components@)[j]),
    {
        let piece = pieces[i];
        assert(whole[i as int] == piece@);
        assert(whole.take(i + 1).drop_last() =~= whole.take(i as int));
        assert(filled(whole.take(i + 1)) == if piece@.len() > 0 {
            filled(whole.take(i as int)).push(piece@)
        } else {
            filled(whole.take(i as int))
        }) by {
            reveal(Seq::filter);
        }
        if piece.len() > 0 {
            let ghost before = components@;
            if (piece.len() == 1 && piece[0] == DOT) || (piece.len() == 2 && piece[0] == DOT && piece[1]
                == DOT) {
                proof {
                    assert(is_dots(piece@)) by {
                        if piece@.len() == 1 {
                            assert(piece@ =~= seq![DOT]);
                        } else {
                            assert(piece@ =~= seq![DOT, DOT]);
                        }
                    }
                    lemma_filled_contains(whole, i as int);
                }
                return Err(RequestError::BadRequest);
            }
            components.push(slice_to_vec(piece));
            assert(bytes::parts(components@) =~= bytes::parts(before).push(piece@));
        }
    }
    assert(whole.take(whole.len() as int) =~= whole);
    Ok(DecodedPath { components, trailing_slash })
}

/// A piece that is not empty stays.
proof fn lemma_filled_contains(pieces: Seq<Seq<u8>>, i: int)
    requires
        0 <= i < pieces.len(),
        pieces[i].len() > 0,
    ensures
        filled(pieces).contains(pieces[i]),
{
    pieces.lemma_filter_contains(|piece: Seq<u8>| piece.len() > 0, i);
}

/// Components with a slash before each.
pub open spec fn joined(components: Seq<Seq<u8>>) -> Seq<u8>
    decreases components.len(),
{
    if components.len() == 0 {
        seq![]
    } else {
        seq![SLASH] + components[0] + joined(components.skip(1))
    }
}

/// Bytes that are decoded one after the other are decoded as one.
proof fn lemma_decoded_concat(first: Seq<u8>, second: Seq<u8>)
    requires
        percent_decoded(first) is Some,
        percent_decoded(second) is Some,
    ensures
        percent_decoded(first + second) == Some(
            percent_decoded(first)->0 + percent_decoded(second)->0,
        ),
    decreases first.len(),
{
    let whole = first + second;
    if first.len() == 0 {
        assert(whole =~= second);
        assert(percent_decoded(first)->0 + percent_decoded(second)->0 =~= percent_decoded(
            second,
        )->0);
    } else {
        let size: int = if first[0] == PERCENT {
            3
        } else {
            1
        };
        let rest = first.skip(size);
        lemma_decoded_concat(rest, second);
        assert(whole.skip(size) =~= rest + second);
        assert(percent_decoded(whole)->0 =~= percent_decoded(first)->0 + percent_decoded(
            second,
        )->0);
    }
}

proof fn lemma_joined_decoded(encoded: Seq<Seq<u8>>, path: Seq<Seq<u8>>)
    requires
        encoded.len() == path.len(),
        forall|i: int|
            0 <= i < path.len() ==> percent_decoded(#[trigger] encoded[i]) == Some(path[i]),
    ensures
        percent_decoded(joined(encoded)) == Some(joined(path)),
    decreases path.len(),
{
    if path.len() > 0 {
        let rest = encoded.skip(1);
        assert forall|i: int| 0 <= i < path.len() - 1 implies percent_decoded(
            #[trigger] rest[i],
        ) == Some(path.skip(1)[i]) by {
            assert(rest[i] == encoded[i + 1]);
        }
        lemma_joined_decoded(rest, path.skip(1));
        let slash = seq![SLASH];
        assert(percent_decoded(slash.skip(1)) == Some(Seq::<u8>::empty()));
        assert(percent_decoded(slash)->0 =~= slash);
        assert(percent_decoded(encoded[0]) == Some(path[0]));
        lemma_decoded_concat(slash, encoded[0]);
        lemma_decoded_concat(slash + encoded[0], joined(rest));
    }
}

/// Components without a slash are the pieces between the slashes.
proof fn lemma_joined_split(path: Seq<Seq<u8>>)
    requires
        path.len() > 0,
        forall|i: int| 0 <= i < path.len() ==> !(#[trigger] path[i]).contains(SLASH),
    ensures
        bytes::split(joined(path).skip(1), SLASH) == path,
        joined(path).len() > 0,
        joined(path)[0] == SLASH,
    decreases path.len(),
{
    let rest = path.skip(1);
    let tail = joined(path).skip(1);
    let n = path[0].len() as int;
    assert(!path[0].contains(SLASH));
    assert(tail =~= path[0] + joined(rest));
    assert forall|j: int| 0 <= j < n implies tail[j] != SLASH by {
        assert(path[0].contains(path[0][j]));
    }
    if rest.len() == 0 {
        assert(tail =~= path[0]);
        bytes::lemma_index_of_first_is(tail, SLASH, n);
        assert(path =~= seq![path[0]]);
    } else {
        assert forall|i: int| 0 <= i < rest.len() implies !(#[trigger] rest[i]).contains(SLASH) by {
            assert(rest[i] == path[i + 1]);
        }
        lemma_joined_split(rest);
        assert(tail[n] == SLASH);
        bytes::lemma_index_of_first_is(tail, SLASH, n);
        assert(tail.take(n) =~= path[0]);
        assert(tail.skip(n + 1) =~= joined(rest).skip(1));
        assert(path =~= seq![path[0]] + rest);
    }
}

proof fn lemma_all_filled(path: Seq<Seq<u8>>)
    requires
        forall|i: int| 0 <= i < path.len() ==> (#[trigger] path[i]).len() > 0,
    ensures
        filled(path) == path,
    decreases path.len(),
{
    reveal(Seq::filter);
    if path.len() > 0 {
        let before = path.drop_last();
        assert forall|i: int| 0 <= i < before.len() implies (#[trigger] before[i]).len() > 0 by {
            assert(before[i] == path[i]);
        }
        lemma_all_filled(before);
        assert(path[path.len() - 1].len() > 0);
        assert(before.push(path.last()) =~= path);
    }
}

proof fn lemma_filled_after_empty(path: Seq<Seq<u8>>)
    requires
        forall|i: int| 0 <= i < path.len() ==> (#[trigger] path[i]).len() > 0,
    ensures
        filled(seq![Seq::<u8>::empty()] + path) == path,
{
    let blank = seq![Seq::<u8>::empty()];
    let keep = |piece: Seq<u8>| piece.len() > 0;
    lemma_all_filled(path);
    Seq::filter_distributes_over_add(blank, path, keep);
    assert(blank.filter(keep) =~= Seq::empty()) by {
        reveal(Seq::filter);
        assert(blank.drop_last().len() == 0);
        assert(blank.drop_last().filter(keep).len() == 0);
    }
    assert(filled(blank + path) =~= filled(path));
}

proof fn lemma_joined_bytes(path: Seq<Seq<u8>>, j: int)
    requires
        0 <= j < joined(path).len(),
    ensures
        joined(path)[j] == SLASH || exists|i: int|
            0 <= i < path.len() && (#[trigger] path[i]).contains(joined(path)[j]),
        j == joined(path).len() - 1 && path.last().len() > 0 ==> joined(path)[j]
            == path.last().last(),
    decreases path.len(),
{
    let rest = path.skip(1);
    let n = path[0].len() as int;
    let whole = joined(path);
    if 0 < j <= n {
        assert(whole[j] == path[0][j - 1]);
        assert(path[0].contains(whole[j]));
        if j == whole.len() - 1 && rest.len() > 0 {
            assert(joined(rest).len() > 0);
        }
    } else if j > n {
        assert(whole[j] == joined(rest)[j - n - 1]);
        lemma_joined_bytes(rest, j - n - 1);
        if exists|i: int| 0 <= i < rest.len() && (#[trigger] rest[i]).contains(whole[j]) {
            let i = choose|i: int| 0 <= i < rest.len() && (#[trigger] rest[i]).contains(whole[j]);
            assert(path[i + 1].contains(whole[j]));
        }
        assert(rest.len() > 0 ==> rest.last() == path.last());
    } else if path.last().len() > 0 && whole.len() == 1 {
        assert(rest.len() > 0 ==> joined(rest).len() > 0);
    }
}

/// Whether `encoded` are ways to write the components of a path that cannot be taken for something
/// else: none holds a slash or a question mark.
pub open spec fn spelled(encoded: Seq<Seq<u8>>, path: Seq<Seq<u8>>) -> bool {
    &&& encoded.len() == path.len()
    &&& forall|i: int|
        0 <= i < encoded.len() ==> {
            &&& percent_decoded(#[trigger] encoded[i]) == Some(path[i])
            &&& !encoded[i].contains(SLASH)
            &&& !encoded[i].contains(QUESTION_MARK)
        }
}

/// Whether no component holds a control character.
pub open spec fn printable(path: Seq<Seq<u8>>) -> bool {
    forall|i: int, j: int|
        0 <= i < path.len() && 0 <= j < path[i].len() ==> !control(#[trigger] path[i][j])
}

proof fn lemma_spelled_path(encoded: Seq<Seq<u8>>, path: Seq<Seq<u8>>)
    requires
        spelled(encoded, path),
    ensures
        target_path(joined(encoded)) == joined(encoded),
{
    let target = joined(encoded);
    assert forall|j: int| 0 <= j < target.len() implies target[j] != QUESTION_MARK by {
        lemma_joined_bytes(encoded, j);
        if target[j] == QUESTION_MARK {
            let i = choose|i: int|
                0 <= i < encoded.len() && (#[trigger] encoded[i]).contains(target[j]);
            assert(percent_decoded(encoded[i]) == Some(path[i]));
        }
    }
    bytes::lemma_index_of_first_is(target, QUESTION_MARK, target.len() as int);
    assert(target_path(target) =~= target);
}

proof fn lemma_spelled_end(encoded: Seq<Seq<u8>>, path: Seq<Seq<u8>>)
    requires
        path.len() > 0,
        safe_path(path),
        spelled(encoded, path),
    ensures
        joined(encoded).len() > 0,
        joined(encoded)[0] == SLASH,
        joined(encoded).last() != SLASH,
{
    let target = joined(encoded);
    let end = encoded[encoded.len() - 1];
    assert(percent_decoded(end) == Some(path[encoded.len() - 1]));
    assert(safe_component(path[encoded.len() - 1]));
    assert(end.len() > 0);
    lemma_joined_bytes(encoded, target.len() - 1);
    assert(end.contains(end.last()));
}

proof fn lemma_joined_path_bytes(path: Seq<Seq<u8>>)
    requires
        safe_path(path),
        printable(path),
    ensures
        path_bytes(joined(path)),
{
    let decoded = joined(path);
    assert forall|j: int| 0 <= j < decoded.len() implies !control(#[trigger] decoded[j])
        && decoded[j] != BACKSLASH by {
        lemma_joined_bytes(path, j);
        if decoded[j] != SLASH {
            let i = choose|i: int| 0 <= i < path.len() && (#[trigger] path[i]).contains(decoded[j]);
            let k = choose|k: int| 0 <= k < path[i].len() && path[i][k] == decoded[j];
            assert(safe_component(path[i]));
            assert(!control(path[i][k]));
        }
    }
}

proof fn lemma_joined_components(path: Seq<Seq<u8>>)
    requires
        path.len() > 0,
        safe_path(path),
    ensures
        filled(bytes::split(joined(path), SLASH)) == path,
{
    let decoded = joined(path);
    assert forall|i: int| 0 <= i < path.len() implies !(#[trigger] path[i]).contains(SLASH)
        && path[i].len() > 0 by {
        assert(safe_component(path[i]));
    }
    lemma_joined_split(path);
    bytes::lemma_index_of_first_is(decoded, SLASH, 0);
    assert(decoded.take(0) =~= Seq::<u8>::empty());
    assert(bytes::split(decoded, SLASH) =~= seq![Seq::<u8>::empty()] + path);
    lemma_filled_after_empty(path);
}

/// However a client encodes the components of a path, the path that the target names is that path,
/// as long as the components name entries of their directories and hold no control character, and
/// as no encoded one holds a slash or a question mark.
pub proof fn targets_name_their_paths(encoded: Seq<Seq<u8>>, path: Seq<Seq<u8>>)
    requires
        path.len() > 0,
        safe_path(path),
        printable(path),
        spelled(encoded, path),
    ensures
        decoded_target(joined(encoded)) == Some(
            PathModel { components: path, trailing_slash: false },
        ),
{
    lemma_spelled_path(encoded, path);
    lemma_spelled_end(encoded, path);
    lemma_joined_decoded(encoded, path);
    lemma_joined_path_bytes(path);
    lemma_joined_components(path);
    assert forall|i: int| 0 <= i < path.len() implies !is_dots(#[trigger] path[i]) by {
        assert(safe_component(path[i]));
    }
}

/// The query plays no part in what a target names.
pub proof fn queries_play_no_part(path: Seq<u8>, query: Seq<u8>)
    requires
        !path.contains(63u8),
    ensures
        decoded_target(path + seq![63u8] + query) == decoded_target(path),
{
    let target = path + seq![63u8] + query;
    assert forall|j: int| 0 <= j < path.len() implies target[j] != QUESTION_MARK && path[j]
        != QUESTION_MARK by {
        assert(target[j] == path[j]);
        assert(path.contains(path[j]));
    }
    bytes::lemma_index_of_first_is(target, QUESTION_MARK, path.len() as int);
    bytes::lemma_index_of_first_is(path, QUESTION_MARK, path.len() as int);
    assert(target_path(target) =~= path);
    assert(target_path(path) =~= path);
}

/// A target that does not begin with a slash names nothing.
pub proof fn targets_begin_with_a_slash(target: Seq<u8>)
    requires
        target.len() == 0 || target[0] != 47,
    ensures
        decoded_target(target) is None,
{
    bytes::lemma_index_of_first(target, QUESTION_MARK);
    let path = target_path(target);
    if path.len() > 0 {
        assert(path[0] == target[0]);
    }
}

/// The components that are not empty.
pub open spec fn without_empty(path: Seq<Seq<u8>>) -> Seq<Seq<u8>> {
    path.filter(|component: Seq<u8>| component.len() > 0)
}

/// The last byte of joined components is a slash exactly when the last of them is empty.
proof fn lemma_joined_last(path: Seq<Seq<u8>>)
    requires
        path.len() > 0,
    ensures
        joined(path).len() > 0,
        joined(path)[0] == SLASH,
        path.last().len() == 0 ==> joined(path).last() == SLASH,
        path.last().len() > 0 ==> joined(path).last() == path.last().last(),
    decreases path.len(),
{
    let rest = path.skip(1);
    let whole = joined(path);
    assert(whole == seq![SLASH] + path[0] + joined(rest));
    if path.len() > 1 {
        lemma_joined_last(rest);
        assert(rest.last() == path.last());
        assert(whole.last() == joined(rest).last());
    } else {
        assert(joined(rest).len() == 0);
        assert(whole =~= seq![SLASH] + path[0]);
        if path[0].len() > 0 {
            assert(whole.last() == path[0].last());
        }
    }
}

proof fn lemma_printable_joined(path: Seq<Seq<u8>>)
    requires
        printable(path),
        forall|i: int| 0 <= i < path.len() ==> !(#[trigger] path[i]).contains(BACKSLASH),
    ensures
        path_bytes(joined(path)),
{
    let decoded = joined(path);
    assert forall|j: int| 0 <= j < decoded.len() implies !control(#[trigger] decoded[j])
        && decoded[j] != BACKSLASH by {
        lemma_joined_bytes(path, j);
        if decoded[j] != SLASH {
            let i = choose|i: int| 0 <= i < path.len() && (#[trigger] path[i]).contains(decoded[j]);
            let k = choose|k: int| 0 <= k < path[i].len() && path[i][k] == decoded[j];
            assert(!path[i].contains(BACKSLASH));
            assert(!control(path[i][k]));
        }
    }
}

proof fn lemma_decoded_pieces(path: Seq<Seq<u8>>)
    requires
        path.len() > 0,
        forall|i: int| 0 <= i < path.len() ==> !(#[trigger] path[i]).contains(SLASH),
    ensures
        filled(bytes::split(joined(path), SLASH)) == without_empty(path),
{
    let decoded = joined(path);
    lemma_joined_split(path);
    bytes::lemma_index_of_first_is(decoded, SLASH, 0);
    assert(decoded.take(0) =~= Seq::<u8>::empty());
    let blank = seq![Seq::<u8>::empty()];
    let keep = |piece: Seq<u8>| piece.len() > 0;
    assert(bytes::split(decoded, SLASH) =~= blank + path);
    Seq::filter_distributes_over_add(blank, path, keep);
    assert(blank.filter(keep) =~= Seq::empty()) by {
        reveal(Seq::filter);
        assert(blank.drop_last().len() == 0);
        assert(blank.drop_last().filter(keep).len() == 0);
    }
    assert(filled(blank + path) =~= path.filter(keep));
    assert(without_empty(path) =~= path.filter(keep));
}

/// The components that a target names are those between its slashes, decoded and without the empty
/// ones, so that several slashes in a row count as one; and it ends in a slash exactly when the
/// last of them is empty.
pub proof fn slashes_part_components(encoded: Seq<Seq<u8>>, path: Seq<Seq<u8>>)
    requires
        path.len() > 0,
        spelled(encoded, path),
        printable(path),
        forall|i: int|
            0 <= i < path.len() && (#[trigger] path[i]).len() > 0 ==> safe_component(path[i]),
    ensures
        decoded_target(joined(encoded)) == Some(
            PathModel {
                components: without_empty(path),
                trailing_slash: path.last().len() == 0,
            },
        ),
{
    lemma_spelled_path(encoded, path);
    lemma_joined_decoded(encoded, path);
    assert forall|i: int| 0 <= i < path.len() implies !(#[trigger] path[i]).contains(SLASH)
        && !path[i].contains(BACKSLASH) by {
        if path[i].len() > 0 {
            assert(safe_component(path[i]));
        }
    }
    lemma_decoded_pieces(path);
    lemma_printable_joined(path);
    let components = without_empty(path);
    assert forall|i: int| 0 <= i < components.len() implies !is_dots(#[trigger] components[i]) by {
        let keep = |piece: Seq<u8>| piece.len() > 0;
        assert(components == path.filter(keep));
        path.lemma_filter_pred(keep, i);
        assert(components.contains(components[i]));
        path.lemma_filter_contains_rev(keep, components[i]);
        let k = choose|k: int| 0 <= k < path.len() && path[k] == components[i];
        assert(safe_component(path[k]));
    }
    lemma_joined_last(encoded);
    let end = encoded[encoded.len() - 1];
    assert(percent_decoded(end) == Some(path[path.len() - 1]));
    assert(path.last().len() == 0 <==> end.len() == 0) by {
        if end.len() > 0 && path.last().len() == 0 {
            assert(percent_decoded(end)->0.len() > 0);
        }
    }
    if end.len() > 0 {
        assert(end.contains(end.last()));
    }
}

/// A slash behind the path of a target is only a slash behind it: the path is the same.
pub proof fn trailing_slashes_are_noticed(encoded: Seq<Seq<u8>>, path: Seq<Seq<u8>>)
    requires
        path.len() > 0,
        safe_path(path),
        printable(path),
        spelled(encoded, path),
    ensures
        decoded_target(joined(encoded) + seq![47u8]) == Some(
            PathModel { components: path, trailing_slash: true },
        ),
{
    let none = Seq::<u8>::empty();
    let longer = encoded.push(none);
    let with_end = path.push(none);
    assert(percent_decoded(none) == Some(none));
    assert forall|i: int| 0 <= i < longer.len() implies ({
        &&& percent_decoded(#[trigger] longer[i]) == Some(with_end[i])
        &&& !longer[i].contains(SLASH)
        &&& !longer[i].contains(QUESTION_MARK)
    }) by {
        if i < encoded.len() {
            assert(longer[i] == encoded[i]);
        }
    }
    assert forall|i: int, j: int|
        0 <= i < with_end.len() && 0 <= j < with_end[i].len() implies !control(
        #[trigger] with_end[i][j],
    ) by {
        assert(with_end[i] == path[i]);
        assert(!control(path[i][j]));
    }
    assert forall|i: int|
        0 <= i < with_end.len() && (#[trigger] with_end[i]).len() > 0 implies safe_component(
        with_end[i],
    ) by {
        assert(with_end[i] == path[i]);
    }
    slashes_part_components(longer, with_end);
    lemma_joined_push(encoded, none);
    assert(joined(longer) =~= joined(encoded) + seq![47u8]);
    let keep = |piece: Seq<u8>| piece.len() > 0;
    assert(without_empty(with_end) == without_empty(path)) by {
        reveal(Seq::filter);
        assert(with_end.drop_last() =~= path);
    }
    assert forall|i: int| 0 <= i < path.len() implies (#[trigger] path[i]).len() > 0 by {
        assert(safe_component(path[i]));
    }
    lemma_all_filled(path);
    assert(filled(path) =~= without_empty(path));
}

proof fn lemma_joined_push(components: Seq<Seq<u8>>, last: Seq<u8>)
    ensures
        joined(components.push(last)) == joined(components) + seq![SLASH] + last,
    decreases components.len(),
{
    let whole = components.push(last);
    if components.len() == 0 {
        assert(joined(whole.skip(1)) =~= Seq::<u8>::empty());
        assert(joined(whole) =~= joined(components) + seq![SLASH] + last);
    } else {
        lemma_joined_push(components.skip(1), last);
        assert(whole.skip(1) =~= components.skip(1).push(last));
        assert(joined(whole) =~= joined(components) + seq![SLASH] + last);
    }
}

/// The root, written as a lone slash, names no component.
pub proof fn the_root_is_a_lone_slash()
    ensures
        decoded_target(seq![47u8]) == Some(
            PathModel { components: Seq::<Seq<u8>>::empty(), trailing_slash: true },
        ),
{
    let none = seq![Seq::<u8>::empty()];
    assert(percent_decoded(none[0]) == Some(none[0]));
    slashes_part_components(none, none);
    assert(joined(none.skip(1)) =~= Seq::<u8>::empty());
    assert(joined(none) =~= seq![47u8]);
    assert(without_empty(none) =~= Seq::<Seq<u8>>::empty()) by {
        reveal(Seq::filter);
        let keep = |piece: Seq<u8>| piece.len() > 0;
        assert(none.drop_last().len() == 0);
        assert(none.drop_last().filter(keep).len() == 0);
    }
}

/// Whether a decoded component is one that no path may have: `.`, `..`, or one with a backslash, a
/// NUL or another control character in it.
pub open spec fn forbidden(component: Seq<u8>) -> bool {
    ||| component == seq![46u8]
    ||| component == seq![46u8, 46u8]
    ||| exists|j: int|
        0 <= j < component.len() && (#[trigger] component[j] == 92 || component[j] <= 31
            || component[j] == 127)
}

/// A target with a forbidden component is refused, however it is encoded.
pub proof fn forbidden_components_are_refused(
    encoded: Seq<Seq<u8>>,
    path: Seq<Seq<u8>>,
    i: int,
)
    requires
        spelled(encoded, path),
        0 <= i < path.len(),
        forall|k: int| 0 <= k < path.len() ==> !(#[trigger] path[k]).contains(SLASH),
        forbidden(path[i]),
    ensures
        decoded_target(joined(encoded)) is None,
{
    lemma_spelled_path(encoded, path);
    lemma_joined_decoded(encoded, path);
    lemma_decoded_pieces(path);
    if path[i] == seq![46u8] || path[i] == seq![46u8, 46u8] {
        let keep = |piece: Seq<u8>| piece.len() > 0;
        assert(without_empty(path) == path.filter(keep));
        path.lemma_filter_contains(keep, i);
        let components = without_empty(path);
        let k = choose|k: int| 0 <= k < components.len() && components[k] == path[i];
        assert(is_dots(components[k]));
    } else {
        let j = choose|j: int|
            0 <= j < path[i].len() && (#[trigger] path[i][j] == 92 || path[i][j] <= 31 || path[i][j]
                == 127);
        let at = lemma_joined_place(path, i, j);
        assert(control(joined(path)[at]) || joined(path)[at] == BACKSLASH);
    }
}

/// Where a byte of a component stands among the joined ones.
proof fn lemma_joined_place(path: Seq<Seq<u8>>, i: int, j: int) -> (at: int)
    requires
        0 <= i < path.len(),
        0 <= j < path[i].len(),
    ensures
        0 <= at < joined(path).len(),
        joined(path)[at] == path[i][j],
    decreases path.len(),
{
    let rest = path.skip(1);
    if i == 0 {
        assert(joined(path)[j + 1] == path[0][j]);
        j + 1
    } else {
        let at = lemma_joined_place(rest, i - 1, j);
        assert(rest[i - 1] == path[i]);
        let here = at + 1 + path[0].len();
        assert(joined(path)[here] == joined(rest)[at]);
        here
    }
}

/// The digit of a hexadecimal place, in upper or in lower case.
pub open spec fn hex_sign(place: int, upper: bool) -> u8 {
    if place < 10 {
        (48 + place) as u8
    } else if upper {
        (55 + place) as u8
    } else {
        (87 + place) as u8
    }
}

/// A percent sign and the two hexadecimal digits of a byte, in either case, stand for the byte.
pub proof fn escapes_stand_for_their_byte(b: u8, first_upper: bool, second_upper: bool)
    ensures
        percent_decoded(
            seq![
                37u8,
                hex_sign(b as int / 16, first_upper),
                hex_sign(b as int % 16, second_upper),
            ],
        ) == Some(seq![b]),
{
    let high = b as int / 16;
    let low = b as int % 16;
    let s = seq![37u8, hex_sign(high, first_upper), hex_sign(low, second_upper)];
    assert(hex_value(s[1]) == Some(high));
    assert(hex_value(s[2]) == Some(low));
    assert(s.skip(3) =~= Seq::<u8>::empty());
    assert(percent_decoded(s.skip(3)) == Some(Seq::<u8>::empty()));
    assert(high * 16 + low == b);
    assert(percent_decoded(s)->0 =~= seq![b]);
}

/// A byte that is no percent sign stands for itself.
pub proof fn other_bytes_stand_for_themselves(b: u8)
    requires
        b != 37,
    ensures
        percent_decoded(seq![b]) == Some(seq![b]),
{
    let s = seq![b];
    assert(s.skip(1) =~= Seq::<u8>::empty());
    assert(percent_decoded(s.skip(1)) == Some(Seq::<u8>::empty()));
    assert(percent_decoded(s)->0 =~= seq![b]);
}

/// What stands for bytes one after the other stands for them together.
pub proof fn encodings_can_be_put_together(first: Seq<u8>, second: Seq<u8>)
    requires
        percent_decoded(first) is Some,
    ensures
        percent_decoded(first + second) == match percent_decoded(second) {
            Some(rest) => Some(percent_decoded(first)->0 + rest),
            None => None,
        },
    decreases first.len(),
{
    if percent_decoded(second) is Some {
        lemma_decoded_concat(first, second);
    } else if first.len() == 0 {
        assert(first + second =~= second);
    } else {
        let whole = first + second;
        let size: int = if first[0] == PERCENT {
            3
        } else {
            1
        };
        encodings_can_be_put_together(first.skip(size), second);
        assert(whole.skip(size) =~= first.skip(size) + second);
    }
}

/// A percent sign without two hexadecimal digits behind it makes a target be refused, wherever in
/// the path it stands.
pub proof fn broken_escapes_are_refused(before: Seq<u8>, after: Seq<u8>)
    requires
        percent_decoded(before) is Some,
        !before.contains(63u8),
        !after.contains(63u8),
        after.len() < 2 || hex_value(after[0]) is None || hex_value(after[1]) is None,
    ensures
        decoded_target(before + (seq![37u8] + after)) is None,
{
    let broken = seq![37u8] + after;
    let target = before + broken;
    if after.len() >= 2 {
        assert(broken[1] == after[0] && broken[2] == after[1]);
    }
    assert(percent_decoded(broken) is None);
    encodings_can_be_put_together(before, broken);
    assert forall|j: int| 0 <= j < target.len() implies target[j] != QUESTION_MARK by {
        if j < before.len() {
            assert(before.contains(before[j]));
        } else if j > before.len() {
            assert(target[j] == after[j - before.len() - 1]);
            assert(after.contains(after[j - before.len() - 1]));
        }
    }
    bytes::lemma_index_of_first_is(target, QUESTION_MARK, target.len() as int);
    assert(target_path(target) =~= target);
}

/// The hexadecimal digits are `0` to `9`, `a` to `f` and `A` to `F`, and nothing else.
pub proof fn hex_digits_are_these(b: u8)
    ensures
        hex_value(b) is Some <==> (48 <= b <= 57 || 97 <= b <= 102 || 65 <= b <= 70),
{
}

/// A slash that is written as `%2F` or `%2f` parts components like any other, behind the slash that
/// a target begins with.
pub proof fn encoded_slashes_part_components(before: Seq<u8>, after: Seq<u8>, lower: bool)
    requires
        before.len() > 0,
        before[0] == 47,
        percent_decoded(before) is Some,
        percent_decoded(after) is Some,
        after.len() > 0,
        !before.contains(63u8),
        !after.contains(63u8),
    ensures
        decoded_target(
            before + (seq![
                37u8,
                50u8,
                if lower {
                    102u8
                } else {
                    70u8
                },
            ] + after),
        ) == decoded_target(before + (seq![47u8] + after)),
{
    let sign = seq![
        37u8,
        50u8,
        if lower {
            102u8
        } else {
            70u8
        },
    ];
    let plain = seq![47u8];
    escapes_stand_for_their_byte(47, !lower, !lower);
    assert(seq![37u8, hex_sign(2, !lower), hex_sign(15, !lower)] =~= sign);
    other_bytes_stand_for_themselves(47);
    encodings_can_be_put_together(sign, after);
    encodings_can_be_put_together(plain, after);
    encodings_can_be_put_together(before, sign + after);
    encodings_can_be_put_together(before, plain + after);
    let (first, second) = (before + (sign + after), before + (plain + after));
    lemma_no_query(before, sign, after);
    lemma_no_query(before, plain, after);
    assert(first.last() == after.last() && second.last() == after.last());
    assert(first[0] == before[0] && second[0] == before[0]);
}

proof fn lemma_no_query(before: Seq<u8>, middle: Seq<u8>, after: Seq<u8>)
    requires
        !before.contains(63u8),
        forall|j: int| 0 <= j < middle.len() ==> #[trigger] middle[j] != 63,
        !after.contains(63u8),
    ensures
        target_path(before + (middle + after)) == before + (middle + after),
{
    let target = before + (middle + after);
    assert forall|j: int| 0 <= j < target.len() implies target[j] != QUESTION_MARK by {
        if j < before.len() {
            assert(before.contains(before[j]));
        } else if j < before.len() + middle.len() {
            assert(target[j] == middle[j - before.len()]);
        } else {
            assert(target[j] == after[j - before.len() - middle.len()]);
            assert(after.contains(after[j - before.len() - middle.len()]));
        }
    }
    bytes::lemma_index_of_first_is(target, QUESTION_MARK, target.len() as int);
    assert(target_path(target) =~= target);
}

/// Bytes among which there is no percent sign stand for themselves.
pub proof fn plain_bytes_stand_for_themselves(s: Seq<u8>)
    requires
        !s.contains(37u8),
    ensures
        percent_decoded(s) == Some(s),
    decreases s.len(),
{
    if s.len() > 0 {
        let rest = s.skip(1);
        assert(s.contains(s[0]));
        assert forall|i: int| 0 <= i < rest.len() implies rest[i] != 37 by {
            assert(rest[i] == s[i + 1]);
            assert(s.contains(s[i + 1]));
        }
        plain_bytes_stand_for_themselves(rest);
        assert(seq![s[0]] + rest =~= s);
    } else {
        assert(s =~= Seq::<u8>::empty());
    }
}

/// The control characters are those up to 31, and 127.
pub proof fn control_characters_are_these(b: u8)
    ensures
        control(b) <==> b <= 31 || b == 127,
{
}

/// A component names an entry of its directory exactly when it is not empty, `.` or `..`, and holds
/// no slash, backslash or NUL.
pub proof fn safe_components_are_these(component: Seq<u8>)
    ensures
        safe_component(component) <==> {
            &&& component.len() > 0
            &&& component != seq![46u8]
            &&& component != seq![46u8, 46u8]
            &&& forall|i: int|
                0 <= i < component.len() ==> #[trigger] component[i] != 47 && component[i] != 92
                    && component[i] != 0
        },
{
    if safe_component(component) {
        assert forall|i: int| 0 <= i < component.len() implies #[trigger] component[i] != 47
            && component[i] != 92 && component[i] != 0 by {
            assert(component.contains(component[i]));
        }
    }
}

/// Only a slash that is written as one at the end of the path makes a trailing slash.
pub proof fn trailing_slashes_are_as_written(path: Seq<u8>)
    requires
        !path.contains(63u8),
        decoded_target(path) is Some,
    ensures
        path.len() > 0,
        decoded_target(path)->0.trailing_slash <==> path.last() == 47,
{
    assert forall|j: int| 0 <= j < path.len() implies path[j] != QUESTION_MARK by {
        assert(path.contains(path[j]));
    }
    bytes::lemma_index_of_first_is(path, QUESTION_MARK, path.len() as int);
    assert(target_path(path) =~= path);
}

} // verus!
