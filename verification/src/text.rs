//! Facts about UTF-8 byte positions, and the few string operations that
//! the reader needs beyond what vstd specifies.
use vstd::prelude::*;
use vstd::utf8::*;

use crate::model::whitespace_char;

verus! {

broadcast use vstd::utf8::group_utf8_lib;

/// Every character takes at least one byte, so a text never has more
/// characters than its encoding has bytes.
pub proof fn lemma_chars_le_bytes(t: Seq<char>)
    ensures
        t.len() <= encode_utf8(t).len(),
    decreases t.len(),
{
    if t.len() > 0 {
        lemma_chars_le_bytes(t.drop_first());
        let s = t[0] as u32;
        assert(encode_scalar(s).len() >= 1);
    }
}

/// A character boundary of a text that lies at or after another boundary
/// `from` is also a boundary of the text that starts at `from`.
pub proof fn lemma_boundary_shift(b: Seq<u8>, from: int, to: int)
    requires
        valid_utf8(b),
        from <= to,
        is_char_boundary(b, from),
        is_char_boundary(b, to),
    ensures
        valid_utf8(b.subrange(from, b.len() as int)),
        is_char_boundary(b.subrange(from, b.len() as int), to - from),
{
    let s = b.subrange(from, b.len() as int);
    valid_utf8_split(b, from);
    if to - from == 0 {
    } else if to == b.len() {
        is_char_boundary_start_end_of_seq(s);
    } else {
        assert(0 <= to < b.len()) by {
            reveal_with_fuel(is_char_boundary, 1);
        }
        is_char_boundary_iff_not_is_continuation_byte(b, to);
        assert(s[to - from] == b[to]);
        is_char_boundary_iff_not_is_continuation_byte(s, to - from);
    }
}

/// A boundary followed by a one-byte (ASCII) character is followed by
/// another boundary.
pub proof fn lemma_boundary_after_ascii(b: Seq<u8>, i: int)
    requires
        valid_utf8(b),
        is_char_boundary(b, i),
        0 <= i < b.len(),
        b[i] < 0x80,
    ensures
        is_char_boundary(b, i + 1),
{
    if i + 1 == b.len() {
        is_char_boundary_start_end_of_seq(b);
    } else {
        let s = b.subrange(i, b.len() as int);
        valid_utf8_split(b, i);
        assert(s[0] == b[i]);
        assert(length_of_first_scalar(s) == 1);
        let rest = pop_first_scalar(s);
        assert(valid_utf8(rest));
        assert(rest =~= b.subrange(i + 1, b.len() as int));
        assert(rest.len() > 0);
        assert(valid_first_scalar(rest));
        assert(rest[0] == b[i + 1]);
        assert(!is_continuation_byte(b[i + 1]));
        is_char_boundary_iff_not_is_continuation_byte(b, i + 1);
    }
}

/// The part of `s` between the byte positions `from` and `to`.
pub fn byte_slice(s: &str, from: usize, to: usize) -> (r: &str)
    requires
        from <= to,
        is_char_boundary(encode_utf8(s@), from as int),
        is_char_boundary(encode_utf8(s@), to as int),
    ensures
        encode_utf8(r@) == encode_utf8(s@).subrange(from as int, to as int),
        r@ == decode_utf8(encode_utf8(s@).subrange(from as int, to as int)),
{
    let ghost b = encode_utf8(s@);
    proof {
        lemma_boundary_shift(b, from as int, to as int);
        assert(is_char_boundary(b, to as int) ==> to <= b.len()) by {
            reveal_with_fuel(is_char_boundary, 1);
        }
    }
    let (_, tail) = s.split_at(from);
    assert(encode_utf8(tail@) =~= b.subrange(from as int, b.len() as int));
    let (mid, _) = tail.split_at(to - from);
    assert(encode_utf8(mid@) =~= b.subrange(from as int, to as int));
    mid
}

/// Whether `c` is one of `set`.
pub fn contains_char(set: &[char], c: char) -> (found: bool)
    ensures
        found == set@.contains(c),
{
    let mut i: usize = 0;
    while i < set.len()
        invariant
            0 <= i <= set@.len(),
            forall|j: int| 0 <= j < i ==> set@[j] != c,
        decreases set@.len() - i,
    {
        if set[i] == c {
            assert(set@[i as int] == c);
            return true;
        }
        i += 1;
    }
    false
}

/// Appends `c` to `s` by `String::push`, which std documents as appending
/// the given char to the end of the string; claimed here as exactly that.
#[verifier::external_body]
pub fn push_char(s: &mut String, c: char)
    ensures
        final(s)@ == old(s)@.push(c),
{
    s.push(c);
}

/// Whether `c` is whitespace: whether it has the Unicode White_Space
/// property, as `char::is_whitespace` tells.
pub fn is_whitespace(c: char) -> (b: bool)
    ensures
        b == whitespace_char(c),
{
    let u = c as u32;
    (0x09 <= u && u <= 0x0d) || u == 0x20 || u == 0x85 || u == 0xa0 || u == 0x1680 || (0x2000
        <= u && u <= 0x200a) || u == 0x2028 || u == 0x2029 || u == 0x202f || u == 0x205f || u
        == 0x3000
}

/// Parses `s` by `str::parse::<T>`, that is by `T`'s `FromStr` impl, and
/// keeps the number where that succeeds. Nothing is claimed of the outcome:
/// it is up to `T`'s impl.
#[verifier::external_body]
pub fn parse_number<T: std::str::FromStr>(s: &str) -> Option<T> {
    s.parse::<T>().ok()
}

/// The number of bytes in the UTF-8 encoding of `s`.
pub fn encoded_len(s: &str) -> (n: usize)
    ensures
        n == encode_utf8(s@).len(),
{
    s.as_bytes().len()
}

} // verus!
