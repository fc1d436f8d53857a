//! The meaning of each reading operation, written as functions of the text
//! (its characters and its UTF-8 bytes) and the cursor.
//!
//! The cursor counts bytes when the reader tests how much is left or looks
//! at single bytes, and counts characters when it takes the next
//! character. On ASCII text the two agree; elsewhere each operation below
//! states exactly which one it uses.
use vstd::prelude::*;
use vstd::utf8::*;

use crate::error::ReaderError;

verus! {

/// The escape character.
pub const ESCAPE: char = '\\';

/// The double quote.
pub const DOUBLE_QUOTE: char = '"';

/// The single quote.
pub const SINGLE_QUOTE: char = '\'';

/// Characters that can make up a number before it is parsed.
pub open spec fn number_char(c: char) -> bool {
    ('0' <= c && c <= '9') || c == '.' || c == '-'
}

/// Characters that open (and close) a quoted string.
pub open spec fn quote_char(c: char) -> bool {
    c == DOUBLE_QUOTE || c == SINGLE_QUOTE
}

/// Characters allowed in an unquoted string.
pub open spec fn unquoted_char(c: char) -> bool {
    ||| ('0' <= c && c <= '9')
    ||| ('A' <= c && c <= 'Z')
    ||| ('a' <= c && c <= 'z')
    ||| c == '_'
    ||| c == '-'
    ||| c == '.'
    ||| c == '+'
}

/// The characters with the Unicode White_Space property.
pub open spec fn whitespace_char(c: char) -> bool {
    let u = c as u32;
    ||| (0x09 <= u && u <= 0x0d)
    ||| u == 0x20
    ||| u == 0x85
    ||| u == 0xa0
    ||| u == 0x1680
    ||| (0x2000 <= u && u <= 0x200a)
    ||| u == 0x2028
    ||| u == 0x2029
    ||| u == 0x202f
    ||| u == 0x205f
    ||| u == 0x3000
}

/// The character that a single byte stands for when it is read on its own
/// (the byte's value as a code point).
pub open spec fn byte_char(b: u8) -> char {
    b as char
}

/// The first byte position at or after `p` whose byte, read as a
/// character, is not in `class`; the length of `bytes` if there is none.
pub open spec fn span_end(bytes: Seq<u8>, p: int, class: spec_fn(char) -> bool) -> int
    decreases bytes.len() - p,
{
    if p < bytes.len() && class(byte_char(bytes[p])) {
        span_end(bytes, p + 1, class)
    } else {
        p
    }
}

/// The class of characters that whitespace skipping passes over.
pub open spec fn whitespace_class() -> spec_fn(char) -> bool {
    |c: char| whitespace_char(c)
}

/// The class of characters that make up a number.
pub open spec fn number_class() -> spec_fn(char) -> bool {
    |c: char| number_char(c)
}

/// The class of characters that make up an unquoted string.
pub open spec fn unquoted_class() -> spec_fn(char) -> bool {
    |c: char| unquoted_char(c)
}

/// Skipping a class of one-byte characters from a character boundary ends
/// at a character boundary.
pub proof fn lemma_span_keeps_boundary(bytes: Seq<u8>, p: int, class: spec_fn(char) -> bool)
    requires
        valid_utf8(bytes),
        is_char_boundary(bytes, p),
        forall|c: char| #[trigger] class(c) ==> (c as u32) < 0x80,
    ensures
        is_char_boundary(bytes, span_end(bytes, p, class)),
        p <= span_end(bytes, p, class) <= bytes.len(),
    decreases bytes.len() - p,
{
    assert(p <= bytes.len()) by {
        reveal_with_fuel(is_char_boundary, 1);
    }
    if p < bytes.len() && class(byte_char(bytes[p])) {
        assert(bytes[p] < 0x80);
        crate::text::lemma_boundary_after_ascii(bytes, p);
        lemma_span_keeps_boundary(bytes, p + 1, class);
    }
}

/// The message of a number that does not parse.
pub open spec fn number_error_text(num: Seq<char>) -> Seq<char> {
    seq!['i', 'n', 'v', 'a', 'l', 'i', 'd', ' ', 'n', 'u', 'm', 'b', 'e', 'r', ':', ' '] + num
}

/// The text of the boolean `true`.
pub open spec fn true_text() -> Seq<char> {
    seq!['t', 'r', 'u', 'e']
}

/// The text of the boolean `false`.
pub open spec fn false_text() -> Seq<char> {
    seq!['f', 'a', 'l', 's', 'e']
}

/// A result of the reader, with the string it holds taken by its characters.
pub open spec fn view_result(r: Result<String, ReaderError>) -> Result<Seq<char>, ReaderError> {
    match r {
        Ok(s) => Ok(s@),
        Err(e) => Err(e),
    }
}

/// The outcome of reading a run of characters that may hold escapes,
/// from character position `p`, with the text's byte length `limit` as the
/// end of input. Reading stops at a character of `stops` that is not
/// escaped: it is consumed when `consume_stop` holds, and reaching the end
/// without one is an error when `stop_required` holds. An escape may only
/// precede a stop character or another escape. `escaped` tells whether the
/// previous character was an unconsumed escape, `acc` what was read so far.
///
/// The outcome is the result and the cursor afterwards; it is `None` where
/// the reader would take a character past the end of the text.
pub open spec fn escaped_scan(
    text: Seq<char>,
    limit: int,
    p: int,
    stops: Seq<char>,
    consume_stop: bool,
    stop_required: bool,
    escaped: bool,
    acc: Seq<char>,
) -> Option<(Result<Seq<char>, ReaderError>, int)>
    decreases limit - p,
{
    if p >= limit {
        if stop_required {
            Some((Err(ReaderError::ExpectedEndOfQuote), p))
        } else {
            Some((Ok(acc), p))
        }
    } else if p < 0 || p >= text.len() {
        None
    } else {
        let c = text[p];
        if escaped {
            if stops.contains(c) || c == ESCAPE {
                escaped_scan(text, limit, p + 1, stops, consume_stop, stop_required, false, acc.push(c))
            } else {
                Some((Err(ReaderError::InvalidEscape), p))
            }
        } else if c == ESCAPE {
            escaped_scan(text, limit, p + 1, stops, consume_stop, stop_required, true, acc)
        } else if stops.contains(c) {
            Some((Ok(acc), if consume_stop { p + 1 } else { p }))
        } else {
            escaped_scan(text, limit, p + 1, stops, consume_stop, stop_required, false, acc.push(c))
        }
    }
}

/// Reading until `end`, which must come: the outcome of `read_string_until`.
pub open spec fn until_outcome(text: Seq<char>, limit: int, p: int, end: char) -> Option<
    (Result<Seq<char>, ReaderError>, int),
> {
    escaped_scan(text, limit, p, seq![end], true, true, false, seq![])
}

/// Reading until a space or the end: the outcome of `read_string_until_end`.
pub open spec fn until_end_outcome(text: Seq<char>, limit: int, p: int) -> Option<
    (Result<Seq<char>, ReaderError>, int),
> {
    escaped_scan(text, limit, p, seq![' '], true, false, false, seq![])
}

/// Reading until one of `ends` (left unread) or the end: the outcome of
/// `read_string_until_vec`.
pub open spec fn until_any_outcome(text: Seq<char>, limit: int, p: int, ends: Seq<char>) -> Option<
    (Result<Seq<char>, ReaderError>, int),
> {
    escaped_scan(text, limit, p, ends, false, false, false, seq![])
}

/// Reading an unquoted string from byte position `p`: the characters whose
/// bytes lie between `p` and the end of the run of allowed bytes. `None`
/// where `p` is not a character boundary, so the text cannot be cut there.
pub open spec fn unquoted_outcome(bytes: Seq<u8>, p: int) -> Option<(Result<Seq<char>, ReaderError>, int)> {
    if is_char_boundary(bytes, p) {
        let e = span_end(bytes, p, unquoted_class());
        Some((Ok(decode_utf8(bytes.subrange(p, e))), e))
    } else {
        None
    }
}

/// The outcome of `read_quoted_string` on `text` with the cursor at `p`.
pub open spec fn quoted_outcome(text: Seq<char>, p: int) -> Option<(Result<Seq<char>, ReaderError>, int)> {
    let bytes = encode_utf8(text);
    if p >= bytes.len() {
        Some((Ok(seq![]), p))
    } else {
        let q = byte_char(bytes[p]);
        if quote_char(q) {
            until_outcome(text, bytes.len() as int, p + 1, q)
        } else {
            Some((Err(ReaderError::ExpectedStartOfQuote), p))
        }
    }
}

/// The outcome of `read_string` on `text` with the cursor at `p`.
pub open spec fn string_outcome(text: Seq<char>, p: int) -> Option<(Result<Seq<char>, ReaderError>, int)> {
    let bytes = encode_utf8(text);
    if p >= bytes.len() {
        Some((Ok(seq![]), p))
    } else {
        let q = byte_char(bytes[p]);
        if quote_char(q) {
            until_outcome(text, bytes.len() as int, p + 1, q)
        } else {
            unquoted_outcome(bytes, p)
        }
    }
}

/// Where `read_n(n)` from character position `p` stops: `n` characters
/// on, or at the end of input `limit`, whichever comes first.
pub open spec fn take_n_stop(limit: int, p: int, n: int) -> int {
    if p >= limit {
        p
    } else if p + n <= limit {
        p + n
    } else {
        limit
    }
}

/// The outcome of reading up to the balancing `close` of the first `open`,
/// from character position `p`. `depth` counts the open brackets outside
/// quotes, `in_quotes` tells whether a quote is open, `found` whether an
/// `open` was seen, `acc` what was read so far. `None` where the reader
/// would take a character past the end of the text, or nest deeper than
/// its counter holds.
pub open spec fn balanced_scan(
    text: Seq<char>,
    limit: int,
    p: int,
    open: char,
    close: char,
    depth: int,
    in_quotes: bool,
    found: bool,
    acc: Seq<char>,
) -> Option<(Result<Seq<char>, ReaderError>, int)>
    decreases limit - p,
{
    if p >= limit {
        if found {
            Some((Err(ReaderError::NoClosing), p))
        } else {
            Some((Ok(acc), p))
        }
    } else if p < 0 || p >= text.len() {
        None
    } else {
        let c = text[p];
        if !found && c == close {
            Some((Err(ReaderError::FoundClosingBeforeOpening), p + 1))
        } else {
            let acc2 = acc.push(c);
            let q = if quote_char(c) { !in_quotes } else { in_quotes };
            if !q && c == open {
                if depth + 1 > i32::MAX {
                    None
                } else {
                    balanced_scan(text, limit, p + 1, open, close, depth + 1, q, true, acc2)
                }
            } else if !q && c == close {
                if depth - 1 == 0 {
                    Some((Ok(acc2), p + 1))
                } else {
                    balanced_scan(text, limit, p + 1, open, close, depth - 1, q, found, acc2)
                }
            } else {
                balanced_scan(text, limit, p + 1, open, close, depth, q, found, acc2)
            }
        }
    }
}

/// The outcome of `read_until_balanced` on `text` from the cursor `p`.
pub open spec fn balanced_outcome(text: Seq<char>, p: int, open: char, close: char) -> Option<
    (Result<Seq<char>, ReaderError>, int),
> {
    balanced_scan(text, encode_utf8(text).len() as int, p, open, close, 0, false, false, seq![])
}

} // verus!
