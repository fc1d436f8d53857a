//! What holds of the reader across its operations.
use vstd::prelude::*;
use vstd::utf8::*;

use crate::error::ReaderError;
use crate::model::{
    balanced_outcome, balanced_scan, byte_char, escaped_scan, number_char, quote_char,
    quoted_outcome, span_end, string_outcome, take_n_stop, unquoted_char, unquoted_outcome,
    until_any_outcome, until_end_outcome, until_outcome, whitespace_char, ESCAPE,
};
use crate::reader::Reader;
use crate::text::lemma_chars_le_bytes;

verus! {

broadcast use vstd::utf8::group_utf8_lib;

/// `s` written for a reader that stops at the characters of `stops`: each
/// stop character and each backslash is preceded by a backslash.
pub open spec fn escape_for(s: Seq<char>, stops: Seq<char>) -> Seq<char>
    decreases s.len(),
{
    if s.len() == 0 {
        seq![]
    } else {
        let c = s[0];
        let head = if stops.contains(c) || c == ESCAPE {
            seq![ESCAPE, c]
        } else {
            seq![c]
        };
        head + escape_for(s.drop_first(), stops)
    }
}

/// The text before the cursor and the text from it make up the whole
/// text: what `prev` and `next` return at a character boundary,
/// put together, is what `string` returns.
pub proof fn law_prev_next_split(text: Seq<char>, cursor: int)
    requires
        is_char_boundary(encode_utf8(text), cursor),
    ensures
        ({
            let bytes = encode_utf8(text);
            bytes.subrange(0, cursor) + bytes.subrange(cursor, bytes.len() as int) == bytes
        }),
{
    let bytes = encode_utf8(text);
    assert(0 <= cursor <= bytes.len()) by {
        reveal_with_fuel(is_char_boundary, 1);
    }
    assert(bytes.subrange(0, cursor) + bytes.subrange(cursor, bytes.len() as int) =~= bytes);
}

/// `can_read(len)` holds exactly where `remaining_len()` is at least `len`.
pub proof fn law_can_read_is_remaining(byte_len: int, cursor: int, len: int)
    requires
        0 <= cursor <= byte_len,
        0 <= len,
    ensures
        (cursor + len <= byte_len) <==> (byte_len - cursor >= len),
{
}

/// Skipping a class of characters ends where the class ends: every byte
/// passed over is in the class, and the byte it stops at, if any, is not.
pub proof fn law_span_stops_at_class_end(bytes: Seq<u8>, p: int, class: spec_fn(char) -> bool)
    requires
        0 <= p,
    ensures
        ({
            let e = span_end(bytes, p, class);
            &&& p <= bytes.len() ==> p <= e <= bytes.len()
            &&& p > bytes.len() ==> e == p
            &&& forall|i: int| p <= i < e ==> class(byte_char(#[trigger] bytes[i]))
            &&& e < bytes.len() ==> !class(byte_char(bytes[e]))
        }),
    decreases bytes.len() - p,
{
    if p < bytes.len() && class(byte_char(bytes[p])) {
        law_span_stops_at_class_end(bytes, p + 1, class);
    }
}

/// Skipping a class twice goes no further than skipping it once: a second
/// `skip_whitespace` does not move the cursor.
pub proof fn law_span_idempotent(bytes: Seq<u8>, p: int, class: spec_fn(char) -> bool)
    requires
        0 <= p,
    ensures
        span_end(bytes, span_end(bytes, p, class), class) == span_end(bytes, p, class),
{
    law_span_stops_at_class_end(bytes, p, class);
}

/// On ASCII text a byte is its character: `peek(0)` sees the character
/// that `read` takes.
pub proof fn law_ascii_peek_is_read(text: Seq<char>, i: int)
    requires
        is_ascii_chars(text),
        0 <= i < text.len(),
    ensures
        i < encode_utf8(text).len(),
        byte_char(encode_utf8(text)[i]) == text[i],
{
    is_ascii_chars_encode_utf8(text);
    let c = text[i];
    assert(c as u32 <= 0x7f);
}

/// Reading an escaped run that ends at a stop character `x`: the run
/// reads back as `acc` followed by the characters that were escaped.
proof fn lemma_escaped_scan_reads_back(
    text: Seq<char>,
    limit: int,
    p: int,
    stops: Seq<char>,
    consume_stop: bool,
    stop_required: bool,
    acc: Seq<char>,
    s: Seq<char>,
    x: char,
)
    requires
        0 <= p,
        stops.contains(x),
        x != ESCAPE,
        p + escape_for(s, stops).len() < text.len(),
        p + escape_for(s, stops).len() < limit,
        text.subrange(p, p + escape_for(s, stops).len()) == escape_for(s, stops),
        text[p + escape_for(s, stops).len()] == x,
    ensures
        ({
            let k = escape_for(s, stops).len() as int;
            escaped_scan(text, limit, p, stops, consume_stop, stop_required, false, acc) == Some(
                (
                    Ok::<Seq<char>, ReaderError>(acc + s),
                    if consume_stop {
                        p + k + 1
                    } else {
                        p + k
                    },
                ),
            )
        }),
    decreases s.len(),
{
    let esc = escape_for(s, stops);
    if s.len() == 0 {
        assert(acc + s =~= acc);
        assert(text[p] == x);
    } else {
        let c = s[0];
        let rest = s.drop_first();
        let esc_rest = escape_for(rest, stops);
        if stops.contains(c) || c == ESCAPE {
            assert(esc =~= seq![ESCAPE, c] + esc_rest);
            assert(text[p] == esc[0]);
            assert(text[p + 1] == esc[1]);
            assert(text.subrange(p + 2, p + 2 + esc_rest.len()) =~= esc_rest) by {
                assert forall|i: int| 0 <= i < esc_rest.len() implies text.subrange(
                    p + 2,
                    p + 2 + esc_rest.len(),
                )[i] == esc_rest[i] by {
                    assert(text[p + 2 + i] == esc[2 + i]);
                }
            }
            assert(escaped_scan(text, limit, p, stops, consume_stop, stop_required, false, acc)
                == escaped_scan(text, limit, p + 1, stops, consume_stop, stop_required, true, acc));
            assert(escaped_scan(text, limit, p + 1, stops, consume_stop, stop_required, true, acc)
                == escaped_scan(
                text,
                limit,
                p + 2,
                stops,
                consume_stop,
                stop_required,
                false,
                acc.push(c),
            ));
            lemma_escaped_scan_reads_back(
                text,
                limit,
                p + 2,
                stops,
                consume_stop,
                stop_required,
                acc.push(c),
                rest,
                x,
            );
            assert(acc.push(c) + rest =~= acc + s);
        } else {
            assert(esc =~= seq![c] + esc_rest);
            assert(text[p] == esc[0]);
            assert(text.subrange(p + 1, p + 1 + esc_rest.len()) =~= esc_rest) by {
                assert forall|i: int| 0 <= i < esc_rest.len() implies text.subrange(
                    p + 1,
                    p + 1 + esc_rest.len(),
                )[i] == esc_rest[i] by {
                    assert(text[p + 1 + i] == esc[1 + i]);
                }
            }
            assert(escaped_scan(text, limit, p, stops, consume_stop, stop_required, false, acc)
                == escaped_scan(
                text,
                limit,
                p + 1,
                stops,
                consume_stop,
                stop_required,
                false,
                acc.push(c),
            ));
            lemma_escaped_scan_reads_back(
                text,
                limit,
                p + 1,
                stops,
                consume_stop,
                stop_required,
                acc.push(c),
                rest,
                x,
            );
            assert(acc.push(c) + rest =~= acc + s);
        }
    }
}

/// A string written with `end` and backslashes escaped, then `end`,
/// reads back as itself by `read_string_until(end)`, which consumes the
/// closing `end`.
pub proof fn law_until_reads_back(text: Seq<char>, limit: int, p: int, end: char, s: Seq<char>)
    requires
        0 <= p,
        end != ESCAPE,
        text.len() <= limit,
        p + escape_for(s, seq![end]).len() < text.len(),
        text.subrange(p, p + escape_for(s, seq![end]).len()) == escape_for(s, seq![end]),
        text[p + escape_for(s, seq![end]).len()] == end,
    ensures
        until_outcome(text, limit, p, end) == Some(
            (Ok::<Seq<char>, ReaderError>(s), p + escape_for(s, seq![end]).len() + 1),
        ),
{
    assert(seq![end][0] == end);
    lemma_escaped_scan_reads_back(text, limit, p, seq![end], true, true, seq![], s, end);
    assert(Seq::<char>::empty() + s =~= s);
}

/// A string written with spaces and backslashes escaped, then a space,
/// reads back as itself by `read_string_until_end`, which consumes the
/// space.
pub proof fn law_until_end_reads_back(text: Seq<char>, limit: int, p: int, s: Seq<char>)
    requires
        0 <= p,
        text.len() <= limit,
        p + escape_for(s, seq![' ']).len() < text.len(),
        text.subrange(p, p + escape_for(s, seq![' ']).len()) == escape_for(s, seq![' ']),
        text[p + escape_for(s, seq![' ']).len()] == ' ',
    ensures
        until_end_outcome(text, limit, p) == Some(
            (Ok::<Seq<char>, ReaderError>(s), p + escape_for(s, seq![' ']).len() + 1),
        ),
{
    assert(seq![' '][0] == ' ');
    lemma_escaped_scan_reads_back(text, limit, p, seq![' '], true, false, seq![], s, ' ');
    assert(Seq::<char>::empty() + s =~= s);
}

/// A string written with the characters of `ends` and backslashes
/// escaped, then one of `ends`, reads back as itself by
/// `read_string_until_vec(ends)`, which leaves that last character unread.
pub proof fn law_until_any_reads_back(
    text: Seq<char>,
    limit: int,
    p: int,
    ends: Seq<char>,
    s: Seq<char>,
    x: char,
)
    requires
        0 <= p,
        ends.contains(x),
        x != ESCAPE,
        text.len() <= limit,
        p + escape_for(s, ends).len() < text.len(),
        text.subrange(p, p + escape_for(s, ends).len()) == escape_for(s, ends),
        text[p + escape_for(s, ends).len()] == x,
    ensures
        until_any_outcome(text, limit, p, ends) == Some(
            (Ok::<Seq<char>, ReaderError>(s), p + escape_for(s, ends).len()),
        ),
{
    lemma_escaped_scan_reads_back(text, limit, p, ends, false, false, seq![], s, x);
    assert(Seq::<char>::empty() + s =~= s);
}

/// Reading an escaped run that fills the input up to `limit`: it reads
/// back as `acc` followed by the escaped characters, or is an error where a
/// stop character is required.
proof fn lemma_escaped_scan_reads_to_limit(
    text: Seq<char>,
    limit: int,
    p: int,
    stops: Seq<char>,
    consume_stop: bool,
    stop_required: bool,
    acc: Seq<char>,
    s: Seq<char>,
)
    requires
        0 <= p,
        limit <= text.len(),
        p + escape_for(s, stops).len() == limit,
        text.subrange(p, limit) == escape_for(s, stops),
    ensures
        escaped_scan(text, limit, p, stops, consume_stop, stop_required, false, acc) == Some(
            (
                if stop_required {
                    Err::<Seq<char>, ReaderError>(ReaderError::ExpectedEndOfQuote)
                } else {
                    Ok::<Seq<char>, ReaderError>(acc + s)
                },
                limit,
            ),
        ),
    decreases s.len(),
{
    let esc = escape_for(s, stops);
    if s.len() == 0 {
        assert(acc + s =~= acc);
    } else {
        let c = s[0];
        let rest = s.drop_first();
        let esc_rest = escape_for(rest, stops);
        if stops.contains(c) || c == ESCAPE {
            assert(esc =~= seq![ESCAPE, c] + esc_rest);
            assert(text[p] == esc[0]);
            assert(text[p + 1] == esc[1]);
            assert(text.subrange(p + 2, limit) =~= esc_rest) by {
                assert forall|i: int| 0 <= i < esc_rest.len() implies text.subrange(p + 2, limit)[i]
                    == esc_rest[i] by {
                    assert(text[p + 2 + i] == esc[2 + i]);
                }
            }
            assert(escaped_scan(text, limit, p, stops, consume_stop, stop_required, false, acc)
                == escaped_scan(text, limit, p + 1, stops, consume_stop, stop_required, true, acc));
            assert(escaped_scan(text, limit, p + 1, stops, consume_stop, stop_required, true, acc)
                == escaped_scan(
                text,
                limit,
                p + 2,
                stops,
                consume_stop,
                stop_required,
                false,
                acc.push(c),
            ));
            lemma_escaped_scan_reads_to_limit(
                text,
                limit,
                p + 2,
                stops,
                consume_stop,
                stop_required,
                acc.push(c),
                rest,
            );
            assert(acc.push(c) + rest =~= acc + s);
        } else {
            assert(esc =~= seq![c] + esc_rest);
            assert(text[p] == esc[0]);
            assert(text.subrange(p + 1, limit) =~= esc_rest) by {
                assert forall|i: int| 0 <= i < esc_rest.len() implies text.subrange(p + 1, limit)[i]
                    == esc_rest[i] by {
                    assert(text[p + 1 + i] == esc[1 + i]);
                }
            }
            assert(escaped_scan(text, limit, p, stops, consume_stop, stop_required, false, acc)
                == escaped_scan(
                text,
                limit,
                p + 1,
                stops,
                consume_stop,
                stop_required,
                false,
                acc.push(c),
            ));
            lemma_escaped_scan_reads_to_limit(
                text,
                limit,
                p + 1,
                stops,
                consume_stop,
                stop_required,
                acc.push(c),
                rest,
            );
            assert(acc.push(c) + rest =~= acc + s);
        }
    }
}

/// `read_string_until(end)` on input that runs out without an unescaped
/// `end` is an error, after it has read to the end.
pub proof fn law_until_needs_its_end(text: Seq<char>, limit: int, p: int, end: char, s: Seq<char>)
    requires
        0 <= p,
        limit <= text.len(),
        p + escape_for(s, seq![end]).len() == limit,
        text.subrange(p, limit) == escape_for(s, seq![end]),
    ensures
        until_outcome(text, limit, p, end) == Some(
            (Err::<Seq<char>, ReaderError>(ReaderError::ExpectedEndOfQuote), limit),
        ),
{
    lemma_escaped_scan_reads_to_limit(text, limit, p, seq![end], true, true, seq![], s);
}

/// `read_string_until_end` on input with no unescaped space reads all of
/// it back, unescaped.
pub proof fn law_until_end_reads_the_rest(text: Seq<char>, limit: int, p: int, s: Seq<char>)
    requires
        0 <= p,
        limit <= text.len(),
        p + escape_for(s, seq![' ']).len() == limit,
        text.subrange(p, limit) == escape_for(s, seq![' ']),
    ensures
        until_end_outcome(text, limit, p) == Some((Ok::<Seq<char>, ReaderError>(s), limit)),
{
    lemma_escaped_scan_reads_to_limit(text, limit, p, seq![' '], true, false, seq![], s);
    assert(Seq::<char>::empty() + s =~= s);
}

/// `read_string_until_vec(ends)` on input with none of `ends` unescaped
/// consumes all of it and returns it, unescaped.
pub proof fn law_until_any_reads_the_rest(
    text: Seq<char>,
    limit: int,
    p: int,
    ends: Seq<char>,
    s: Seq<char>,
)
    requires
        0 <= p,
        limit <= text.len(),
        p + escape_for(s, ends).len() == limit,
        text.subrange(p, limit) == escape_for(s, ends),
    ensures
        until_any_outcome(text, limit, p, ends) == Some((Ok::<Seq<char>, ReaderError>(s), limit)),
{
    lemma_escaped_scan_reads_to_limit(text, limit, p, ends, false, false, seq![], s);
    assert(Seq::<char>::empty() + s =~= s);
}

/// A string put in quotes, with that quote and backslashes escaped, reads
/// back as itself by `read_quoted_string`, which stops after the closing
/// quote, whatever follows.
pub proof fn law_quoted_reads_back(q: char, s: Seq<char>, rest: Seq<char>)
    requires
        quote_char(q),
    ensures
        ({
            let text = seq![q] + escape_for(s, seq![q]) + seq![q] + rest;
            quoted_outcome(text, 0) == Some(
                (Ok::<Seq<char>, ReaderError>(s), escape_for(s, seq![q]).len() + 2int),
            )
        }),
{
    let esc = escape_for(s, seq![q]);
    let text = seq![q] + esc + seq![q] + rest;
    let bytes = encode_utf8(text);
    let u = q as u32;
    assert(text[0] == q);
    assert(text.drop_first() =~= esc + seq![q] + rest);
    assert(u < 0x80);
    assert(encode_scalar(u) == seq![leading_byte_width_1(u)]);
    assert(leading_byte_width_1(u) == u as u8) by (bit_vector)
        requires
            u < 0x80,
    ;
    assert(bytes == encode_scalar(u) + encode_utf8(text.drop_first()));
    assert(bytes[0] == u as u8);
    assert(byte_char(bytes[0]) == q);
    lemma_chars_le_bytes(text);
    assert(text.subrange(1, 1 + esc.len() as int) =~= esc);
    assert(text[1 + esc.len() as int] == q);
    law_until_reads_back(text, bytes.len() as int, 1, q, s);
}

/// An escaped scan that ends within the text never takes a character
/// past its end.
proof fn lemma_escaped_scan_in_range(
    text: Seq<char>,
    limit: int,
    p: int,
    stops: Seq<char>,
    consume_stop: bool,
    stop_required: bool,
    escaped: bool,
    acc: Seq<char>,
)
    requires
        0 <= p,
        limit <= text.len(),
    ensures
        escaped_scan(text, limit, p, stops, consume_stop, stop_required, escaped, acc) is Some,
    decreases limit - p,
{
    if p < limit {
        let c = text[p];
        lemma_escaped_scan_in_range(
            text,
            limit,
            p + 1,
            stops,
            consume_stop,
            stop_required,
            false,
            acc.push(c),
        );
        lemma_escaped_scan_in_range(
            text,
            limit,
            p + 1,
            stops,
            consume_stop,
            stop_required,
            true,
            acc,
        );
    }
}

/// A bracket scan within the text, with room in the counter for one more
/// level per character left, never fails.
proof fn lemma_balanced_in_range(
    text: Seq<char>,
    limit: int,
    p: int,
    open: char,
    close: char,
    depth: int,
    in_quotes: bool,
    found: bool,
    acc: Seq<char>,
)
    requires
        0 <= p,
        limit <= text.len(),
        depth + (limit - p) <= i32::MAX,
    ensures
        balanced_scan(text, limit, p, open, close, depth, in_quotes, found, acc) is Some,
    decreases limit - p,
{
    if p < limit {
        let c = text[p];
        let acc2 = acc.push(c);
        let q = if quote_char(c) {
            !in_quotes
        } else {
            in_quotes
        };
        lemma_balanced_in_range(text, limit, p + 1, open, close, depth + 1, q, true, acc2);
        lemma_balanced_in_range(text, limit, p + 1, open, close, depth - 1, q, found, acc2);
        lemma_balanced_in_range(text, limit, p + 1, open, close, depth, q, found, acc2);
    }
}

/// On ASCII text every position up to the end is a character boundary.
proof fn lemma_ascii_boundary(text: Seq<char>, p: int)
    requires
        is_ascii_chars(text),
        0 <= p <= text.len(),
    ensures
        is_char_boundary(encode_utf8(text), p),
{
    let bytes = encode_utf8(text);
    is_ascii_chars_encode_utf8(text);
    if p == text.len() {
        is_char_boundary_start_end_of_seq(bytes);
    } else {
        let c = text[p];
        assert(c as u32 <= 0x7f);
        assert(bytes[p] == c as u8);
        is_char_boundary_iff_not_is_continuation_byte(bytes, p);
    }
}

/// On ASCII text, where each character is one byte, no read takes a
/// character past the end, so the reads whose `requires` ask for that can
/// always be called; the bracket reader, on a text short enough for its
/// depth counter.
pub proof fn law_ascii_reads_stay_in_text(text: Seq<char>, p: int)
    requires
        is_ascii_chars(text),
        0 <= p,
    ensures
        encode_utf8(text).len() == text.len(),
        forall|end: char| #[trigger] until_outcome(text, text.len() as int, p, end) is Some,
        until_end_outcome(text, text.len() as int, p) is Some,
        forall|ends: Seq<char>| #[trigger] until_any_outcome(text, text.len() as int, p, ends) is Some,
        quoted_outcome(text, p) is Some,
        string_outcome(text, p) is Some,
        forall|n: int| #[trigger] take_n_stop(text.len() as int, p, n) == p || take_n_stop(
            text.len() as int,
            p,
            n,
        ) <= text.len(),
        text.len() <= i32::MAX ==> forall|open: char, close: char| #[trigger]
            balanced_outcome(text, p, open, close) is Some,
{
    is_ascii_chars_encode_utf8(text);
    let len = text.len() as int;
    assert forall|end: char| #[trigger] until_outcome(text, len, p, end) is Some by {
        lemma_escaped_scan_in_range(text, len, p, seq![end], true, true, false, seq![]);
    }
    lemma_escaped_scan_in_range(text, len, p, seq![' '], true, false, false, seq![]);
    assert forall|ends: Seq<char>| #[trigger] until_any_outcome(text, len, p, ends) is Some by {
        lemma_escaped_scan_in_range(text, len, p, ends, false, false, false, seq![]);
    }
    if p < len {
        let q = byte_char(encode_utf8(text)[p]);
        lemma_escaped_scan_in_range(text, len, p + 1, seq![q], true, true, false, seq![]);
        lemma_ascii_boundary(text, p);
        assert(unquoted_outcome(encode_utf8(text), p) is Some);
    }
    if len <= i32::MAX {
        assert forall|open: char, close: char| #[trigger]
            balanced_outcome(text, p, open, close) is Some by {
            lemma_balanced_in_range(text, len, p, open, close, 0, false, false, seq![]);
        }
    }
}

/// A bracket scan that succeeds returns exactly what it stepped over,
/// after `acc`.
proof fn lemma_balanced_takes_what_it_reads(
    text: Seq<char>,
    limit: int,
    p: int,
    open: char,
    close: char,
    depth: int,
    in_quotes: bool,
    found: bool,
    acc: Seq<char>,
)
    requires
        0 <= p <= text.len(),
    ensures
        balanced_scan(text, limit, p, open, close, depth, in_quotes, found, acc) matches Some(
            (Ok(r), e),
        ) ==> p <= e <= text.len() && r == acc + text.subrange(p, e),
    decreases limit - p,
{
    if p >= limit {
        assert(acc + text.subrange(p, p) =~= acc);
    } else if p < text.len() {
        let c = text[p];
        let acc2 = acc.push(c);
        let q = if quote_char(c) {
            !in_quotes
        } else {
            in_quotes
        };
        assert(acc2 =~= acc + text.subrange(p, p + 1));
        assert forall|e: int| p + 1 <= e <= text.len() implies acc2 + text.subrange(p + 1, e)
            =~= acc + text.subrange(p, e) by {}
        if !found && c == close {
        } else if !q && c == open {
            lemma_balanced_takes_what_it_reads(text, limit, p + 1, open, close, depth + 1, q, true, acc2);
        } else if !q && c == close {
            lemma_balanced_takes_what_it_reads(text, limit, p + 1, open, close, depth - 1, q, found, acc2);
        } else {
            lemma_balanced_takes_what_it_reads(text, limit, p + 1, open, close, depth, q, found, acc2);
        }
    }
}

/// What `read_until_balanced` returns is exactly the text it stepped over:
/// everything from the cursor up to and including the balancing bracket.
pub proof fn law_balanced_returns_what_it_reads(text: Seq<char>, p: int, open: char, close: char)
    requires
        0 <= p,
    ensures
        balanced_outcome(text, p, open, close) matches Some((Ok(r), e)) ==> {
            &&& p <= e
            &&& r.len() == e - p
            &&& forall|i: int| 0 <= i < r.len() ==> r[i] == text[p + i]
        },
{
    if p > text.len() {
        lemma_chars_le_bytes(text);
        return;
    }
    lemma_balanced_takes_what_it_reads(
        text,
        encode_utf8(text).len() as int,
        p,
        open,
        close,
        0,
        false,
        false,
        seq![],
    );
    if let Some((Ok(r), e)) = balanced_outcome(text, p, open, close) {
        assert(r =~= text.subrange(p, e));
    }
}

/// Along a run of readers each with the text of the one before, every one
/// has the first one's text.
proof fn lemma_text_kept(steps: Seq<Reader>, k: int)
    requires
        0 <= k < steps.len(),
        forall|i: int| 0 < i < steps.len() ==> #[trigger] steps[i].text() == steps[i - 1].text(),
    ensures
        steps[k].text() == steps[0].text(),
    decreases k,
{
    if k > 0 {
        lemma_text_kept(steps, k - 1);
    }
}

/// No operation changes the text (each one's `ensures` keeps it), so after
/// any run of operations `set_pos` back to the position of the start
/// restores the reader: the same text with the same cursor.
pub proof fn law_set_pos_restores(steps: Seq<Reader>, back: Reader)
    requires
        steps.len() > 0,
        forall|i: int| 0 < i < steps.len() ==> #[trigger] steps[i].text() == steps[i - 1].text(),
        steps.last().moved(&back, steps[0].cursor() as int),
    ensures
        back.text() == steps[0].text(),
        back.cursor() == steps[0].cursor(),
{
    lemma_text_kept(steps, steps.len() - 1);
}

/// Consuming the stop character or leaving it unread changes nothing
/// but the cursor, which then lies one further on.
proof fn lemma_consume_stop_only_moves(
    text: Seq<char>,
    limit: int,
    p: int,
    stops: Seq<char>,
    stop_required: bool,
    escaped: bool,
    acc: Seq<char>,
)
    ensures
        ({
            let a = escaped_scan(text, limit, p, stops, true, stop_required, escaped, acc);
            let b = escaped_scan(text, limit, p, stops, false, stop_required, escaped, acc);
            &&& a is Some <==> b is Some
            &&& b matches Some((r, e)) ==> a == Some(
                (r, if r is Ok && e < limit { e + 1 } else { e }),
            )
        }),
    decreases limit - p,
{
    if p < limit && 0 <= p < text.len() {
        let c = text[p];
        lemma_consume_stop_only_moves(text, limit, p + 1, stops, stop_required, false, acc.push(c));
        lemma_consume_stop_only_moves(text, limit, p + 1, stops, stop_required, true, acc);
    }
}

/// `read_string_until_end` is `read_string_until_vec(&[' '])` that also
/// consumes the space it stops at: the same result, and a cursor one
/// further on where a space was found.
pub proof fn law_until_end_is_until_space(text: Seq<char>, limit: int, p: int)
    ensures
        until_end_outcome(text, limit, p) is Some <==> until_any_outcome(text, limit, p, seq![' ']) is Some,
        until_any_outcome(text, limit, p, seq![' ']) matches Some((r, e)) ==> until_end_outcome(
            text,
            limit,
            p,
        ) == Some((r, if r is Ok && e < limit { e + 1 } else { e })),
{
    lemma_consume_stop_only_moves(text, limit, p, seq![' '], false, false, seq![]);
}

/// `read_string` reads a quoted string where the byte at the cursor opens
/// one, and an unquoted string elsewhere within the text; past the end
/// both give the empty string.
pub proof fn law_string_is_quoted_or_unquoted(text: Seq<char>, p: int)
    ensures
        ({
            let bytes = encode_utf8(text);
            &&& p >= bytes.len() ==> string_outcome(text, p) == quoted_outcome(text, p)
            &&& p < bytes.len() && quote_char(byte_char(bytes[p])) ==> string_outcome(text, p)
                == quoted_outcome(text, p)
            &&& p < bytes.len() && !quote_char(byte_char(bytes[p])) ==> string_outcome(text, p)
                == unquoted_outcome(bytes, p)
        }),
{
}

/// Whether a quote is open after `s`: an odd number of quote characters.
pub open spec fn quotes_open(s: Seq<char>) -> bool
    decreases s.len(),
{
    if s.len() == 0 {
        false
    } else if quote_char(s.last()) {
        !quotes_open(s.drop_last())
    } else {
        quotes_open(s.drop_last())
    }
}

/// The number of `open` brackets in `s` less the number of `close`
/// brackets, counting only those outside quotes.
pub open spec fn bracket_depth(s: Seq<char>, open: char, close: char) -> int
    decreases s.len(),
{
    if s.len() == 0 {
        0
    } else {
        let before = bracket_depth(s.drop_last(), open, close);
        if !quotes_open(s) && s.last() == open {
            before + 1
        } else if !quotes_open(s) && s.last() == close {
            before - 1
        } else {
            before
        }
    }
}

/// Whether `s` holds an `open` bracket outside quotes.
pub open spec fn opened(s: Seq<char>, open: char) -> bool
    decreases s.len(),
{
    s.len() > 0 && (opened(s.drop_last(), open) || (!quotes_open(s) && s.last() == open))
}

/// The bracket scan keeps the counts of what it has read.
proof fn lemma_balanced_counts(
    text: Seq<char>,
    limit: int,
    p: int,
    open: char,
    close: char,
    depth: int,
    in_quotes: bool,
    found: bool,
    acc: Seq<char>,
)
    requires
        0 <= p,
        depth == bracket_depth(acc, open, close),
        in_quotes == quotes_open(acc),
        found == opened(acc, open),
        found ==> depth >= 1,
        !found ==> depth == 0,
        forall|k: int|
            0 <= k <= acc.len() && #[trigger] opened(acc.take(k), open) ==> bracket_depth(
                acc.take(k),
                open,
                close,
            ) > 0,
    ensures
        balanced_scan(text, limit, p, open, close, depth, in_quotes, found, acc) matches Some(
            (Ok(r), e),
        ) ==> {
            &&& bracket_depth(r, open, close) == 0
            &&& forall|k: int|
                0 <= k < r.len() && #[trigger] opened(r.take(k), open) ==> bracket_depth(
                    r.take(k),
                    open,
                    close,
                ) > 0
        },
    decreases limit - p,
{
    if p < limit && p < text.len() {
        let c = text[p];
        if !found && c == close {
        } else {
            let acc2 = acc.push(c);
            let q = if quote_char(c) {
                !in_quotes
            } else {
                in_quotes
            };
            assert(acc2.drop_last() =~= acc);
            assert(acc2.last() == c);
            assert(quotes_open(acc2) == q);
            assert forall|k: int| 0 <= k <= acc.len() implies #[trigger] acc2.take(k) == acc.take(
                k,
            ) by {
                assert(acc2.take(k) =~= acc.take(k));
            }
            assert(acc2.take(acc2.len() as int) =~= acc2);
            let d2 = bracket_depth(acc2, open, close);
            let f2 = opened(acc2, open);
            if !q && c == open {
                assert(d2 == depth + 1);
                assert(f2);
                if depth + 1 <= i32::MAX {
                    assert forall|k: int|
                        0 <= k <= acc2.len() && #[trigger] opened(acc2.take(k), open) implies bracket_depth(
                        acc2.take(k),
                        open,
                        close,
                    ) > 0 by {
                        if k <= acc.len() {
                            assert(acc2.take(k) == acc.take(k));
                        }
                    }
                    lemma_balanced_counts(text, limit, p + 1, open, close, depth + 1, q, true, acc2);
                }
            } else if !q && c == close {
                assert(d2 == depth - 1);
                assert(f2 == found);
                if depth - 1 != 0 {
                    assert forall|k: int|
                        0 <= k <= acc2.len() && #[trigger] opened(acc2.take(k), open) implies bracket_depth(
                        acc2.take(k),
                        open,
                        close,
                    ) > 0 by {
                        if k <= acc.len() {
                            assert(acc2.take(k) == acc.take(k));
                        }
                    }
                    lemma_balanced_counts(text, limit, p + 1, open, close, depth - 1, q, found, acc2);
                } else {
                    assert forall|k: int|
                        0 <= k < acc2.len() && #[trigger] opened(acc2.take(k), open) implies bracket_depth(
                        acc2.take(k),
                        open,
                        close,
                    ) > 0 by {
                        assert(acc2.take(k) == acc.take(k));
                    }
                }
            } else {
                assert(d2 == depth);
                assert(f2 == found);
                assert forall|k: int|
                    0 <= k <= acc2.len() && #[trigger] opened(acc2.take(k), open) implies bracket_depth(
                    acc2.take(k),
                    open,
                    close,
                ) > 0 by {
                    if k <= acc.len() {
                        assert(acc2.take(k) == acc.take(k));
                    }
                }
                lemma_balanced_counts(text, limit, p + 1, open, close, depth, q, found, acc2);
            }
        }
    } else if p >= limit {
        if !found {
            assert forall|k: int|
                0 <= k < acc.len() && #[trigger] opened(acc.take(k), open) implies bracket_depth(
                acc.take(k),
                open,
                close,
            ) > 0 by {}
        }
    }
}

/// What `read_until_balanced` returns holds as many `open` brackets as
/// `close` brackets outside quotes, and every part of it that starts at
/// its beginning, reaches the first `open` and stops short of its end holds
/// more `open` than `close` brackets: it ends exactly at the bracket that
/// balances the first `open`, however deep the nesting.
pub proof fn law_balanced_result_balances(text: Seq<char>, p: int, open: char, close: char)
    requires
        0 <= p,
    ensures
        balanced_outcome(text, p, open, close) matches Some((Ok(r), e)) ==> {
            &&& bracket_depth(r, open, close) == 0
            &&& forall|k: int|
                0 <= k < r.len() && #[trigger] opened(r.take(k), open) ==> bracket_depth(
                    r.take(k),
                    open,
                    close,
                ) > 0
        },
{
    let empty = Seq::<char>::empty();
    assert forall|k: int| 0 <= k <= empty.len() && #[trigger] opened(empty.take(k), open) implies bracket_depth(
        empty.take(k),
        open,
        close,
    ) > 0 by {
        assert(empty.take(k).len() == 0);
    }
    lemma_balanced_counts(
        text,
        encode_utf8(text).len() as int,
        p,
        open,
        close,
        0,
        false,
        false,
        empty,
    );
}

/// The ASCII letters and digits.
pub open spec fn ascii_alphanumeric(c: char) -> bool {
    let u = c as u32;
    (0x30 <= u && u <= 0x39) || (0x41 <= u && u <= 0x5a) || (0x61 <= u && u <= 0x7a)
}

/// A character may stand in an unquoted string exactly when it is an ASCII
/// letter or digit or one of `_ - . +`; so a word read unquoted stops at
/// anything else, such as a comma, a space or a bracket.
pub proof fn law_unquoted_chars(c: char)
    ensures
        unquoted_char(c) <==> ascii_alphanumeric(c) || c == '_' || c == '-' || c == '.' || c
            == '+',
        !unquoted_char(',') && !unquoted_char(' ') && !unquoted_char('[') && !unquoted_char('"'),
{
}

/// A character may stand in a number exactly when it is an ASCII digit, a
/// point or a minus sign.
pub proof fn law_number_chars(c: char)
    ensures
        number_char(c) <==> (0x30 <= (c as u32) && (c as u32) <= 0x39) || c == '.' || c == '-',
        !number_char('+') && !number_char(' ') && !number_char('e'),
{
}

/// Whitespace is what `char::is_whitespace` takes as such, the Unicode
/// White_Space characters: among them every ASCII whitespace character
/// (tab, line feed, vertical tab, form feed, carriage return, space).
pub proof fn law_whitespace_chars(c: char)
    ensures
        whitespace_char(c) <==> {
            ||| c == '\t' || c == '\n' || c == '\u{b}' || c == '\u{c}' || c == '\r' || c == ' '
            ||| c == '\u{85}' || c == '\u{a0}' || c == '\u{1680}'
            ||| ('\u{2000}' <= c && c <= '\u{200a}')
            ||| c == '\u{2028}' || c == '\u{2029}' || c == '\u{202f}' || c == '\u{205f}'
            ||| c == '\u{3000}'
        },
        !whitespace_char('a') && !whitespace_char('\u{0}') && !whitespace_char('\u{200b}'),
{
}

/// `read_n(n)` stops `n` characters on where at least `n` are left before
/// the end of input, and at the end of input where fewer are; where the
/// cursor is already at or past the end it does not move.
pub proof fn law_read_n_stop(limit: int, p: int, n: int)
    requires
        0 <= n,
    ensures
        p + n <= limit ==> take_n_stop(limit, p, n) == p + n,
        p < limit < p + n ==> take_n_stop(limit, p, n) == limit,
        p >= limit ==> take_n_stop(limit, p, n) == p,
        take_n_stop(limit, p, n) - p <= n,
{
}

} // verus!
