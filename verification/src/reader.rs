use vstd::prelude::*;
use vstd::utf8::*;

use crate::error::ReaderError;
use crate::model::{
    balanced_outcome, balanced_scan, byte_char, escaped_scan, false_text,
    lemma_span_keeps_boundary, number_char, number_class, number_error_text, quote_char,
    quoted_outcome, span_end, string_outcome, take_n_stop, true_text, unquoted_char,
    unquoted_class, unquoted_outcome, until_any_outcome, until_end_outcome, until_outcome,
    view_result, whitespace_class, DOUBLE_QUOTE, ESCAPE, SINGLE_QUOTE,
};
use crate::text::{
    byte_slice, contains_char, encoded_len, is_whitespace, lemma_chars_le_bytes, parse_number,
    push_char,
};

verus! {

broadcast use vstd::utf8::group_utf8_lib;

/// The classes of characters that the reader skips over byte by byte.
enum Class {
    Whitespace,
    Number,
    Unquoted,
}

impl Class {
    spec fn class(self) -> spec_fn(char) -> bool {
        match self {
            Class::Whitespace => whitespace_class(),
            Class::Number => number_class(),
            Class::Unquoted => unquoted_class(),
        }
    }

    fn holds(&self, c: char) -> (b: bool)
        ensures
            b == (self.class())(c),
    {
        match self {
            Class::Whitespace => is_whitespace(c),
            Class::Number => Reader::is_allowed_number(c),
            Class::Unquoted => Reader::is_allowed_in_unquoted_string(c),
        }
    }
}

/// A reader over a [`String`], with a cursor that it steps forward while
/// it reads characters, numbers, words and quoted or bracketed parts.
#[derive(Debug, Clone, Default, PartialEq)]
pub struct Reader {
    buf: String,
    cur: usize,
}

impl Reader {
    /// The characters of the text.
    pub closed spec fn text(&self) -> Seq<char> {
        self.buf@
    }

    /// The cursor.
    pub closed spec fn cursor(&self) -> usize {
        self.cur
    }

    /// The UTF-8 bytes of the text.
    pub open spec fn bytes(&self) -> Seq<u8> {
        encode_utf8(self.text())
    }

    /// The number of bytes of the text.
    pub open spec fn byte_len(&self) -> int {
        self.bytes().len() as int
    }

    /// Whether the cursor stands at a character boundary of the text.
    pub open spec fn at_boundary(&self) -> bool {
        is_char_boundary(self.bytes(), self.cursor() as int)
    }

    /// The same text with the cursor at `p`.
    pub open spec fn moved(&self, other: &Reader, p: int) -> bool {
        other.text() == self.text() && other.cursor() == p
    }

    fn len_bytes(&self) -> (n: usize)
        ensures
            n == self.byte_len(),
    {
        encoded_len(self.buf.as_str())
    }

    /// Creates a new reader over `s`, with the cursor at the start.
    pub fn new(s: &str) -> (r: Reader)
        ensures
            r.text() == s@,
            r.cursor() == 0,
    {
        Reader { buf: s.to_owned(), cur: 0 }
    }

    /// Returns the whole text.
    pub fn string(&self) -> (s: &str)
        ensures
            s@ == self.text(),
    {
        self.buf.as_str()
    }

    /// Sets the cursor.
    pub fn set_pos(&mut self, pos: usize)
        ensures
            old(self).moved(final(self), pos as int),
    {
        self.cur = pos;
    }

    /// Returns the cursor.
    pub fn pos(&self) -> (p: usize)
        ensures
            p == self.cursor(),
    {
        self.cur
    }

    /// The number of bytes after the cursor.
    pub fn remaining_len(&self) -> (n: usize)
        requires
            self.cursor() <= self.byte_len(),
        ensures
            n == self.byte_len() - self.cursor(),
            self.byte_len() <= usize::MAX,
    {
        self.len_bytes() - self.cur
    }

    /// Everything before the cursor: the text up to it where the cursor
    /// is a character boundary, else the whole text.
    pub fn prev(&self) -> (s: &str)
        ensures
            self.at_boundary() ==> encode_utf8(s@) == self.bytes().subrange(0, self.cursor() as int),
            !self.at_boundary() ==> s@ == self.text(),
    {
        let whole = self.buf.as_str();
        if whole.is_char_boundary(self.cur) {
            proof {
                is_char_boundary_start_end_of_seq(self.bytes());
            }
            byte_slice(whole, 0, self.cur)
        } else {
            whole
        }
    }

    /// Everything from the cursor on.
    pub fn next(&self) -> (s: &str)
        requires
            self.at_boundary(),
        ensures
            encode_utf8(s@) == self.bytes().subrange(self.cursor() as int, self.byte_len()),
    {
        let whole = self.buf.as_str();
        let n = self.len_bytes();
        proof {
            is_char_boundary_start_end_of_seq(self.bytes());
            assert(self.cursor() <= n) by {
                reveal_with_fuel(is_char_boundary, 1);
            }
        }
        byte_slice(whole, self.cur, n)
    }

    /// Whether `len` more bytes are left after the cursor.
    pub fn can_read(&self, len: usize) -> (b: bool)
        requires
            self.cursor() + len <= usize::MAX,
        ensures
            b == (self.cursor() + len <= self.byte_len()),
    {
        self.cur + len <= self.len_bytes()
    }

    /// The byte at the cursor plus `offset`, or the last byte where that
    /// lies past the end, read as a character.
    pub fn peek(&self, offset: usize) -> (c: char)
        requires
            self.byte_len() > 0,
            self.cursor() + offset <= usize::MAX,
        ensures
            self.cursor() + offset >= self.byte_len() ==> c == byte_char(
                self.bytes()[self.byte_len() - 1],
            ),
            self.cursor() + offset < self.byte_len() ==> c == byte_char(
                self.bytes()[self.cursor() + offset],
            ),
    {
        let buf = self.buf.as_str().as_bytes();
        let b = if self.cur + offset >= buf.len() {
            buf[buf.len() - 1]
        } else {
            buf[self.cur + offset]
        };
        b as char
    }

    /// The character `offset + 1` places before the cursor, counted in
    /// characters; `None` where that lies before the start.
    pub fn prev_c(&self, offset: usize) -> (c: Option<char>)
        requires
            self.cursor() >= offset + 1 ==> self.cursor() - 1 - offset < self.text().len(),
        ensures
            self.cursor() >= offset + 1 ==> c == Some(self.text()[self.cursor() - 1 - offset]),
            self.cursor() < offset + 1 ==> c is None,
    {
        let idx = self.cur.checked_sub(1)?.checked_sub(offset)?;
        Some(self.buf.as_str().get_char(idx))
    }

    /// The next `n` bytes after the cursor, or all that are left where
    /// fewer remain.
    pub fn peek_n(&self, n: usize) -> (s: &str)
        requires
            self.cursor() + n <= usize::MAX,
            self.at_boundary(),
            self.cursor() + n < self.byte_len() ==> is_char_boundary(
                self.bytes(),
                self.cursor() + n,
            ),
        ensures
            encode_utf8(s@) == self.bytes().subrange(
                self.cursor() as int,
                if self.cursor() + n >= self.byte_len() {
                    self.byte_len()
                } else {
                    self.cursor() + n
                },
            ),
    {
        let whole = self.buf.as_str();
        let len = self.len_bytes();
        proof {
            is_char_boundary_start_end_of_seq(self.bytes());
            assert(self.cursor() <= len) by {
                reveal_with_fuel(is_char_boundary, 1);
            }
        }
        if self.cur + n >= len {
            byte_slice(whole, self.cur, len)
        } else {
            byte_slice(whole, self.cur, self.cur + n)
        }
    }

    /// Takes the character at the cursor, counted in characters, and steps
    /// the cursor forward.
    pub fn read(&mut self) -> (c: char)
        requires
            old(self).cursor() < old(self).text().len(),
        ensures
            c == old(self).text()[old(self).cursor() as int],
            old(self).moved(final(self), old(self).cursor() + 1),
    {
        let c = self.buf.as_str().get_char(self.cur);
        let n = self.len_bytes();
        proof {
            lemma_chars_le_bytes(self.text());
        }
        self.cur += 1;
        if self.cur > n {
            self.cur -= 1;
        }
        c
    }

    /// Steps the cursor forward by one.
    pub fn skip(&mut self)
        requires
            old(self).cursor() < usize::MAX,
        ensures
            old(self).moved(final(self), old(self).cursor() + 1),
    {
        self.cur += 1;
    }

    /// Whether `c` may be part of a number.
    pub fn is_allowed_number(c: char) -> (b: bool)
        ensures
            b == number_char(c),
    {
        c >= '0' && c <= '9' || c == '.' || c == '-'
    }

    /// Whether `c` opens a quoted string.
    pub fn is_quoted_string_start(c: char) -> (b: bool)
        ensures
            b == quote_char(c),
    {
        c == DOUBLE_QUOTE || c == SINGLE_QUOTE
    }

    /// Whether `c` may be part of an unquoted string.
    pub fn is_allowed_in_unquoted_string(c: char) -> (b: bool)
        ensures
            b == unquoted_char(c),
    {
        c >= '0' && c <= '9' || c >= 'A' && c <= 'Z' || c >= 'a' && c <= 'z' || c == '_' || c
            == '-' || c == '.' || c == '+'
    }

    /// Steps the cursor over the bytes that stand for characters of `kind`.
    fn skip_class(&mut self, kind: Class)
        requires
            old(self).cursor() < usize::MAX,
            old(self).byte_len() < usize::MAX,
        ensures
            old(self).moved(
                final(self),
                span_end(old(self).bytes(), old(self).cursor() as int, kind.class()),
            ),
    {
        let ghost start = self.cur as int;
        while self.can_read(1) && kind.holds(self.peek(0))
            invariant
                self.text() == old(self).text(),
                self.cursor() < usize::MAX,
                self.byte_len() < usize::MAX,
                span_end(self.bytes(), self.cursor() as int, kind.class()) == span_end(
                    self.bytes(),
                    start,
                    kind.class(),
                ),
            decreases self.byte_len() - self.cursor(),
        {
            self.skip();
        }
    }

    /// Steps the cursor over whitespace.
    pub fn skip_whitespace(&mut self)
        requires
            old(self).cursor() < usize::MAX,
            old(self).byte_len() < usize::MAX,
        ensures
            old(self).moved(
                final(self),
                span_end(old(self).bytes(), old(self).cursor() as int, whitespace_class()),
            ),
    {
        self.skip_class(Class::Whitespace);
    }

    /// Steps the cursor over the bytes that make up a number and returns
    /// them.
    fn scan_number(&mut self) -> (num: &str)
        requires
            old(self).at_boundary(),
            old(self).cursor() < usize::MAX,
            old(self).byte_len() < usize::MAX,
        ensures
            old(self).moved(
                final(self),
                span_end(old(self).bytes(), old(self).cursor() as int, number_class()),
            ),
            encode_utf8(num@) == old(self).bytes().subrange(
                old(self).cursor() as int,
                final(self).cursor() as int,
            ),
            num@.len() == 0 <==> final(self).cursor() == old(self).cursor(),
    {
        let start = self.cur;
        self.skip_class(Class::Number);
        proof {
            lemma_span_keeps_boundary(self.bytes(), start as int, number_class());
        }
        let num = byte_slice(self.buf.as_str(), start, self.cur);
        proof {
            lemma_chars_le_bytes(num@);
        }
        num
    }

    /// Reads a number: the run of number characters at the cursor, parsed
    /// by `T`'s `FromStr` impl. An empty run is an error that leaves the
    /// cursor; a run that does not parse is an error that puts the cursor
    /// back; a parsed number leaves the cursor after the run.
    pub fn read_num<T>(&mut self) -> (res: Result<T, ReaderError>) where
        T: std::str::FromStr,
        requires
            old(self).at_boundary(),
            old(self).cursor() < usize::MAX,
            old(self).byte_len() < usize::MAX,
        ensures
            ({
                let c = old(self).cursor() as int;
                let e = span_end(old(self).bytes(), c, number_class());
                &&& e == c ==> res == Err::<T, ReaderError>(ReaderError::NumberIsEmpty)
                    && old(self).moved(final(self), c)
                &&& e != c ==> (res is Ok && old(self).moved(final(self), e)) || (
                res matches Err(ReaderError::ParseError(m)) && m@ == number_error_text(
                    decode_utf8(old(self).bytes().subrange(c, e)),
                ) && old(self).moved(final(self), c))
            }),
    {
        let start = self.cur;
        let num = self.scan_number();
        if num.is_empty() {
            return Err(ReaderError::NumberIsEmpty);
        }
        let parsed = match parse_number::<T>(num) {
            Some(n) => Ok(n),
            None => Err(Self::number_error(num)),
        };
        self.finish_read_num(start, parsed)
    }

    /// The message of a number that does not parse.
    fn number_error(num: &str) -> (m: String)
        ensures
            m@ == number_error_text(num@),
    {
        let mut m = String::from_str("invalid number: ");
        proof {
            reveal_strlit("invalid number: ");
        }
        m.append(num);
        m
    }

    /// Settles a number read from `start` up to the cursor: a parsed
    /// number is returned and the cursor stays; a parse failure puts the
    /// cursor back at `start` and is returned with its message.
    pub fn finish_read_num<T>(&mut self, start: usize, parsed: Result<T, String>) -> (res: Result<
        T,
        ReaderError,
    >)
        ensures
            match parsed {
                Ok(n) => res == Ok::<T, ReaderError>(n) && old(self).moved(
                    final(self),
                    old(self).cursor() as int,
                ),
                Err(m) => res == Err::<T, ReaderError>(ReaderError::ParseError(m))
                    && old(self).moved(final(self), start as int),
            },
    {
        match parsed {
            Ok(n) => Ok(n),
            Err(m) => {
                self.cur = start;
                Err(ReaderError::ParseError(m))
            },
        }
    }

    /// Reads an unquoted string: the characters at the cursor that are
    /// allowed unquoted, as a new string.
    pub fn read_unquoted_string(&mut self) -> (res: Result<String, ReaderError>)
        requires
            old(self).at_boundary(),
            old(self).cursor() < usize::MAX,
            old(self).byte_len() < usize::MAX,
        ensures
            ({
                let o = unquoted_outcome(old(self).bytes(), old(self).cursor() as int).unwrap();
                view_result(res) == o.0 && old(self).moved(final(self), o.1)
            }),
    {
        let start = self.cur;
        self.skip_class(Class::Unquoted);
        proof {
            lemma_span_keeps_boundary(self.bytes(), start as int, unquoted_class());
        }
        Ok(byte_slice(self.buf.as_str(), start, self.cur).to_owned())
    }

    /// Reads an unquoted string: the characters at the cursor that are
    /// allowed unquoted, as a part of the text.
    pub fn read_unquoted_str(&mut self) -> (res: Result<&str, ReaderError>)
        requires
            old(self).at_boundary(),
            old(self).cursor() < usize::MAX,
            old(self).byte_len() < usize::MAX,
        ensures
            ({
                let o = unquoted_outcome(old(self).bytes(), old(self).cursor() as int).unwrap();
                &&& res matches Ok(s) && o.0 == Ok::<Seq<char>, ReaderError>(s@)
                &&& old(self).moved(final(self), o.1)
            }),
    {
        let start = self.cur;
        self.skip_class(Class::Unquoted);
        proof {
            lemma_span_keeps_boundary(self.bytes(), start as int, unquoted_class());
        }
        Ok(byte_slice(self.buf.as_str(), start, self.cur))
    }

    /// Reads characters, with escapes, until one of `stops`; see
    /// `escaped_scan`.
    fn read_escaped(&mut self, stops: &[char], consume_stop: bool, stop_required: bool) -> (res:
        Result<String, ReaderError>)
        requires
            old(self).cursor() < usize::MAX,
            old(self).byte_len() < usize::MAX,
            escaped_scan(
                old(self).text(),
                old(self).byte_len(),
                old(self).cursor() as int,
                stops@,
                consume_stop,
                stop_required,
                false,
                seq![],
            ) is Some,
        ensures
            ({
                let o = escaped_scan(
                    old(self).text(),
                    old(self).byte_len(),
                    old(self).cursor() as int,
                    stops@,
                    consume_stop,
                    stop_required,
                    false,
                    seq![],
                ).unwrap();
                view_result(res) == o.0 && old(self).moved(final(self), o.1)
            }),
    {
        let ghost outcome = escaped_scan(
            self.text(),
            self.byte_len(),
            self.cursor() as int,
            stops@,
            consume_stop,
            stop_required,
            false,
            seq![],
        );
        let mut result = String::new();
        let mut escaped = false;
        while self.can_read(1)
            invariant
                self.text() == old(self).text(),
                self.cursor() < usize::MAX,
                self.byte_len() < usize::MAX,
                outcome == escaped_scan(
                    old(self).text(),
                    old(self).byte_len(),
                    old(self).cursor() as int,
                    stops@,
                    consume_stop,
                    stop_required,
                    false,
                    seq![],
                ),
                outcome is Some,
                escaped_scan(
                    self.text(),
                    self.byte_len(),
                    self.cursor() as int,
                    stops@,
                    consume_stop,
                    stop_required,
                    escaped,
                    result@,
                ) == outcome,
            decreases self.byte_len() - self.cursor(),
        {
            proof {
                lemma_chars_le_bytes(self.text());
            }
            let c = self.read();
            if escaped {
                if contains_char(stops, c) || c == ESCAPE {
                    push_char(&mut result, c);
                    escaped = false;
                } else {
                    self.cur = self.cur - 1;
                    return Err(ReaderError::InvalidEscape);
                }
            } else if c == ESCAPE {
                escaped = true;
            } else if contains_char(stops, c) {
                if !consume_stop {
                    self.cur = self.cur - 1;
                }
                return Ok(result);
            } else {
                push_char(&mut result, c);
            }
        }
        if stop_required {
            Err(ReaderError::ExpectedEndOfQuote)
        } else {
            Ok(result)
        }
    }

    /// Reads characters until `end`, which is consumed and must come. A
    /// backslash escapes `end` or another backslash.
    pub fn read_string_until(&mut self, end: char) -> (res: Result<String, ReaderError>)
        requires
            old(self).cursor() < usize::MAX,
            old(self).byte_len() < usize::MAX,
            until_outcome(old(self).text(), old(self).byte_len(), old(self).cursor() as int, end) is Some,
        ensures
            ({
                let o = until_outcome(
                    old(self).text(),
                    old(self).byte_len(),
                    old(self).cursor() as int,
                    end,
                ).unwrap();
                view_result(res) == o.0 && old(self).moved(final(self), o.1)
            }),
    {
        let stops = vec![end];
        assert(stops@ == seq![end]);
        self.read_escaped(stops.as_slice(), true, true)
    }

    /// Reads characters until a space, which is consumed, or the end of
    /// the text. A backslash escapes a space or another backslash.
    pub fn read_string_until_end(&mut self) -> (res: Result<String, ReaderError>)
        requires
            old(self).cursor() < usize::MAX,
            old(self).byte_len() < usize::MAX,
            until_end_outcome(old(self).text(), old(self).byte_len(), old(self).cursor() as int) is Some,
        ensures
            ({
                let o = until_end_outcome(
                    old(self).text(),
                    old(self).byte_len(),
                    old(self).cursor() as int,
                ).unwrap();
                view_result(res) == o.0 && old(self).moved(final(self), o.1)
            }),
    {
        let stops = vec![' '];
        assert(stops@ == seq![' ']);
        self.read_escaped(stops.as_slice(), true, false)
    }

    /// Reads characters until one of `end`, which is left unread, or the
    /// end of the text. A backslash escapes one of `end` or another
    /// backslash.
    pub fn read_string_until_vec(&mut self, end: &[char]) -> (res: Result<String, ReaderError>)
        requires
            old(self).cursor() < usize::MAX,
            old(self).byte_len() < usize::MAX,
            until_any_outcome(
                old(self).text(),
                old(self).byte_len(),
                old(self).cursor() as int,
                end@,
            ) is Some,
        ensures
            ({
                let o = until_any_outcome(
                    old(self).text(),
                    old(self).byte_len(),
                    old(self).cursor() as int,
                    end@,
                ).unwrap();
                view_result(res) == o.0 && old(self).moved(final(self), o.1)
            }),
    {
        self.read_escaped(end, false, false)
    }

    /// Reads a quoted string: the byte at the cursor must be a quote,
    /// and the string runs to the same quote. An empty rest reads as an
    /// empty string.
    pub fn read_quoted_string(&mut self) -> (res: Result<String, ReaderError>)
        requires
            old(self).cursor() < usize::MAX,
            old(self).byte_len() < usize::MAX,
            quoted_outcome(old(self).text(), old(self).cursor() as int) is Some,
        ensures
            ({
                let o = quoted_outcome(old(self).text(), old(self).cursor() as int).unwrap();
                view_result(res) == o.0 && old(self).moved(final(self), o.1)
            }),
    {
        if !self.can_read(1) {
            return Ok(String::new());
        }
        let next = self.peek(0);
        if !Self::is_quoted_string_start(next) {
            return Err(ReaderError::ExpectedStartOfQuote);
        }
        self.skip();
        self.read_string_until(next)
    }

    /// Reads a quoted string where the byte at the cursor is a quote,
    /// else an unquoted string.
    pub fn read_string(&mut self) -> (res: Result<String, ReaderError>)
        requires
            old(self).cursor() < usize::MAX,
            old(self).byte_len() < usize::MAX,
            string_outcome(old(self).text(), old(self).cursor() as int) is Some,
        ensures
            ({
                let o = string_outcome(old(self).text(), old(self).cursor() as int).unwrap();
                view_result(res) == o.0 && old(self).moved(final(self), o.1)
            }),
    {
        if !self.can_read(1) {
            return Ok(String::new());
        }
        let next = self.peek(0);
        if Self::is_quoted_string_start(next) {
            self.skip();
            self.read_string_until(next)
        } else {
            self.read_unquoted_string()
        }
    }

    /// Reads `n` characters, or fewer where the text ends first.
    pub fn read_n(&mut self, n: usize) -> (res: Result<String, ReaderError>)
        requires
            old(self).cursor() < usize::MAX,
            old(self).byte_len() < usize::MAX,
            ({
                let c = old(self).cursor() as int;
                let q = take_n_stop(old(self).byte_len(), c, n as int);
                q == c || q <= old(self).text().len()
            }),
        ensures
            ({
                let c = old(self).cursor() as int;
                let q = take_n_stop(old(self).byte_len(), c, n as int);
                &&& res matches Ok(s) && s@.len() == q - c && forall|i: int|
                    0 <= i < q - c ==> s@[i] == old(self).text()[c + i]
                &&& old(self).moved(final(self), q)
            }),
    {
        let ghost c0 = self.cursor() as int;
        let ghost q = take_n_stop(self.byte_len(), c0, n as int);
        let mut result = String::new();
        let mut taken: usize = 0;
        while self.can_read(1) && taken != n
            invariant
                self.text() == old(self).text(),
                c0 == old(self).cursor(),
                q == take_n_stop(old(self).byte_len(), c0, n as int),
                q == c0 || q <= self.text().len(),
                self.cursor() < usize::MAX,
                self.byte_len() < usize::MAX,
                taken == result@.len(),
                taken + c0 == self.cursor(),
                c0 <= self.cursor() <= q,
                forall|i: int| 0 <= i < taken ==> result@[i] == self.text()[c0 + i],
            decreases self.byte_len() - self.cursor(),
        {
            proof {
                lemma_chars_le_bytes(self.text());
            }
            let ghost before = result@;
            let c = self.read();
            push_char(&mut result, c);
            taken += 1;
            assert forall|i: int| 0 <= i < taken implies result@[i] == self.text()[c0 + i] by {
                if i < taken - 1 {
                    assert(result@[i] == before[i]);
                }
            }
        }
        Ok(result)
    }

    /// The next `n` characters after the cursor; an error where fewer
    /// remain.
    pub fn get_n_ref(&self, n: usize) -> (res: Result<&str, ReaderError>)
        requires
            self.cursor() <= self.byte_len(),
            self.at_boundary() || self.byte_len() - self.cursor() < n,
        ensures
            !self.at_boundary() ==> res == Err::<&str, ReaderError>(ReaderError::ExpectedChar),
            self.at_boundary() ==> ({
                let rest = decode_utf8(
                    self.bytes().subrange(self.cursor() as int, self.byte_len()),
                );
                &&& rest.len() < n ==> res == Err::<&str, ReaderError>(ReaderError::ExpectedChar)
                &&& rest.len() >= n ==> (res matches Ok(s) && s@ == rest.subrange(0, n as int))
            }),
    {
        if self.remaining_len() < n {
            proof {
                if self.at_boundary() {
                    let b = self.bytes().subrange(self.cursor() as int, self.byte_len());
                    lemma_chars_le_bytes(decode_utf8(b));
                    vstd::utf8::valid_utf8_split(self.bytes(), self.cursor() as int);
                    vstd::utf8::decode_utf8_encode_utf8(b);
                }
            }
            return Err(ReaderError::ExpectedChar);
        }
        let rest = self.next();
        if rest.unicode_len() < n {
            return Err(ReaderError::ExpectedChar);
        }
        Ok(rest.substring_char(0, n))
    }

    /// The part of the text between the byte positions `start` and `end`.
    pub fn get_n_range(&self, start: usize, end: usize) -> (s: &str)
        requires
            start <= end,
            is_char_boundary(self.bytes(), start as int),
            is_char_boundary(self.bytes(), end as int),
        ensures
            encode_utf8(s@) == self.bytes().subrange(start as int, end as int),
    {
        byte_slice(self.buf.as_str(), start, end)
    }

    /// Checks that the byte at the cursor is `c` and steps over it; an
    /// error that leaves the cursor where it is not.
    pub fn expect(&mut self, c: char) -> (res: Result<(), ReaderError>)
        requires
            old(self).cursor() < usize::MAX,
        ensures
            ({
                let p = old(self).cursor() as int;
                let found = p < old(self).byte_len() && byte_char(old(self).bytes()[p]) == c;
                &&& found ==> res is Ok && old(self).moved(final(self), p + 1)
                &&& !found ==> res == Err::<(), ReaderError>(ReaderError::ExpectedChar)
                    && old(self).moved(final(self), p)
            }),
    {
        if !self.can_read(1) || self.peek(0) != c {
            return Err(ReaderError::ExpectedChar);
        }
        self.skip();
        Ok(())
    }

    /// Reads a string and takes it as a boolean. A string other than
    /// `true` or `false` is an error that puts the cursor back; an empty
    /// one is an error that does not.
    pub fn read_bool(&mut self) -> (res: Result<bool, ReaderError>)
        requires
            old(self).cursor() < usize::MAX,
            old(self).byte_len() < usize::MAX,
            string_outcome(old(self).text(), old(self).cursor() as int) is Some,
        ensures
            ({
                let o = string_outcome(old(self).text(), old(self).cursor() as int).unwrap();
                match o.0 {
                    Err(e) => res == Err::<bool, ReaderError>(e) && old(self).moved(
                        final(self),
                        o.1,
                    ),
                    Ok(v) => if v.len() == 0 {
                        res == Err::<bool, ReaderError>(ReaderError::ExpectedBool) && old(
                            self,
                        ).moved(final(self), o.1)
                    } else if v == true_text() {
                        res == Ok::<bool, ReaderError>(true) && old(self).moved(final(self), o.1)
                    } else if v == false_text() {
                        res == Ok::<bool, ReaderError>(false) && old(self).moved(final(self), o.1)
                    } else {
                        &&& res matches Err(ReaderError::InvalidBool(s)) && s@ == v
                        &&& old(self).moved(final(self), old(self).cursor() as int)
                    },
                }
            }),
    {
        let start = self.cur;
        let val = match self.read_string() {
            Ok(v) => v,
            Err(e) => return Err(e),
        };
        if val.as_str().is_empty() {
            return Err(ReaderError::ExpectedBool);
        }
        proof {
            reveal_strlit("true");
            reveal_strlit("false");
            assert("true"@ =~= true_text());
            assert("false"@ =~= false_text());
        }
        if val == "true".to_owned() {
            Ok(true)
        } else if val == "false".to_owned() {
            Ok(false)
        } else {
            self.cur = start;
            Err(ReaderError::InvalidBool(val))
        }
    }

    /// Reads up to the `target.1` that balances the first `target.0`,
    /// taking everything before that `target.0` too. Brackets inside
    /// quotes do not count. A `target.1` before any `target.0` is an error;
    /// so is a `target.0` that is never balanced.
    pub fn read_until_balanced(&mut self, target: (char, char)) -> (res: Result<String, ReaderError>)
        requires
            old(self).cursor() < usize::MAX,
            old(self).byte_len() < usize::MAX,
            balanced_outcome(old(self).text(), old(self).cursor() as int, target.0, target.1) is Some,
        ensures
            ({
                let o = balanced_outcome(
                    old(self).text(),
                    old(self).cursor() as int,
                    target.0,
                    target.1,
                ).unwrap();
                view_result(res) == o.0 && old(self).moved(final(self), o.1)
            }),
    {
        let ghost outcome = balanced_outcome(
            self.text(),
            self.cursor() as int,
            target.0,
            target.1,
        );
        let mut result = String::new();
        let mut depth: i32 = 0;
        let mut in_quotes = false;
        let mut found_first_target = false;
        while self.can_read(1)
            invariant
                self.text() == old(self).text(),
                self.cursor() < usize::MAX,
                self.byte_len() < usize::MAX,
                outcome == balanced_outcome(
                    old(self).text(),
                    old(self).cursor() as int,
                    target.0,
                    target.1,
                ),
                outcome is Some,
                found_first_target ==> depth >= 1,
                !found_first_target ==> depth == 0,
                balanced_scan(
                    self.text(),
                    self.byte_len(),
                    self.cursor() as int,
                    target.0,
                    target.1,
                    depth as int,
                    in_quotes,
                    found_first_target,
                    result@,
                ) == outcome,
            decreases self.byte_len() - self.cursor(),
        {
            proof {
                lemma_chars_le_bytes(self.text());
            }
            let c = self.read();
            if !found_first_target && c == target.1 {
                return Err(ReaderError::FoundClosingBeforeOpening);
            }
            push_char(&mut result, c);
            if Self::is_quoted_string_start(c) {
                in_quotes = !in_quotes;
            }
            if !in_quotes {
                if c == target.0 {
                    depth += 1;
                    found_first_target = true;
                } else if c == target.1 {
                    depth -= 1;
                    if depth == 0 {
                        return Ok(result);
                    }
                }
            }
        }
        if found_first_target {
            Err(ReaderError::NoClosing)
        } else {
            Ok(result)
        }
    }
}

} // verus!
