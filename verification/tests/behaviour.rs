use slectern::{Reader, ReaderError};

#[test]
fn readme_usage() -> Result<(), ReaderError> {
    let mut r = Reader::new("  keyword 814 true \"sick noooo\"");
    r.skip_whitespace();
    assert_eq!(r.read_string_until_end()?, "keyword");
    assert_eq!(r.read_num::<i64>()?, 814);
    r.skip_whitespace();
    assert_eq!(r.read_bool()?, true);
    r.skip_whitespace();
    assert_eq!(r.read_quoted_string()?, "sick noooo");
    assert_eq!(r.next(), "");
    Ok(())
}

#[test]
fn prev_and_next_make_up_the_text() {
    let text = "ab é cd";
    let mut r = Reader::new(text);
    for p in [0usize, 1, 2, 3, 5, 6, 7, 8] {
        r.set_pos(p);
        assert_eq!(r.pos(), p);
        let joined = format!("{}{}", r.prev(), r.next());
        assert_eq!(joined, text);
    }
}

#[test]
fn prev_off_a_char_boundary_is_whole_text() {
    let mut r = Reader::new("é");
    r.set_pos(1);
    assert_eq!(r.prev(), "é");
    r.set_pos(9);
    assert_eq!(r.prev(), "é");
}

#[test]
fn string_is_the_whole_text() {
    let mut r = Reader::new("abc");
    r.skip();
    assert_eq!(r.string(), "abc");
}

#[test]
fn default_reader_is_empty() {
    let r = Reader::default();
    assert_eq!(r.string(), "");
    assert_eq!(r.pos(), 0);
    assert_eq!(r.remaining_len(), 0);
    assert!(!r.can_read(1));
    assert!(r.can_read(0));
}

#[test]
fn can_read_agrees_with_remaining_len() {
    let mut r = Reader::new("abcd");
    r.set_pos(1);
    assert_eq!(r.remaining_len(), 3);
    for len in 0usize..6 {
        assert_eq!(r.can_read(len), r.remaining_len() >= len);
    }
}

#[test]
fn remaining_len_counts_bytes() {
    let r = Reader::new("é!");
    assert_eq!(r.remaining_len(), 3);
}

#[test]
fn skip_whitespace_twice_stays() {
    let mut r = Reader::new(" \n\t x  y");
    r.skip_whitespace();
    assert_eq!(r.pos(), 4);
    r.skip_whitespace();
    assert_eq!(r.pos(), 4);
    assert_eq!(r.peek(0), 'x');
}

#[test]
fn skip_whitespace_to_the_end() {
    let mut r = Reader::new("   ");
    r.skip_whitespace();
    assert_eq!(r.pos(), 3);
    assert_eq!(r.next(), "");
}

#[test]
fn skip_whitespace_looks_at_bytes() {
    // U+00A0 is whitespace, but its first UTF-8 byte (0xC2) is not.
    let mut r = Reader::new("\u{a0}x");
    r.skip_whitespace();
    assert_eq!(r.pos(), 0);
    // A vertical tab and a form feed are whitespace bytes.
    let mut r = Reader::new("\u{b}\u{c}x");
    r.skip_whitespace();
    assert_eq!(r.pos(), 2);
}

#[test]
fn peek_reads_bytes_and_clamps_to_the_last() {
    let r = Reader::new("aé");
    assert_eq!(r.peek(0), 'a');
    assert_eq!(r.peek(1), '\u{c3}');
    assert_eq!(r.peek(2), '\u{a9}');
    assert_eq!(r.peek(3), '\u{a9}');
    assert_eq!(r.peek(100), '\u{a9}');
}

#[test]
fn peek_agrees_with_read_on_ascii() {
    let mut r = Reader::new("xyz");
    for _ in 0..3 {
        let seen = r.peek(0);
        assert_eq!(r.read(), seen);
    }
    assert_eq!(r.pos(), 3);
}

#[test]
fn read_counts_characters() {
    let mut r = Reader::new("éa");
    assert_eq!(r.read(), 'é');
    assert_eq!(r.pos(), 1);
    assert_eq!(r.read(), 'a');
    assert_eq!(r.pos(), 2);
}

#[test]
fn prev_c_looks_back() {
    let mut r = Reader::new("abc");
    r.set_pos(2);
    assert_eq!(r.prev_c(0), Some('b'));
    assert_eq!(r.prev_c(1), Some('a'));
    assert_eq!(r.prev_c(2), None);
    r.set_pos(0);
    assert_eq!(r.prev_c(0), None);
}

#[test]
fn peek_n_and_get_n_ref() -> Result<(), ReaderError> {
    let mut r = Reader::new("abcdef");
    r.set_pos(2);
    assert_eq!(r.peek_n(0), "");
    assert_eq!(r.peek_n(2), "cd");
    assert_eq!(r.peek_n(4), "cdef");
    assert_eq!(r.get_n_ref(3)?, "cde");
    assert_eq!(r.get_n_ref(4)?, "cdef");
    assert_eq!(r.get_n_ref(5), Err(ReaderError::ExpectedChar));
    assert_eq!(r.pos(), 2);
    Ok(())
}

#[test]
fn char_classes() {
    for c in ['0', '9', '.', '-'] {
        assert!(Reader::is_allowed_number(c));
    }
    for c in ['a', '+', ' ', '/', ':'] {
        assert!(!Reader::is_allowed_number(c));
    }
    for c in ['0', 'Z', 'a', 'z', '_', '-', '.', '+'] {
        assert!(Reader::is_allowed_in_unquoted_string(c));
    }
    for c in [' ', '[', '"', 'é', ':', '@'] {
        assert!(!Reader::is_allowed_in_unquoted_string(c));
    }
    assert!(Reader::is_quoted_string_start('"'));
    assert!(Reader::is_quoted_string_start('\''));
    assert!(!Reader::is_quoted_string_start('`'));
}

#[test]
fn read_unquoted_stops_at_first_other_char() -> Result<(), ReaderError> {
    let mut r = Reader::new("a_b-1.2+x:rest");
    assert_eq!(r.read_unquoted_str()?, "a_b-1.2+x");
    assert_eq!(r.pos(), 9);
    assert_eq!(r.read_unquoted_string()?, "");
    assert_eq!(r.pos(), 9);
    Ok(())
}

#[test]
fn quoted_string_with_escapes_reads_back() -> Result<(), ReaderError> {
    let mut r = Reader::new("\"a\\\"b\\\\c\" rest");
    assert_eq!(r.read_quoted_string()?, "a\"b\\c");
    assert_eq!(r.pos(), 9);
    assert_eq!(r.next(), " rest");
    Ok(())
}

#[test]
fn quoted_string_of_non_ascii() -> Result<(), ReaderError> {
    let mut r = Reader::new("'héllo'");
    assert_eq!(r.read_quoted_string()?, "héllo");
    Ok(())
}

#[test]
fn quoted_string_on_empty_rest() -> Result<(), ReaderError> {
    let mut r = Reader::new("");
    assert_eq!(r.read_quoted_string()?, "");
    assert_eq!(r.pos(), 0);
    Ok(())
}

#[test]
fn quoted_string_needs_a_quote() {
    let mut r = Reader::new("abc");
    assert_eq!(r.read_quoted_string(), Err(ReaderError::ExpectedStartOfQuote));
    assert_eq!(r.pos(), 0);
}

#[test]
fn quoted_string_needs_its_end() {
    let mut r = Reader::new("\"abc");
    assert_eq!(r.read_quoted_string(), Err(ReaderError::ExpectedEndOfQuote));
    assert_eq!(r.pos(), 4);
}

#[test]
fn invalid_escape_stops_at_the_escaped_char() {
    let mut r = Reader::new("\"a\\xb\"");
    assert_eq!(r.read_quoted_string(), Err(ReaderError::InvalidEscape));
    assert_eq!(r.pos(), 3);
}

#[test]
fn until_end_with_escaped_space() -> Result<(), ReaderError> {
    let mut r = Reader::new("a\\ b c");
    assert_eq!(r.read_string_until_end()?, "a b");
    assert_eq!(r.pos(), 5);
    assert_eq!(r.read_string_until_end()?, "c");
    assert_eq!(r.pos(), 6);
    Ok(())
}

#[test]
fn until_vec_reads_the_rest_without_a_stop() -> Result<(), ReaderError> {
    let mut r = Reader::new("ab\\[c");
    assert_eq!(r.read_string_until_vec(&['x', '['])?, "ab[c");
    assert_eq!(r.pos(), 5);
    Ok(())
}

#[test]
fn until_stops_at_the_given_char() -> Result<(), ReaderError> {
    let mut r = Reader::new("key=value");
    assert_eq!(r.read_string_until('=')?, "key");
    assert_eq!(r.next(), "value");
    Ok(())
}

#[test]
fn read_string_picks_quoted_or_unquoted() -> Result<(), ReaderError> {
    let mut r = Reader::new("word 'two words'");
    assert_eq!(r.read_string()?, "word");
    r.skip();
    assert_eq!(r.read_string()?, "two words");
    assert_eq!(r.read_string()?, "");
    Ok(())
}

#[test]
fn read_n_past_the_end() -> Result<(), ReaderError> {
    let mut r = Reader::new("abc");
    r.skip();
    assert_eq!(r.read_n(10)?, "bc");
    assert_eq!(r.pos(), 3);
    assert_eq!(r.read_n(0)?, "");
    Ok(())
}

#[test]
fn read_n_counts_characters() -> Result<(), ReaderError> {
    let mut r = Reader::new("éabc");
    assert_eq!(r.read_n(3)?, "éab");
    assert_eq!(r.pos(), 3);
    Ok(())
}

#[test]
fn get_n_ref_counts_characters() -> Result<(), ReaderError> {
    let r = Reader::new("éa");
    assert_eq!(r.get_n_ref(1)?, "é");
    assert_eq!(r.get_n_ref(2)?, "éa");
    assert_eq!(r.get_n_ref(3), Err(ReaderError::ExpectedChar));
    let mut r = Reader::new("éa");
    r.set_pos(1);
    assert_eq!(r.get_n_ref(3), Err(ReaderError::ExpectedChar));
    Ok(())
}

#[test]
fn until_end_is_until_space_one_further() -> Result<(), ReaderError> {
    let mut a = Reader::new("ab\\ c d");
    let mut b = a.clone();
    assert_eq!(a.read_string_until_end()?, b.read_string_until_vec(&[' '])?);
    assert_eq!(a.pos(), b.pos() + 1);
    let mut a = Reader::new("abc");
    let mut b = a.clone();
    assert_eq!(a.read_string_until_end()?, b.read_string_until_vec(&[' '])?);
    assert_eq!(a.pos(), b.pos());
    Ok(())
}

#[test]
fn get_n_range_cuts_by_bytes() {
    let r = Reader::new("aébc");
    assert_eq!(r.get_n_range(0, 1), "a");
    assert_eq!(r.get_n_range(1, 3), "é");
    assert_eq!(r.get_n_range(3, 5), "bc");
    assert_eq!(r.get_n_range(2 + 1, 3), "");
}

#[test]
fn read_bool_false_and_errors() {
    let mut r = Reader::new("false");
    assert_eq!(r.read_bool(), Ok(false));
    assert_eq!(r.pos(), 5);

    let mut r = Reader::new("maybe so");
    assert_eq!(r.read_bool(), Err(ReaderError::InvalidBool("maybe".to_string())));
    assert_eq!(r.pos(), 0);

    let mut r = Reader::new("");
    assert_eq!(r.read_bool(), Err(ReaderError::ExpectedBool));

    let mut r = Reader::new("\"\" x");
    assert_eq!(r.read_bool(), Err(ReaderError::ExpectedBool));
    assert_eq!(r.pos(), 2);

    let mut r = Reader::new("'true'");
    assert_eq!(r.read_bool(), Ok(true));

    let mut r = Reader::new("\"tru");
    assert_eq!(r.read_bool(), Err(ReaderError::ExpectedEndOfQuote));
}

#[test]
fn read_num_errors() {
    let mut r = Reader::new("abc");
    assert_eq!(r.read_num::<i32>(), Err(ReaderError::NumberIsEmpty));
    assert_eq!(r.pos(), 0);

    let mut r = Reader::new("1.2.3 x");
    assert_eq!(
        r.read_num::<f64>(),
        Err(ReaderError::ParseError("invalid number: 1.2.3".to_string()))
    );
    assert_eq!(r.pos(), 0);

    let mut r = Reader::new("300");
    assert!(matches!(r.read_num::<u8>(), Err(ReaderError::ParseError(_))));
    assert_eq!(r.pos(), 0);
}

#[test]
fn read_num_leaves_cursor_after_number() -> Result<(), ReaderError> {
    let mut r = Reader::new("42 rest");
    assert_eq!(r.read_num::<u32>()?, 42);
    assert_eq!(r.pos(), 2);
    Ok(())
}

#[test]
fn finish_read_num_settles_the_parse() {
    let mut r = Reader::new("12345");
    r.set_pos(4);
    assert_eq!(r.finish_read_num::<u8>(1, Ok(7)), Ok(7));
    assert_eq!(r.pos(), 4);
    assert_eq!(
        r.finish_read_num::<u8>(1, Err("bad".to_string())),
        Err(ReaderError::ParseError("bad".to_string()))
    );
    assert_eq!(r.pos(), 1);
}

#[test]
fn expect_failure_stays() {
    let mut r = Reader::new("b");
    assert_eq!(r.expect('a'), Err(ReaderError::ExpectedChar));
    assert_eq!(r.pos(), 0);
    assert_eq!(r.expect('b'), Ok(()));
    assert_eq!(r.pos(), 1);
    assert_eq!(r.expect('b'), Err(ReaderError::ExpectedChar));
    assert_eq!(r.pos(), 1);
}

#[test]
fn balanced_errors_and_cursor() {
    let mut r = Reader::new("ab]c");
    assert_eq!(
        r.read_until_balanced(('[', ']')),
        Err(ReaderError::FoundClosingBeforeOpening)
    );
    assert_eq!(r.pos(), 3);

    let mut r = Reader::new("[a[b]");
    assert_eq!(r.read_until_balanced(('[', ']')), Err(ReaderError::NoClosing));
    assert_eq!(r.pos(), 5);
}

#[test]
fn balanced_without_brackets_reads_the_rest() -> Result<(), ReaderError> {
    let mut r = Reader::new("no brackets");
    assert_eq!(r.read_until_balanced(('[', ']'))?, "no brackets");
    assert_eq!(r.pos(), 11);
    Ok(())
}

#[test]
fn balanced_returns_what_it_reads() -> Result<(), ReaderError> {
    let text = "x{a'}'{b}}tail";
    let mut r = Reader::new(text);
    let got = r.read_until_balanced(('{', '}'))?;
    assert_eq!(got, "x{a'}'{b}}");
    assert_eq!(got, &text[..r.pos()]);
    assert_eq!(r.next(), "tail");
    Ok(())
}

#[test]
fn error_messages() {
    let cases = [
        (ReaderError::NumberIsEmpty, "Tried to parse a number but found nothing"),
        (ReaderError::ParseError("boom".to_string()), "boom"),
        (ReaderError::ExpectedStartOfQuote, "Expected start of quote"),
        (ReaderError::ExpectedEndOfQuote, "Expected end of quote"),
        (ReaderError::InvalidEscape, "Invalid escape"),
        (ReaderError::ExpectedBool, "Expected a bool but found nothing"),
        (
            ReaderError::InvalidBool("x".to_string()),
            "Invalid bool, must be either 'true' or 'false'",
        ),
        (ReaderError::ExpectedChar, "Expected a char but found nothing"),
        (
            ReaderError::FoundClosingBeforeOpening,
            "Found a closing char before an opening char",
        ),
        (
            ReaderError::NoClosing,
            "Expected a closing char after an opening but no closing was found",
        ),
    ];
    for (e, m) in cases {
        assert_eq!(e.message(), m);
    }
}

#[test]
fn clone_keeps_text_and_cursor() {
    let mut r = Reader::new("abc");
    r.skip();
    let c = r.clone();
    assert_eq!(c, r);
    assert_eq!(c.pos(), 1);
    assert_eq!(c.string(), "abc");
}
