# slectern

A string reader: a text with a cursor, and operations that step the cursor
over whitespace, numbers, words, quoted strings with backslash escapes, and
bracketed parts, returning what they read. Every operation is verified with
Verus against a contract over the text's characters, its UTF-8 bytes and
the cursor.

- `src/reader.rs`: the `Reader` and its operations.
- `src/model.rs`: what each reading operation computes, as spec functions.
- `src/laws.rs`: properties across operations (reading back escaped and
  quoted strings, skipping being idempotent, bracket reads returning what
  they pass over, ASCII text never being read past its end).
- `src/text.rs`: UTF-8 facts and the few string operations used.
- `src/error.rs`: `ReaderError` and its messages.
- `app/`: `ReaderError` as a `std::error::Error`, through `thiserror`.

The cursor counts bytes where the reader checks what is left, peeks, or
cuts the text, and counts characters where it takes the next character;
on ASCII text the two agree. Operations that could take a character past
the end of the text require, in their contracts, that they do not.
