use utf8_props::automaton::Utf8Error;
use utf8_props::category::{
    BitSet, CASED_LETTER, CONTROL, DASH_PUNCTUATION, DECIMAL_NUMBER, LETTER, LOWERCASE_LETTER,
    NUMBER, OTHER, OTHER_SYMBOL, PUNCTUATION, SEPERATOR, SPACE_SEPERATOR, UPPERCASE_LETTER,
};
use utf8_props::decode_utf8::decode_utf8;
use utf8_props::trie::Trie;

fn expect_error(bytes: &[u8], expected: Utf8Error) {
    let mut iter = decode_utf8(bytes);
    assert!(iter.next_char().is_none());
    assert_eq!(iter.status().unwrap_err(), expected);
}

#[test]
fn detects_illegal_lead() {
    expect_error(&[0x80], Utf8Error::NotALeadingByte);
}

#[test]
fn detects_illegal_cont() {
    expect_error(&[0xC2, 0x20], Utf8Error::NotAContinuationByte);
}

#[test]
fn detects_overlong_encoding3() {
    expect_error(&[0xE0, 0x80, 0x80], Utf8Error::OverlongEncoding);
}

#[test]
fn detects_overlong_encoding4() {
    expect_error(&[0xF0, 0x80, 0x80, 0x80], Utf8Error::OverlongEncoding);
}

#[test]
fn detects_surrogate_character() {
    expect_error(&[0xED, 0xA0, 0x80], Utf8Error::SurrogateCharacter);
}

#[test]
fn detects_illegal_codepoint() {
    expect_error(&[0xF4, 0xBF, 0xBF], Utf8Error::OutOfCharacterRange);
}

#[test]
fn detects_early_end_of_stream() {
    expect_error(&[0xC2], Utf8Error::UnexpectedEndOfBuffer);
}

#[test]
fn always_illegal_bytes_are_not_leading_bytes() {
    expect_error(&[0xC0, 0x80], Utf8Error::NotALeadingByte);
    expect_error(&[0xC1, 0xBF], Utf8Error::NotALeadingByte);
    expect_error(&[0xF5, 0x80, 0x80, 0x80], Utf8Error::NotALeadingByte);
    expect_error(&[0xFF], Utf8Error::NotALeadingByte);
}

#[test]
fn boundary_scalars_decode() {
    let cases: [(&[u8], u32); 6] = [
        (&[0xE0, 0xA0, 0x80], 0x800),
        (&[0xED, 0x9F, 0xBF], 0xD7FF),
        (&[0xEE, 0x80, 0x80], 0xE000),
        (&[0xF0, 0x90, 0x80, 0x80], 0x10000),
        (&[0xF4, 0x8F, 0xBF, 0xBF], 0x10FFFF),
        (&[0xC2, 0x80], 0x80),
    ];
    for (bytes, cp) in cases.iter() {
        let mut iter = decode_utf8(bytes);
        assert_eq!(iter.next_char().map(|c| c as u32), Some(*cp));
        assert!(iter.next_char().is_none());
        assert!(iter.status().is_ok());
    }
}

#[test]
fn end_of_buffer_inside_longer_sequences() {
    expect_error(&[0xE1, 0x80], Utf8Error::UnexpectedEndOfBuffer);
    expect_error(&[0xF1, 0x80, 0x80], Utf8Error::UnexpectedEndOfBuffer);
    expect_error(&[0xF1, 0x80, 0x41], Utf8Error::NotAContinuationByte);
}

#[test]
fn decodes_multilingual_text() {
    let text = "Grüße, Καλημέρα, こんにちは, 𝄞 and ASCII.";
    let mut iter = decode_utf8(text.as_bytes());
    for expected in text.chars() {
        assert_eq!(iter.next_char(), Some(expected));
    }
    assert!(iter.next_char().is_none());
    assert!(iter.status().is_ok());
}

#[test]
fn empty_buffer_yields_nothing() {
    let mut iter = decode_utf8(&[]);
    assert!(iter.next_char().is_none());
    assert!(iter.status().is_ok());
}

#[test]
fn decoding_twice_gives_the_same_result() {
    let bytes = [0x41, 0xC3, 0xA9, 0xE0, 0x80, 0x42];
    let run = |bytes: &[u8]| {
        let mut iter = decode_utf8(bytes);
        let mut out = Vec::new();
        for _ in 0..6 {
            out.push(iter.next_char());
        }
        (out, iter.status())
    };
    let first = run(&bytes);
    let second = run(&bytes);
    assert_eq!(first, second);
    assert_eq!(first.0[0], Some('A'));
    assert_eq!(first.0[1], Some('é'));
    assert_eq!(first.0[2], None);
    assert_eq!(first.1, Err(Utf8Error::OverlongEncoding));
}

#[test]
fn decoding_resumes_after_a_fault() {
    let mut iter = decode_utf8(&[0x80, 0x41]);
    assert!(iter.next_char().is_none());
    assert_eq!(iter.status(), Err(Utf8Error::NotALeadingByte));
    assert_eq!(iter.next_char(), Some('A'));
    assert_eq!(iter.status(), Err(Utf8Error::NotALeadingByte));
}

#[test]
fn categorizes_ascii() {
    let cats = Trie::new().build();
    let bytes = [0x0A, 0x20, 0x2D, 0x32, 0x5A, 0x7A];
    let mut iter = decode_utf8(&bytes);

    let cat = iter.next_char_and_category(&cats).unwrap().1;
    assert!(cat.subset_of(OTHER));
    assert_eq!(cat, CONTROL);

    let cat = iter.next_char_and_category(&cats).unwrap().1;
    assert!(cat.subset_of(SEPERATOR));
    assert_eq!(cat, SPACE_SEPERATOR);

    let cat = iter.next_char_and_category(&cats).unwrap().1;
    assert!(cat.subset_of(PUNCTUATION));
    assert_eq!(cat, DASH_PUNCTUATION);

    let cat = iter.next_char_and_category(&cats).unwrap().1;
    assert!(cat.subset_of(NUMBER));
    assert_eq!(cat, DECIMAL_NUMBER);

    let cat = iter.next_char_and_category(&cats).unwrap().1;
    assert!(cat.subset_of(CASED_LETTER));
    assert!(cat.subset_of(LETTER));
    assert_eq!(cat, UPPERCASE_LETTER);

    let cat = iter.next_char_and_category(&cats).unwrap().1;
    assert!(cat.subset_of(CASED_LETTER));
    assert!(cat.subset_of(LETTER));
    assert_eq!(cat, LOWERCASE_LETTER);

    assert!(iter.next_char_and_category(&cats).is_none());
}

#[test]
fn category_unions_nest() {
    assert!(UPPERCASE_LETTER.subset_of(CASED_LETTER));
    assert!(CASED_LETTER.subset_of(LETTER));
    assert!(!LETTER.subset_of(CASED_LETTER));
    assert!(!DECIMAL_NUMBER.subset_of(LETTER));
}

#[test]
fn category_reports_faults() {
    let cats = Trie::new().build();
    let mut iter = decode_utf8(&[0x41, 0xC2]);
    assert_eq!(iter.next_char_and_category(&cats), Some(('A', UPPERCASE_LETTER)));
    assert!(iter.next_char_and_category(&cats).is_none());
    assert_eq!(iter.status(), Err(Utf8Error::UnexpectedEndOfBuffer));
}

#[test]
fn marked_strings_respect_boundaries() {
    let mut iter = decode_utf8(&[0x20, 0x20, 0x80, 0x20, 0x20]);

    let start = iter.mark();
    assert_eq!(iter.try_get_marked_string(start).unwrap(), "");

    iter.next_char();
    iter.next_char();
    assert_eq!(iter.try_get_marked_string(start).unwrap(), "  ");

    let before_error = iter.mark();
    assert_eq!(iter.try_get_marked_string(before_error).unwrap(), "");

    assert!(iter.next_char().is_none());
    let after_error = iter.mark();
    assert_eq!(iter.try_get_marked_string(after_error).unwrap(), "");

    assert!(iter.try_get_marked_string(start).is_err());
    assert!(iter.try_get_marked_string(before_error).is_err());

    iter.next_char();
    iter.next_char();
    let end = iter.mark();
    assert_eq!(iter.try_get_marked_string(end).unwrap(), "");
    assert_eq!(iter.try_get_marked_string(after_error).unwrap(), "  ");

    assert!(iter.try_get_marked_string(start).is_err());
    assert!(iter.try_get_marked_string(before_error).is_err());
}

#[test]
fn marked_string_holds_multibyte_text() {
    let text = "añ€𝄞";
    let mut iter = decode_utf8(text.as_bytes());
    iter.next_char();
    let mark = iter.mark();
    while iter.next_char().is_some() {}
    assert_eq!(iter.try_get_marked_string(mark).unwrap(), "ñ€𝄞");
    assert_eq!(iter.try_get_marked_string(mark).unwrap().len(), 9);
}

#[test]
fn categorizes_beyond_ascii_through_tables() {
    // bit positions: Ll = 1, Lu = 0, Nd = 8, So = 21
    let mut trie = Trie::new();
    trie.insert('é', 1);
    trie.insert('Ж', 0);
    trie.insert('٣', 8);
    trie.insert('☃', 21);
    trie.insert('a', 20);
    let cats = trie.build();
    let mut iter = decode_utf8("éЖ٣☃a".as_bytes());
    assert_eq!(iter.next_char_and_category(&cats), Some(('é', LOWERCASE_LETTER)));
    assert_eq!(iter.next_char_and_category(&cats), Some(('Ж', UPPERCASE_LETTER)));
    assert_eq!(iter.next_char_and_category(&cats), Some(('٣', DECIMAL_NUMBER)));
    assert_eq!(iter.next_char_and_category(&cats), Some(('☃', OTHER_SYMBOL)));
    // ASCII reads the direct table, not the trie
    assert_eq!(iter.next_char_and_category(&cats), Some(('a', LOWERCASE_LETTER)));
    assert!(iter.next_char_and_category(&cats).is_none());
}
