use utf8_props::ucd::{parse_entry, parse_hex, split2, trim, EntryError};

#[test]
fn splits_at_first_separator() {
    assert_eq!(split2(b"a;b;c", b";"), Some((&b"a"[..], &b"b;c"[..])));
    assert_eq!(split2(b"0041..005A", b".."), Some((&b"0041"[..], &b"005A"[..])));
    assert_eq!(split2(b"0041", b".."), None);
    assert_eq!(split2(b"abc", b""), Some((&b""[..], &b"abc"[..])));
    assert_eq!(split2(b"", b";"), None);
}

#[test]
fn trims_white_space() {
    assert_eq!(trim(b"  Lu \t"), b"Lu");
    assert_eq!(trim(b"   "), b"");
    assert_eq!(trim(b"x"), b"x");
}

#[test]
fn parses_hex() {
    assert_eq!(parse_hex(b"0041"), Some(0x41));
    assert_eq!(parse_hex(b"10FFFF"), Some(0x10FFFF));
    assert_eq!(parse_hex(b"ffffffff"), Some(u32::MAX));
    assert_eq!(parse_hex(b"+1F"), Some(0x1F));
    assert_eq!(parse_hex(b"100000000"), None);
    assert_eq!(parse_hex(b""), None);
    assert_eq!(parse_hex(b"+"), None);
    assert_eq!(parse_hex(b"12G"), None);
}

#[test]
fn parses_data_lines() {
    assert_eq!(
        parse_entry(b"0041..005A    ; Lu # L&  [26] LATIN CAPITAL LETTER A..Z"),
        Ok(Some((0x41, 0x5A, &b"Lu"[..])))
    );
    assert_eq!(
        parse_entry(b"00AA          ; Latin # Lo       FEMININE ORDINAL INDICATOR"),
        Ok(Some((0xAA, 0xAA, &b"Latin"[..])))
    );
    assert_eq!(parse_entry(b"# Scripts-11.0.0.txt"), Ok(None));
    assert_eq!(parse_entry(b"   "), Ok(None));
    assert_eq!(parse_entry(b""), Ok(None));
    assert_eq!(parse_entry(b"0041 Lu"), Err(EntryError::MissingSeparator));
    assert_eq!(parse_entry(b"00ZZ ; Lu"), Err(EntryError::BadCodepoint));
    assert_eq!(parse_entry(b"0041.. ; Lu"), Err(EntryError::BadCodepoint));
}
