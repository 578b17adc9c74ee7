use utf8_props::decode_utf8::decode_utf8;
use utf8_props::tables::{get_int_type, max_value, IntWidth};
use utf8_props::trie::Trie;

fn utf8_of(c: char) -> Vec<u8> {
    let mut buf = [0u8; 4];
    c.encode_utf8(&mut buf).as_bytes().to_vec()
}

#[test]
fn trie_round_trip() {
    let mut trie = Trie::new();
    let entries = [('A', 1u64), ('é', 2), ('€', 3), ('𝄞', 4), ('\u{10FFFF}', 5), ('z', 6)];
    for (c, v) in entries.iter() {
        trie.insert(*c, *v);
    }
    trie.insert('q', 0);
    let tables = trie.build();
    for (c, v) in entries.iter() {
        assert_eq!(tables.lookup(&utf8_of(*c)), *v);
    }
    for c in ['q', 'B', 'è', '₭', '𝄟', '\u{800}', '\u{7FF}'].iter() {
        assert_eq!(tables.lookup(&utf8_of(*c)), 0);
    }
}

#[test]
fn inserting_zero_changes_nothing() {
    let mut trie = Trie::new();
    trie.insert('é', 9);
    trie.insert('é', 0);
    let tables = trie.build();
    assert_eq!(tables.lookup(&utf8_of('é')), 9);
}

#[test]
fn later_insert_replaces_value() {
    let mut trie = Trie::new();
    trie.insert('ж', 3);
    trie.insert('ж', 7);
    let tables = trie.build();
    assert_eq!(tables.lookup(&utf8_of('ж')), 7);
}

#[test]
fn empty_trie_tables_layout() {
    let tables = Trie::new().build();
    assert_eq!(tables.values.len(), 3 * 64);
    assert_eq!(tables.index.len(), 4 * 64);
    assert!(tables.values.iter().all(|&v| v == 0));
    assert!(tables.index.iter().all(|&v| v == 0));
    assert_eq!(tables.value_type, IntWidth::U8);
    assert_eq!(tables.index_type, IntWidth::U8);
}

#[test]
fn trie_block_sharing() {
    let mut trie = Trie::new();
    for cp in 0x400u32..0x440 {
        trie.insert(char::from_u32(cp).unwrap(), (cp % 7 + 1) as u64);
    }
    for cp in 0x500u32..0x540 {
        trie.insert(char::from_u32(cp).unwrap(), ((cp - 0x100) % 7 + 1) as u64);
    }
    for cp in 0x580u32..0x5C0 {
        trie.insert(char::from_u32(cp).unwrap(), 1);
    }
    let tables = trie.build();
    // lead bytes 0xD0, 0xD4 and 0xD6 start the three ranges
    assert_eq!(tables.index[0xD0], tables.index[0xD4]);
    assert_ne!(tables.index[0xD0], tables.index[0xD6]);
    // ASCII and zero block, then two distinct leaf blocks
    assert_eq!(tables.values.len(), 5 * 64);
}

#[test]
fn shared_three_byte_blocks() {
    let mut trie = Trie::new();
    for cp in 0x3040u32..0x3080 {
        trie.insert(char::from_u32(cp).unwrap(), 5);
    }
    for cp in 0xA040u32..0xA080 {
        trie.insert(char::from_u32(cp).unwrap(), 5);
    }
    let tables = trie.build();
    let block_of = |lead: usize, second: usize| {
        let i = tables.index[lead] as usize;
        tables.index[i * 64 + second] as usize
    };
    assert_eq!(block_of(0xE3, 0x81), block_of(0xEA, 0x81));
    assert_ne!(block_of(0xE3, 0x81), 0);
    assert_eq!(tables.lookup(&utf8_of('\u{3041}')), 5);
    assert_eq!(tables.lookup(&utf8_of('\u{A07F}')), 5);
    assert_eq!(tables.lookup(&utf8_of('\u{A080}')), 0);
}

#[test]
fn value_width_is_the_narrowest() {
    assert_eq!(get_int_type(0), IntWidth::U8);
    assert_eq!(get_int_type(255), IntWidth::U8);
    assert_eq!(get_int_type(256), IntWidth::U16);
    assert_eq!(get_int_type(65535), IntWidth::U16);
    assert_eq!(get_int_type(65536), IntWidth::U32);
    assert_eq!(get_int_type(u32::MAX as u64), IntWidth::U32);
    assert_eq!(get_int_type(1 << 32), IntWidth::U64);
    let mut trie = Trie::new();
    trie.insert('✓', 300);
    assert_eq!(trie.build().value_type, IntWidth::U16);
}

#[test]
fn max_value_of_values() {
    assert_eq!(max_value(&vec![]), 0);
    assert_eq!(max_value(&vec![3, 9, 2]), 9);
    assert_eq!(max_value(&vec![0, 0]), 0);
}

#[test]
fn decoder_reads_values_from_tables() {
    let mut trie = Trie::new();
    trie.insert('a', 1);
    trie.insert('λ', 2);
    trie.insert('中', 3);
    let tables = trie.build();
    let text = "aλ中b";
    let mut iter = decode_utf8(text.as_bytes());
    assert_eq!(iter.next_char_and_value(&tables), Some(('a', 1)));
    assert_eq!(iter.next_char_and_value(&tables), Some(('λ', 2)));
    assert_eq!(iter.next_char_and_value(&tables), Some(('中', 3)));
    assert_eq!(iter.next_char_and_value(&tables), Some(('b', 0)));
    assert_eq!(iter.next_char_and_value(&tables), None);
    let mut bad = decode_utf8(&[0xED, 0xA0, 0x80]);
    assert_eq!(bad.next_char_and_value(&tables), None);
    assert!(bad.status().is_err());
}

#[test]
fn tables_text_layout() {
    let mut trie = Trie::new();
    trie.insert('A', 7);
    let text = trie.write_tables("CAT");
    let mut expected = String::from("pub const CAT_VALUES: &[u8] = &[\n");
    let mut values = vec![0u64; 3 * 64];
    values[0x41] = 7;
    let mut w = 0;
    for v in values.iter() {
        let s = format!("{},", v);
        if w + s.len() > 100 {
            w = 0;
            expected.push('\n');
        }
        w += s.len();
        expected.push_str(&s);
    }
    expected.push_str("\n];\n\npub const CAT_INDEX: &[u8] = &[\n");
    let mut w = 0;
    for _ in 0..4 * 64 {
        let s = "0,";
        if w + s.len() > 100 {
            w = 0;
            expected.push('\n');
        }
        w += s.len();
        expected.push_str(s);
    }
    expected.push_str("\n];\n");
    assert_eq!(text, expected);
}

#[test]
fn tables_text_numbers() {
    let mut trie = Trie::new();
    trie.insert('é', 123456);
    let text = trie.write_tables("X");
    assert!(text.starts_with("pub const X_VALUES: &[u32] = &[\n0,0,"));
    assert!(text.contains("123456,"));
    assert!(text.contains("pub const X_INDEX: &[u8] = &[\n"));
    assert!(text.ends_with(",\n];\n"));
    assert!(text.lines().all(|l| l.len() <= 100));
}

#[test]
fn insert_range_skips_surrogates() {
    let mut trie = Trie::new();
    trie.insert_range(0xD7FE, 0xE001, 4);
    let tables = trie.build();
    assert_eq!(tables.lookup(&utf8_of('\u{D7FE}')), 4);
    assert_eq!(tables.lookup(&utf8_of('\u{D7FF}')), 4);
    assert_eq!(tables.lookup(&utf8_of('\u{E000}')), 4);
    assert_eq!(tables.lookup(&utf8_of('\u{E001}')), 4);
    assert_eq!(tables.lookup(&utf8_of('\u{E002}')), 0);
    assert_eq!(tables.lookup(&utf8_of('\u{D7FD}')), 0);
}

#[test]
fn insert_range_single_and_empty() {
    let mut trie = Trie::new();
    trie.insert_range(0x41, 0x41, 2);
    trie.insert_range(0x50, 0x4F, 3);
    let tables = trie.build();
    assert_eq!(tables.lookup(b"A"), 2);
    assert_eq!(tables.lookup(b"B"), 0);
    assert_eq!(tables.lookup(b"O"), 0);
    assert_eq!(tables.lookup(b"P"), 0);
}

#[test]
fn tables_layout_and_sharing_of_interior_blocks() {
    let mut trie = Trie::new();
    // two 4096-codepoint ranges under different 3-byte lead bytes, assigned alike
    for cp in 0x1000u32..0x2000 {
        trie.insert(char::from_u32(cp).unwrap(), ((cp & 0xFFF) % 5 + 1) as u64);
    }
    for cp in 0x5000u32..0x6000 {
        trie.insert(char::from_u32(cp).unwrap(), ((cp & 0xFFF) % 5 + 1) as u64);
    }
    let tables = trie.build();
    assert_eq!(tables.index.len() % 64, 0);
    assert_eq!(tables.values.len() % 64, 0);
    assert!(tables.index[..192].iter().all(|&v| v == 0));
    assert!(tables.values[128..192].iter().all(|&v| v == 0));
    // lead bytes 0xE1 and 0xE5 reach the same interior block
    assert_eq!(tables.index[0xE1], tables.index[0xE5]);
    assert_ne!(tables.index[0xE1], 0);
    // an untouched lead byte reaches the zero block
    assert_eq!(tables.index[0xE9], 0);
    // value blocks from 2 on are pairwise distinct
    let blocks: Vec<&[u64]> = tables.values.chunks(64).skip(2).collect();
    for a in 0..blocks.len() {
        for b in a + 1..blocks.len() {
            assert_ne!(blocks[a], blocks[b]);
        }
    }
}

#[test]
fn index_width_follows_largest_slot() {
    let mut trie = Trie::new();
    for cp in 0x100u32..0x800 {
        trie.insert(char::from_u32(cp).unwrap(), (cp % 251) as u64 + 1);
    }
    let tables = trie.build();
    let largest = *tables.index.iter().max().unwrap();
    assert_eq!(tables.index_type, get_int_type(largest));
    assert_eq!(tables.value_type, IntWidth::U8);
}
