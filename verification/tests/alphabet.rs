use base64::alphabet::{pad_text, symbol_text};
use base64::{join_group, split_group, ReverseTable, ALPHABET, PAD};

#[test]
fn alphabet_holds_64_symbols_in_order() {
    let symbols: Vec<char> = ALPHABET.chars().collect();
    assert_eq!(symbols.len(), 64);
    for v in 0..26u8 {
        assert_eq!(symbols[v as usize], (b'A' + v) as char);
        assert_eq!(symbols[26 + v as usize], (b'a' + v) as char);
    }
    for v in 0..10u8 {
        assert_eq!(symbols[52 + v as usize], (b'0' + v) as char);
    }
    assert_eq!(symbols[62], '+');
    assert_eq!(symbols[63], '/');
}

#[test]
fn alphabet_symbols_are_distinct_and_printable() {
    let symbols: Vec<char> = ALPHABET.chars().collect();
    for i in 0..symbols.len() {
        assert!(symbols[i].is_ascii_graphic());
        for j in 0..i {
            assert_ne!(symbols[i], symbols[j]);
        }
    }
}

#[test]
fn padding_marker_is_no_symbol() {
    assert_eq!(PAD, '=');
    assert!(!ALPHABET.contains(PAD));
    assert_eq!(pad_text(), "=");
    assert_eq!(pad_text(), PAD.to_string());
}

#[test]
fn symbol_text_gives_the_symbol_of_a_value() {
    assert_eq!(symbol_text(0), "A");
    assert_eq!(symbol_text(25), "Z");
    assert_eq!(symbol_text(26), "a");
    assert_eq!(symbol_text(51), "z");
    assert_eq!(symbol_text(52), "0");
    assert_eq!(symbol_text(61), "9");
    assert_eq!(symbol_text(62), "+");
    assert_eq!(symbol_text(63), "/");
}

#[test]
fn reverse_table_inverts_the_alphabet() {
    let table = ReverseTable::new();
    for (v, c) in ALPHABET.chars().enumerate() {
        assert_eq!(table.lookup(c) as usize, v);
        assert_eq!(symbol_text(table.lookup(c)), c.to_string());
    }
}

#[test]
fn reverse_table_exact_entries() {
    let table = ReverseTable::new();
    assert_eq!(table.lookup('A'), 0);
    assert_eq!(table.lookup('Z'), 25);
    assert_eq!(table.lookup('a'), 26);
    assert_eq!(table.lookup('z'), 51);
    assert_eq!(table.lookup('0'), 52);
    assert_eq!(table.lookup('9'), 61);
    assert_eq!(table.lookup('+'), 62);
    assert_eq!(table.lookup('/'), 63);
}

#[test]
fn reverse_table_is_zero_outside_the_alphabet() {
    let table = ReverseTable::new();
    assert_eq!(table.lookup(PAD), 0);
    let mut nonzero = 0;
    for code in 0u32..=0x10FFFF {
        if let Some(c) = char::from_u32(code) {
            let value = table.lookup(c);
            assert!(value < 64);
            if !ALPHABET.contains(c) {
                assert_eq!(value, 0);
            }
            if value != 0 {
                nonzero += 1;
            }
        }
    }
    assert_eq!(nonzero, 63);
}

#[test]
fn split_group_exact_fields() {
    // "Man" = 0x4D 0x61 0x6E = 010011 010110 000101 101110.
    assert_eq!(split_group(b'M', b'a', b'n'), (19, 22, 5, 46));
    assert_eq!(split_group(0, 0, 0), (0, 0, 0, 0));
    assert_eq!(split_group(0xFF, 0xFF, 0xFF), (63, 63, 63, 63));
    assert_eq!(split_group(0xFC, 0, 0), (63, 0, 0, 0));
    assert_eq!(split_group(0x03, 0xF0, 0), (0, 63, 0, 0));
    assert_eq!(split_group(0, 0x0F, 0xC0), (0, 0, 63, 0));
    assert_eq!(split_group(0, 0, 0x3F), (0, 0, 0, 63));
}

#[test]
fn join_group_exact_bytes() {
    assert_eq!(join_group(19, 22, 5, 46), (b'M', b'a', b'n'));
    assert_eq!(join_group(0, 0, 0, 0), (0, 0, 0));
    assert_eq!(join_group(63, 63, 63, 63), (0xFF, 0xFF, 0xFF));
    assert_eq!(join_group(63, 0, 0, 0), (0xFC, 0, 0));
    assert_eq!(join_group(0, 63, 0, 0), (0x03, 0xF0, 0));
    assert_eq!(join_group(0, 0, 63, 0), (0, 0x0F, 0xC0));
    assert_eq!(join_group(0, 0, 0, 63), (0, 0, 0x3F));
}

#[test]
fn join_group_inverts_split_group() {
    for b0 in (0u16..256).step_by(5) {
        for b1 in (0u16..256).step_by(7) {
            for b2 in (0u16..256).step_by(3) {
                let f = split_group(b0 as u8, b1 as u8, b2 as u8);
                assert!(f.0 < 64 && f.1 < 64 && f.2 < 64 && f.3 < 64);
                assert_eq!(join_group(f.0, f.1, f.2, f.3), (b0 as u8, b1 as u8, b2 as u8));
            }
        }
    }
}

#[test]
fn split_group_inverts_join_group() {
    for s0 in 0u8..64 {
        for s1 in (0u8..64).step_by(3) {
            for s2 in (0u8..64).step_by(5) {
                for s3 in (0u8..64).step_by(7) {
                    let b = join_group(s0, s1, s2, s3);
                    assert_eq!(split_group(b.0, b.1, b.2), (s0, s1, s2, s3));
                }
            }
        }
    }
}
