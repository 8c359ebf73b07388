use base64::{decode, decode_with, encode, strip_whitespace, PaddingPolicy, ALPHABET, PAD};

fn chars(text: &str) -> Vec<char> {
    text.chars().collect()
}

/// Bytes that depend on `seed` alone.
fn sample(len: usize, seed: u64) -> Vec<u8> {
    let mut state = seed.wrapping_mul(6364136223846793005).wrapping_add(1442695040888963407);
    let mut bytes = Vec::with_capacity(len);
    for _ in 0..len {
        state = state.wrapping_mul(6364136223846793005).wrapping_add(1442695040888963407);
        bytes.push((state >> 33) as u8);
    }
    bytes
}

fn padding_of(len: usize) -> usize {
    (3 - len % 3) % 3
}

#[test]
fn round_trip_of_whole_groups() {
    for groups in 0usize..40 {
        let bytes = sample(3 * groups, groups as u64);
        assert_eq!(decode(chars(&encode(bytes.clone()))), bytes);
    }
}

#[test]
fn round_trip_with_padding_stripped() {
    for len in 0usize..130 {
        for seed in 0u64..4 {
            let bytes = sample(len, 1000 * seed + len as u64);
            let text = encode(bytes.clone());
            assert_eq!(decode_with(chars(&text), PaddingPolicy::Strip), bytes);
        }
    }
}

#[test]
fn round_trip_of_every_byte_value() {
    let bytes: Vec<u8> = (0u8..=255).collect();
    assert_eq!(decode_with(chars(&encode(bytes.clone())), PaddingPolicy::Strip), bytes);
    for b in 0u8..=255 {
        assert_eq!(decode_with(chars(&encode(vec![b])), PaddingPolicy::Strip), vec![b]);
        assert_eq!(decode(chars(&encode(vec![b, b, b]))), vec![b, b, b]);
    }
}

#[test]
fn decoding_an_encoding_appends_a_zero_for_each_padding_marker() {
    for len in 0usize..100 {
        let bytes = sample(len, 77 + len as u64);
        let mut expected = bytes.clone();
        for _ in 0..padding_of(len) {
            expected.push(0);
        }
        assert_eq!(decode(chars(&encode(bytes))), expected);
    }
    assert_eq!(decode(chars(&encode(vec![0x00]))), vec![0, 0, 0]);
    assert_eq!(decode(chars(&encode(vec![b'M', b'a']))), vec![b'M', b'a', 0]);
}

#[test]
fn encoded_length_is_four_for_every_three_bytes() {
    let expected = [0usize, 4, 4, 4, 8, 8, 8, 12, 12, 12, 16];
    for (len, want) in expected.iter().enumerate() {
        assert_eq!(encode(sample(len, 5)).chars().count(), *want);
    }
    for len in 0usize..300 {
        assert_eq!(encode(sample(len, 9)).len(), 4 * ((len + 2) / 3));
    }
}

#[test]
fn encoding_is_made_of_symbols_and_padding_markers() {
    for len in 0usize..100 {
        for c in encode(sample(len, 31 * len as u64)).chars() {
            assert!(ALPHABET.contains(c) || c == PAD);
        }
    }
}

#[test]
fn encoding_ends_with_the_padding_markers_and_holds_no_other() {
    for len in 0usize..100 {
        let text = chars(&encode(sample(len, 3 + len as u64)));
        let pad = padding_of(len);
        let symbols = text.len() - pad;
        for (i, c) in text.iter().enumerate() {
            if i < symbols {
                assert!(ALPHABET.contains(*c));
                assert_ne!(*c, PAD);
            } else {
                assert_eq!(*c, PAD);
            }
        }
    }
    assert!(encode(vec![1, 2, 3]).ends_with('D'));
    assert!(encode(vec![1, 2]).ends_with("I="));
    assert!(encode(vec![1]).ends_with("Q=="));
}

#[test]
fn padding_count_by_length() {
    let count = |len: usize| encode(sample(len, 1)).chars().filter(|c| *c == PAD).count();
    assert_eq!(count(0), 0);
    assert_eq!(count(1), 2);
    assert_eq!(count(2), 1);
    assert_eq!(count(3), 0);
    assert_eq!(count(4), 2);
    assert_eq!(count(5), 1);
    assert_eq!(count(6), 0);
}

#[test]
fn whitespace_between_characters_does_not_change_the_bytes() {
    let bytes = sample(50, 11);
    let text = encode(bytes.clone());
    let gaps = [" ", "", "\n", "\r\n", "\t \t", "\u{A0}", "\u{2003}\u{3000}", "\u{85}"];
    let mut spaced = String::new();
    for (i, c) in text.chars().enumerate() {
        spaced.push_str(gaps[i % gaps.len()]);
        spaced.push(c);
    }
    spaced.push_str("\n\n");
    let stripped = strip_whitespace(chars(&spaced));
    assert_eq!(stripped, chars(&text));
    assert_eq!(decode(stripped.clone()), decode(chars(&text)));
    assert_eq!(decode_with(stripped, PaddingPolicy::Strip), bytes);
}

#[test]
fn stripping_twice_is_stripping_once() {
    for text in ["", " ", "TW Fu\n", "a b  c\t\td", "\u{2028}x\u{2029}", "no-whitespace"] {
        let once = strip_whitespace(chars(text));
        assert_eq!(strip_whitespace(once.clone()), once);
    }
}
