use base64::{decode, decode_with, encode, strip_whitespace, PaddingPolicy};

fn chars(text: &str) -> Vec<char> {
    text.chars().collect()
}

#[test]
fn encode_empty_input_gives_empty_text() {
    assert_eq!(encode(Vec::new()), "");
}

#[test]
fn encode_man() {
    assert_eq!(encode(vec![b'M', b'a', b'n']), "TWFu");
}

#[test]
fn encode_single_zero_byte() {
    assert_eq!(encode(vec![0x00]), "AA==");
}

#[test]
fn encode_two_zero_bytes() {
    assert_eq!(encode(vec![0x00, 0x00]), "AAA=");
}

#[test]
fn decode_twfu() {
    assert_eq!(decode(chars("TWFu")), b"Man".to_vec());
}

#[test]
fn decode_of_text_with_spaces_and_newlines() {
    let stripped = strip_whitespace(chars("TW Fu\n"));
    assert_eq!(stripped, chars("TWFu"));
    assert_eq!(decode(stripped), b"Man".to_vec());
}

#[test]
fn decode_empty_text_gives_no_bytes() {
    assert_eq!(decode(Vec::new()), Vec::<u8>::new());
    assert_eq!(decode_with(Vec::new(), PaddingPolicy::Strip), Vec::<u8>::new());
}

#[test]
fn encode_standard_vectors() {
    assert_eq!(encode(b"f".to_vec()), "Zg==");
    assert_eq!(encode(b"fo".to_vec()), "Zm8=");
    assert_eq!(encode(b"foo".to_vec()), "Zm9v");
    assert_eq!(encode(b"foob".to_vec()), "Zm9vYg==");
    assert_eq!(encode(b"fooba".to_vec()), "Zm9vYmE=");
    assert_eq!(encode(b"foobar".to_vec()), "Zm9vYmFy");
}

#[test]
fn decode_standard_vectors_with_padding_stripped() {
    let strip = PaddingPolicy::Strip;
    assert_eq!(decode_with(chars("Zg=="), strip), b"f".to_vec());
    assert_eq!(decode_with(chars("Zm8="), strip), b"fo".to_vec());
    assert_eq!(decode_with(chars("Zm9v"), strip), b"foo".to_vec());
    assert_eq!(decode_with(chars("Zm9vYg=="), strip), b"foob".to_vec());
    assert_eq!(decode_with(chars("Zm9vYmE="), strip), b"fooba".to_vec());
    assert_eq!(decode_with(chars("Zm9vYmFy"), strip), b"foobar".to_vec());
}

#[test]
fn encode_uses_the_last_symbols_of_the_alphabet() {
    assert_eq!(encode(vec![0xFF, 0xFF, 0xFF]), "////");
    assert_eq!(encode(vec![0xFB, 0xEF, 0xBE]), "++++");
    assert_eq!(encode(vec![0xFB, 0xFF]), "+/8=");
    assert_eq!(encode(vec![0xFF]), "/w==");
}

#[test]
fn encode_a_sentence() {
    let text = encode(b"Many hands make light work.".to_vec());
    assert_eq!(text, "TWFueSBoYW5kcyBtYWtlIGxpZ2h0IHdvcmsu");
    assert_eq!(decode(chars(&text)), b"Many hands make light work.".to_vec());
}

#[test]
fn encode_last_group_of_two_bytes() {
    // 'M' = 0x4D, 'a' = 0x61: fields 19, 22 and (0x61 & 0x0F) << 2 = 4.
    assert_eq!(encode(vec![b'M', b'a']), "TWE=");
}

#[test]
fn encode_last_group_of_one_byte() {
    // 'M' = 0x4D: fields 19 and (0x4D & 0x03) << 4 = 16.
    assert_eq!(encode(vec![b'M']), "TQ==");
}
