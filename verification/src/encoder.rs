//! The encoder: from bytes to text over the alphabet and the padding marker.

use crate::alphabet::{
    is_symbol, lemma_pad_is_no_symbol, lemma_sextet_of_symbol, pad_text, symbol, symbol_text, PAD,
};
use crate::group::{field, lemma_fields_rebuild, lemma_octets_of_triple, split_group, triple_value};
use vstd::prelude::*;
use vstd::string::*;

verus! {

/// The byte at index `i`, and 0 past the end: a last group of one or two
/// bytes is encoded as if zero bytes filled it up.
pub open spec fn byte_at(bytes: Seq<u8>, i: int) -> int {
    if 0 <= i < bytes.len() {
        bytes[i] as int
    } else {
        0
    }
}

/// The 24-bit number that the three bytes of group `g` spell.
pub open spec fn byte_group_value(bytes: Seq<u8>, g: int) -> int {
    triple_value(byte_at(bytes, 3 * g), byte_at(bytes, 3 * g + 1), byte_at(bytes, 3 * g + 2))
}

/// The length of the encoding of `n` bytes: four characters for every group
/// of three bytes, the last group counted whole.
pub open spec fn encoded_len(n: nat) -> nat {
    4 * ((n + 2) / 3)
}

/// The number of padding markers that end the encoding of `n` bytes.
pub open spec fn padding_len(n: nat) -> nat {
    ((3 - n % 3) % 3) as nat
}

/// The character at index `i` of the encoding of `bytes`: the character at
/// position `k` of group `g`. Field `k` of a group starts at bit `6 * k`, and
/// a group holds eight bits for each of its bytes. A field that starts within
/// them gives its symbol; one that starts past them gives the padding marker.
pub open spec fn encoded_char(bytes: Seq<u8>, i: int) -> char {
    let g = i / 4;
    let k = i % 4;
    if 6 * k < 8 * (bytes.len() - 3 * g) {
        symbol(field(byte_group_value(bytes, g), k))
    } else {
        PAD
    }
}

/// The encoding of `bytes`.
pub open spec fn encoded(bytes: Seq<u8>) -> Seq<char> {
    Seq::new(encoded_len(bytes.len()), |i: int| encoded_char(bytes, i))
}

/// The four characters of group `g`, for a group that holds a byte.
pub proof fn lemma_encoded_group(bytes: Seq<u8>, g: int)
    requires
        0 <= g,
        3 * g < bytes.len(),
    ensures
        4 * g + 4 <= encoded(bytes).len(),
        0 <= byte_group_value(bytes, g) < 16777216,
        encoded(bytes)[4 * g] == symbol(field(byte_group_value(bytes, g), 0)),
        encoded(bytes)[4 * g + 1] == symbol(field(byte_group_value(bytes, g), 1)),
        encoded(bytes)[4 * g + 2] == if 3 * g + 1 < bytes.len() {
            symbol(field(byte_group_value(bytes, g), 2))
        } else {
            PAD
        },
        encoded(bytes)[4 * g + 3] == if 3 * g + 2 < bytes.len() {
            symbol(field(byte_group_value(bytes, g), 3))
        } else {
            PAD
        },
{
    lemma_octets_of_triple(
        byte_at(bytes, 3 * g),
        byte_at(bytes, 3 * g + 1),
        byte_at(bytes, 3 * g + 2),
    );
    assert(encoded(bytes)[4 * g] == encoded_char(bytes, 4 * g));
    assert(encoded(bytes)[4 * g + 1] == encoded_char(bytes, 4 * g + 1));
    assert(encoded(bytes)[4 * g + 2] == encoded_char(bytes, 4 * g + 2));
    assert(encoded(bytes)[4 * g + 3] == encoded_char(bytes, 4 * g + 3));
}

/// The shape of an encoding: its length, and that it is made of symbols
/// followed by exactly `padding_len` padding markers.
pub proof fn lemma_encoded_shape(bytes: Seq<u8>)
    ensures
        encoded(bytes).len() == 4 * ((bytes.len() + 2) / 3),
        padding_len(bytes.len()) <= 2,
        padding_len(bytes.len()) <= encoded(bytes).len(),
        forall|i: int|
            0 <= i < encoded(bytes).len() - padding_len(bytes.len()) ==> is_symbol(
                #[trigger] encoded(bytes)[i],
            ) && encoded(bytes)[i] != PAD,
        forall|i: int|
            encoded(bytes).len() - padding_len(bytes.len()) <= i < encoded(bytes).len()
                ==> #[trigger] encoded(bytes)[i] == PAD,
{
    let text = encoded(bytes);
    let pad = padding_len(bytes.len());
    lemma_pad_is_no_symbol();
    assert forall|i: int| 0 <= i < text.len() - pad implies is_symbol(#[trigger] text[i])
        && text[i] != PAD by {
        let g = i / 4;
        let k = i % 4;
        lemma_encoded_group(bytes, g);
        lemma_fields_rebuild(byte_group_value(bytes, g));
        lemma_sextet_of_symbol(field(byte_group_value(bytes, g), k));
    }
    assert forall|i: int| text.len() - pad <= i < text.len() implies #[trigger] text[i] == PAD by {
        let g = i / 4;
        lemma_encoded_group(bytes, g);
    }
}

/// Encodes `bytes`: every group of three bytes becomes four symbols; a last
/// group of two bytes becomes three symbols and one padding marker, a last
/// group of one byte two symbols and two padding markers. Empty input gives
/// an empty text.
pub fn encode(bytes: Vec<u8>) -> (text: String)
    ensures
        text@ == encoded(bytes@),
        text@.len() == 4 * ((bytes@.len() + 2) / 3),
        forall|i: int|
            0 <= i < text@.len() - padding_len(bytes@.len()) ==> is_symbol(#[trigger] text@[i])
                && text@[i] != PAD,
        forall|i: int|
            text@.len() - padding_len(bytes@.len()) <= i < text@.len() ==> #[trigger] text@[i]
                == PAD,
{
    let n: usize = bytes.len();
    let mut text = String::new();
    let mut i: usize = 0;
    let ghost mut g: int = 0;
    while n - i >= 3
        invariant
            n == bytes@.len(),
            i <= n,
            i == 3 * g,
            text@.len() == 4 * g,
            forall|j: int| 0 <= j < 4 * g ==> text@[j] == encoded(bytes@)[j],
        decreases n - i,
    {
        let f: (u8, u8, u8, u8) = split_group(bytes[i], bytes[i + 1], bytes[i + 2]);
        let ghost before = text@;
        text.append(symbol_text(f.0));
        text.append(symbol_text(f.1));
        text.append(symbol_text(f.2));
        text.append(symbol_text(f.3));
        proof {
            lemma_encoded_group(bytes@, g);
            assert(text@ =~= before + seq![
                symbol(f.0 as int),
                symbol(f.1 as int),
                symbol(f.2 as int),
                symbol(f.3 as int),
            ]);
            g = g + 1;
        }
        i += 3;
    }
    if n - i == 2 {
        let f: (u8, u8, u8, u8) = split_group(bytes[i], bytes[i + 1], 0);
        let ghost before = text@;
        text.append(symbol_text(f.0));
        text.append(symbol_text(f.1));
        text.append(symbol_text(f.2));
        text.append(pad_text());
        proof {
            lemma_encoded_group(bytes@, g);
            assert(text@ =~= before + seq![
                symbol(f.0 as int),
                symbol(f.1 as int),
                symbol(f.2 as int),
                PAD,
            ]);
        }
    } else if n - i == 1 {
        let f: (u8, u8, u8, u8) = split_group(bytes[i], 0, 0);
        let ghost before = text@;
        text.append(symbol_text(f.0));
        text.append(symbol_text(f.1));
        text.append(pad_text());
        text.append(pad_text());
        proof {
            lemma_encoded_group(bytes@, g);
            assert(text@ =~= before + seq![symbol(f.0 as int), symbol(f.1 as int), PAD, PAD]);
        }
    }
    proof {
        assert(text@ =~= encoded(bytes@));
        lemma_encoded_shape(bytes@);
    }
    text
}

} // verus!
