//! What holds of the encoder, the decoder and the whitespace filter together.

use crate::alphabet::{is_symbol, lemma_pad_is_no_symbol, lemma_sextet_of_symbol, sextet, PAD};
use crate::decoder::{
    char_group_value, decoded, decoded_byte, decoded_with, lemma_without_trailing_padding,
    sextet_at, without_trailing_padding, PaddingPolicy,
};
use crate::encoder::{
    byte_at, byte_group_value, encoded, lemma_encoded_group, lemma_encoded_shape, padding_len,
};
use crate::group::{
    field, lemma_fields_of_triple, lemma_fields_rebuild, lemma_octets_of_triple, octet,
};
use crate::whitespace::{
    is_free_of_whitespace, is_not_whitespace, is_whitespace, lemma_all_stripped,
    lemma_nothing_to_strip, lemma_stripped_is_free, lemma_symbols_are_no_whitespace,
    without_whitespace,
};
use vstd::prelude::*;

verus! {

/// A text made of symbols and padding markers only.
pub open spec fn is_base64_text(text: Seq<char>) -> bool {
    forall|i: int| 0 <= i < text.len() ==> is_symbol(#[trigger] text[i]) || text[i] == PAD
}

/// `count` zero bytes.
pub open spec fn zeros(count: nat) -> Seq<u8> {
    Seq::new(count, |i: int| 0u8)
}

/// `text` with whitespace between its characters: the run `gaps[i]` stands
/// in front of the character at index `i`, and the last run after the last
/// character.
pub open spec fn interleaved(text: Seq<char>, gaps: Seq<Seq<char>>) -> Seq<char>
    recommends
        gaps.len() == text.len() + 1,
    decreases text.len(),
{
    if text.len() == 0 {
        gaps[0]
    } else {
        interleaved(text.drop_last(), gaps.drop_last()) + seq![text.last()] + gaps.last()
    }
}

/// Each character of an encoding stands for the field it was made from: a
/// padding marker stands for 0, and so does the field in its place, which
/// holds none of the bytes.
proof fn lemma_encoded_sextets(bytes: Seq<u8>, g: int)
    requires
        0 <= g,
        3 * g < bytes.len(),
    ensures
        4 * g + 4 <= encoded(bytes).len(),
        0 <= byte_group_value(bytes, g) < 16777216,
        forall|k: int|
            0 <= k < 4 ==> sextet(#[trigger] encoded(bytes)[4 * g + k]) == field(
                byte_group_value(bytes, g),
                k,
            ),
        char_group_value(encoded(bytes), g) == byte_group_value(bytes, g),
{
    let value = byte_group_value(bytes, g);
    lemma_encoded_group(bytes, g);
    lemma_fields_rebuild(value);
    lemma_fields_of_triple(
        byte_at(bytes, 3 * g),
        byte_at(bytes, 3 * g + 1),
        byte_at(bytes, 3 * g + 2),
    );
    lemma_pad_is_no_symbol();
    lemma_sextet_of_symbol(field(value, 0));
    lemma_sextet_of_symbol(field(value, 1));
    lemma_sextet_of_symbol(field(value, 2));
    lemma_sextet_of_symbol(field(value, 3));
    assert(sextet(encoded(bytes)[4 * g + 0]) == field(value, 0));
    assert(sextet(encoded(bytes)[4 * g + 1]) == field(value, 1));
    assert(sextet(encoded(bytes)[4 * g + 2]) == field(value, 2));
    assert(sextet(encoded(bytes)[4 * g + 3]) == field(value, 3));
}

/// Decoding an encoding gives the bytes back, followed by one zero byte for
/// each padding marker of the encoding.
pub proof fn law_decoding_an_encoding(bytes: Seq<u8>)
    ensures
        decoded(encoded(bytes)) == bytes + zeros(padding_len(bytes.len())),
{
    let text = encoded(bytes);
    let back = decoded(text);
    let wanted = bytes + zeros(padding_len(bytes.len()));
    assert(back.len() == wanted.len());
    assert forall|j: int| 0 <= j < back.len() implies back[j] == wanted[j] by {
        let g = j / 3;
        let k = j % 3;
        lemma_encoded_sextets(bytes, g);
        lemma_octets_of_triple(
            byte_at(bytes, 3 * g),
            byte_at(bytes, 3 * g + 1),
            byte_at(bytes, 3 * g + 2),
        );
        assert(back[j] == decoded_byte(text, j));
        assert(octet(byte_group_value(bytes, g), k) == byte_at(bytes, j));
    }
    assert(back =~= wanted);
}

/// Decoding inverts encoding on every input of whole groups: where the
/// number of bytes is a multiple of three, decoding the encoding gives the
/// bytes back.
pub proof fn law_round_trip_of_whole_groups(bytes: Seq<u8>)
    requires
        bytes.len() % 3 == 0,
    ensures
        decoded(encoded(bytes)) == bytes,
{
    law_decoding_an_encoding(bytes);
    assert(bytes + zeros(0) =~= bytes);
}

/// The padding markers that end an encoding are all of its padding markers:
/// stripping them leaves the symbols.
pub proof fn lemma_encoding_without_padding(bytes: Seq<u8>)
    ensures
        padding_len(bytes.len()) <= encoded(bytes).len(),
        without_trailing_padding(encoded(bytes)) == encoded(bytes).take(
            encoded(bytes).len() - padding_len(bytes.len()),
        ),
{
    let text = encoded(bytes);
    let kept = without_trailing_padding(text);
    let symbols = text.len() - padding_len(bytes.len());
    lemma_encoded_shape(bytes);
    lemma_without_trailing_padding(text);
    lemma_pad_is_no_symbol();
    if kept.len() < symbols {
        assert(is_symbol(text[kept.len() as int]));
        assert(text[kept.len() as int] == PAD);
    }
    if kept.len() > symbols {
        assert(kept.last() == text[kept.len() - 1]);
        assert(text[kept.len() - 1] == PAD);
    }
}

/// Decoding inverts encoding on every input once the padding markers are
/// stripped: under `PaddingPolicy::Strip`, decoding the encoding of any
/// bytes gives the bytes back.
pub proof fn law_round_trip_with_padding_stripped(bytes: Seq<u8>)
    ensures
        decoded_with(encoded(bytes), PaddingPolicy::Strip) == bytes,
{
    let text = encoded(bytes);
    let kept = without_trailing_padding(text);
    lemma_encoding_without_padding(bytes);
    lemma_encoded_shape(bytes);
    lemma_pad_is_no_symbol();
    let back = decoded(kept);
    assert(back.len() == bytes.len());
    assert forall|j: int| 0 <= j < back.len() implies back[j] == bytes[j] by {
        let g = j / 3;
        let k = j % 3;
        lemma_encoded_sextets(bytes, g);
        lemma_octets_of_triple(
            byte_at(bytes, 3 * g),
            byte_at(bytes, 3 * g + 1),
            byte_at(bytes, 3 * g + 2),
        );
        assert forall|i: int| 4 * g <= i < 4 * g + 4 implies sextet_at(kept, i) == sextet_at(
            text,
            i,
        ) by {
            if i < kept.len() {
                assert(kept[i] == text[i]);
            } else {
                assert(text[i] == PAD);
            }
        }
        assert(char_group_value(kept, g) == char_group_value(text, g));
        assert(back[j] == decoded_byte(kept, j));
        assert(octet(byte_group_value(bytes, g), k) == byte_at(bytes, j));
    }
    assert(back =~= bytes);
}

/// An encoding holds no whitespace, and neither does any other text made of
/// symbols and padding markers.
pub proof fn lemma_base64_text_is_free_of_whitespace(text: Seq<char>)
    requires
        is_base64_text(text),
    ensures
        is_free_of_whitespace(text),
{
    assert forall|i: int| 0 <= i < text.len() implies !is_whitespace(#[trigger] text[i]) by {
        lemma_symbols_are_no_whitespace(text[i]);
    }
}

/// Stripping whitespace twice is stripping it once.
pub proof fn law_stripping_is_idempotent(chars: Seq<char>)
    ensures
        without_whitespace(without_whitespace(chars)) == without_whitespace(chars),
{
    lemma_stripped_is_free(chars);
    lemma_nothing_to_strip(without_whitespace(chars));
}

/// Whitespace between the characters of a text does not reach the decoder:
/// the filter takes out exactly what was put in. So for a text of symbols and
/// padding markers, decoding what the filter leaves of the text with
/// whitespace in it gives what decoding the text itself gives.
pub proof fn law_whitespace_is_ignored(text: Seq<char>, gaps: Seq<Seq<char>>)
    requires
        gaps.len() == text.len() + 1,
        forall|i: int, j: int|
            0 <= i < gaps.len() && 0 <= j < gaps[i].len() ==> is_whitespace(
                #[trigger] gaps[i][j],
            ),
    ensures
        without_whitespace(interleaved(text, gaps)) == without_whitespace(text),
        is_base64_text(text) ==> without_whitespace(interleaved(text, gaps)) == text,
        is_base64_text(text) ==> decoded(without_whitespace(interleaved(text, gaps)))
            == decoded(text),
        is_base64_text(text) ==> forall|policy: PaddingPolicy|
            decoded_with(without_whitespace(interleaved(text, gaps)), policy)
                == #[trigger] decoded_with(text, policy),
    decreases text.len(),
{
    let keep = is_not_whitespace();
    if text.len() == 0 {
        lemma_all_stripped(gaps[0]);
        lemma_all_stripped(text);
    } else {
        let front = interleaved(text.drop_last(), gaps.drop_last());
        let last = seq![text.last()];
        assert forall|i: int, j: int|
            0 <= i < gaps.drop_last().len() && 0 <= j < gaps.drop_last()[i].len()
            implies is_whitespace(#[trigger] gaps.drop_last()[i][j]) by {
            assert(gaps.drop_last()[i] == gaps[i]);
        }
        law_whitespace_is_ignored(text.drop_last(), gaps.drop_last());
        lemma_all_stripped(gaps.last());
        Seq::filter_distributes_over_add(front + last, gaps.last(), keep);
        Seq::filter_distributes_over_add(front, last, keep);
        Seq::filter_distributes_over_add(text.drop_last(), last, keep);
        assert(text.drop_last() + last =~= text);
        assert(without_whitespace(text.drop_last()) + without_whitespace(last)
            + Seq::<char>::empty() =~= without_whitespace(text.drop_last()) + without_whitespace(
            last,
        ));
    }
    if is_base64_text(text) {
        lemma_base64_text_is_free_of_whitespace(text);
        lemma_nothing_to_strip(text);
    }
}

} // verus!
