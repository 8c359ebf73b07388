//! The decoder: from text back to bytes.

use crate::alphabet::{lemma_sextet_in_range, sextet, ReverseTable, PAD};
use crate::group::{join_group, lemma_octets_of_quad, octet, quad_value};
use vstd::prelude::*;

verus! {

/// The 6-bit value of the character at index `i`, and 0 past the end: a
/// last group of two or three characters is decoded as if characters of
/// value 0 filled it up.
pub open spec fn sextet_at(chars: Seq<char>, i: int) -> int {
    if 0 <= i < chars.len() {
        sextet(chars[i])
    } else {
        0
    }
}

/// The 24-bit number that the four characters of group `g` spell.
pub open spec fn char_group_value(chars: Seq<char>, g: int) -> int {
    quad_value(
        sextet_at(chars, 4 * g),
        sextet_at(chars, 4 * g + 1),
        sextet_at(chars, 4 * g + 2),
        sextet_at(chars, 4 * g + 3),
    )
}

/// The number of bytes that `n` characters decode to. Each character holds
/// six bits, and every eight of them make a byte: three bytes for every group
/// of four characters, two for a last group of three, one for a last group
/// of two, and none for a single character left over.
pub open spec fn decoded_len(n: nat) -> nat {
    6 * n / 8
}

/// The byte at index `j` of what `chars` decodes to: byte `j % 3` of the
/// number of group `j / 3`.
pub open spec fn decoded_byte(chars: Seq<char>, j: int) -> u8 {
    octet(char_group_value(chars, j / 3), j % 3) as u8
}

/// What `chars` decodes to when every character is taken for the value it
/// stands for. The padding marker is no exception: like every character
/// outside the alphabet it stands for 0, so a group of four characters gives
/// three bytes whatever its characters are.
pub open spec fn decoded(chars: Seq<char>) -> Seq<u8> {
    Seq::new(decoded_len(chars.len()), |j: int| decoded_byte(chars, j))
}

/// `chars` without the padding markers that end it.
pub open spec fn without_trailing_padding(chars: Seq<char>) -> Seq<char>
    decreases chars.len(),
{
    if chars.len() > 0 && chars.last() == PAD {
        without_trailing_padding(chars.drop_last())
    } else {
        chars
    }
}

/// What the decoder does with padding markers.
#[derive(Clone, Copy, Debug, PartialEq, Eq)]
pub enum PaddingPolicy {
    /// A padding marker is decoded like any other character that is no
    /// symbol: as the value 0. A text that ends in padding markers so decodes
    /// to one zero byte more for each of them.
    Keep,
    /// The padding markers that end the text are dropped before it is
    /// decoded, so that the shorter last group gives fewer bytes. Padding
    /// markers elsewhere are decoded as under `Keep`.
    Strip,
}

/// What `chars` decodes to under `policy`.
pub open spec fn decoded_with(chars: Seq<char>, policy: PaddingPolicy) -> Seq<u8> {
    match policy {
        PaddingPolicy::Keep => decoded(chars),
        PaddingPolicy::Strip => decoded(without_trailing_padding(chars)),
    }
}

/// The bytes of group `g`, for a group that holds at least two characters.
pub proof fn lemma_decoded_group(chars: Seq<char>, g: int)
    requires
        0 <= g,
        4 * g + 1 < chars.len(),
    ensures
        3 * g < decoded(chars).len(),
        decoded(chars)[3 * g] as int == octet(char_group_value(chars, g), 0),
        4 * g + 2 < chars.len() ==> {
            &&& 3 * g + 1 < decoded(chars).len()
            &&& decoded(chars)[3 * g + 1] as int == octet(char_group_value(chars, g), 1)
        },
        4 * g + 3 < chars.len() ==> {
            &&& 3 * g + 2 < decoded(chars).len()
            &&& decoded(chars)[3 * g + 2] as int == octet(char_group_value(chars, g), 2)
        },
{
    lemma_sextet_in_range(chars[4 * g]);
    lemma_sextet_in_range(chars[4 * g + 1]);
    if 4 * g + 2 < chars.len() {
        lemma_sextet_in_range(chars[4 * g + 2]);
    }
    if 4 * g + 3 < chars.len() {
        lemma_sextet_in_range(chars[4 * g + 3]);
    }
    lemma_octets_of_quad(
        sextet_at(chars, 4 * g),
        sextet_at(chars, 4 * g + 1),
        sextet_at(chars, 4 * g + 2),
        sextet_at(chars, 4 * g + 3),
    );
    assert(decoded(chars)[3 * g] == decoded_byte(chars, 3 * g));
    if 4 * g + 2 < chars.len() {
        assert(decoded(chars)[3 * g + 1] == decoded_byte(chars, 3 * g + 1));
    }
    if 4 * g + 3 < chars.len() {
        assert(decoded(chars)[3 * g + 2] == decoded_byte(chars, 3 * g + 2));
    }
}

/// Stripping the padding markers that end a text leaves a prefix of it that
/// does not end in one, and takes away nothing but padding markers.
pub proof fn lemma_without_trailing_padding(chars: Seq<char>)
    ensures
        without_trailing_padding(chars).len() <= chars.len(),
        without_trailing_padding(chars) == chars.take(
            without_trailing_padding(chars).len() as int,
        ),
        without_trailing_padding(chars).len() > 0 ==> without_trailing_padding(chars).last()
            != PAD,
        forall|i: int|
            without_trailing_padding(chars).len() <= i < chars.len() ==> #[trigger] chars[i]
                == PAD,
    decreases chars.len(),
{
    if chars.len() > 0 && chars.last() == PAD {
        lemma_without_trailing_padding(chars.drop_last());
        let kept = without_trailing_padding(chars.drop_last());
        assert(kept =~= chars.take(kept.len() as int));
        assert forall|i: int| kept.len() <= i < chars.len() implies #[trigger] chars[i]
            == PAD by {
            if i < chars.len() - 1 {
                assert(chars.drop_last()[i] == chars[i]);
            }
        }
    } else {
        assert(chars =~= chars.take(chars.len() as int));
    }
}

/// Takes away the padding markers that end `chars`.
pub fn strip_padding(chars: Vec<char>) -> (kept: Vec<char>)
    ensures
        kept@ == without_trailing_padding(chars@),
{
    let mut kept = chars;
    let mut end: usize = kept.len();
    proof {
        assert(kept@.take(end as int) =~= kept@);
    }
    while end > 0 && kept[end - 1] == PAD
        invariant
            kept@ == chars@,
            end <= kept@.len(),
            without_trailing_padding(chars@) == without_trailing_padding(
                chars@.take(end as int),
            ),
        decreases end,
    {
        proof {
            assert(chars@.take(end as int).drop_last() =~= chars@.take(end as int - 1));
        }
        end -= 1;
    }
    kept.truncate(end);
    proof {
        lemma_without_trailing_padding(chars@.take(end as int));
        assert(kept@ =~= chars@.take(end as int));
    }
    kept
}

/// Decodes `chars`: every group of four characters gives three bytes, a last
/// group of three characters two bytes, a last group of two characters one
/// byte; a single character left over gives none. Each character is taken
/// for the 6-bit value it stands for, which is 0 for the padding marker and
/// for every other character that is no symbol; no character is rejected.
/// So a text that ends in padding markers decodes to one zero byte more for
/// each of them: see `decode_with` to have them dropped.
pub fn decode(chars: Vec<char>) -> (bytes: Vec<u8>)
    ensures
        bytes@ == decoded(chars@),
        bytes@.len() == 6 * chars@.len() / 8,
{
    let n: usize = chars.len();
    let table = ReverseTable::new();
    let mut bytes: Vec<u8> = Vec::new();
    let mut i: usize = 0;
    let ghost mut g: int = 0;
    while n - i >= 4
        invariant
            n == chars@.len(),
            i <= n,
            i == 4 * g,
            bytes@.len() == 3 * g,
            forall|j: int| 0 <= j < 3 * g ==> bytes@[j] == decoded(chars@)[j],
        decreases n - i,
    {
        let s0: u8 = table.lookup(chars[i]);
        let s1: u8 = table.lookup(chars[i + 1]);
        let s2: u8 = table.lookup(chars[i + 2]);
        let s3: u8 = table.lookup(chars[i + 3]);
        let b: (u8, u8, u8) = join_group(s0, s1, s2, s3);
        let ghost before = bytes@;
        bytes.push(b.0);
        bytes.push(b.1);
        bytes.push(b.2);
        proof {
            lemma_decoded_group(chars@, g);
            assert(bytes@ =~= before + seq![b.0, b.1, b.2]);
            g = g + 1;
        }
        i += 4;
    }
    if n - i == 3 {
        let s0: u8 = table.lookup(chars[i]);
        let s1: u8 = table.lookup(chars[i + 1]);
        let s2: u8 = table.lookup(chars[i + 2]);
        let b: (u8, u8, u8) = join_group(s0, s1, s2, 0);
        let ghost before = bytes@;
        bytes.push(b.0);
        bytes.push(b.1);
        proof {
            lemma_decoded_group(chars@, g);
            assert(bytes@ =~= before + seq![b.0, b.1]);
        }
    } else if n - i == 2 {
        let s0: u8 = table.lookup(chars[i]);
        let s1: u8 = table.lookup(chars[i + 1]);
        let b: (u8, u8, u8) = join_group(s0, s1, 0, 0);
        let ghost before = bytes@;
        bytes.push(b.0);
        proof {
            lemma_decoded_group(chars@, g);
            assert(bytes@ =~= before + seq![b.0]);
        }
    }
    proof {
        assert(bytes@ =~= decoded(chars@));
    }
    bytes
}

/// Decodes `chars` under `policy`: as `decode` does under
/// `PaddingPolicy::Keep`; under `PaddingPolicy::Strip` the padding markers
/// that end `chars` are dropped first.
pub fn decode_with(chars: Vec<char>, policy: PaddingPolicy) -> (bytes: Vec<u8>)
    ensures
        bytes@ == decoded_with(chars@, policy),
{
    match policy {
        PaddingPolicy::Keep => decode(chars),
        PaddingPolicy::Strip => decode(strip_padding(chars)),
    }
}

} // verus!
