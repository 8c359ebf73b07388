//! Whitespace in a text that is to be decoded: the decoder takes every
//! character for a value, so whitespace is taken out first.

use crate::alphabet::{is_symbol, lemma_sextet_by_code, PAD};
use vstd::prelude::*;

verus! {

/// Whether `c` is whitespace: one of the 25 characters with the Unicode
/// property `White_Space`. These are the ASCII tab, line feed, vertical tab,
/// form feed, carriage return and space, the next-line control U+0085, and
/// the spaces and line and paragraph separators of the other blocks.
pub open spec fn spec_is_whitespace(c: char) -> bool {
    ||| '\u{0009}' <= c <= '\u{000D}'
    ||| c == '\u{0020}'
    ||| c == '\u{0085}'
    ||| c == '\u{00A0}'
    ||| c == '\u{1680}'
    ||| '\u{2000}' <= c <= '\u{200A}'
    ||| c == '\u{2028}'
    ||| c == '\u{2029}'
    ||| c == '\u{202F}'
    ||| c == '\u{205F}'
    ||| c == '\u{3000}'
}

/// Whether `c` is whitespace.
#[verifier::when_used_as_spec(spec_is_whitespace)]
pub fn is_whitespace(c: char) -> (b: bool)
    ensures
        b == spec_is_whitespace(c),
{
    ('\u{0009}' <= c && c <= '\u{000D}')
        || c == '\u{0020}'
        || c == '\u{0085}'
        || c == '\u{00A0}'
        || c == '\u{1680}'
        || ('\u{2000}' <= c && c <= '\u{200A}')
        || c == '\u{2028}'
        || c == '\u{2029}'
        || c == '\u{202F}'
        || c == '\u{205F}'
        || c == '\u{3000}'
}

/// The test that keeps a character: it is no whitespace.
pub open spec fn is_not_whitespace() -> spec_fn(char) -> bool {
    |c: char| !is_whitespace(c)
}

/// `chars` without its whitespace: the other characters, in their order.
pub open spec fn without_whitespace(chars: Seq<char>) -> Seq<char> {
    chars.filter(is_not_whitespace())
}

/// Whether `chars` holds no whitespace.
pub open spec fn is_free_of_whitespace(chars: Seq<char>) -> bool {
    forall|i: int| 0 <= i < chars.len() ==> !is_whitespace(#[trigger] chars[i])
}

/// No symbol of the alphabet is whitespace, and the padding marker is none.
pub proof fn lemma_symbols_are_no_whitespace(c: char)
    requires
        is_symbol(c) || c == PAD,
    ensures
        !is_whitespace(c),
{
    lemma_sextet_by_code(c);
}

/// Nothing is taken out of a text that holds no whitespace.
pub proof fn lemma_nothing_to_strip(chars: Seq<char>)
    requires
        is_free_of_whitespace(chars),
    ensures
        without_whitespace(chars) == chars,
    decreases chars.len(),
{
    reveal(Seq::filter);
    if chars.len() > 0 {
        assert(is_free_of_whitespace(chars.drop_last())) by {
            assert forall|i: int| 0 <= i < chars.drop_last().len() implies !is_whitespace(
                #[trigger] chars.drop_last()[i],
            ) by {
                assert(chars.drop_last()[i] == chars[i]);
            }
        }
        lemma_nothing_to_strip(chars.drop_last());
        assert(!is_whitespace(chars[chars.len() - 1]));
        assert(chars.drop_last().push(chars.last()) =~= chars);
    }
}

/// A text that is all whitespace is stripped to nothing.
pub proof fn lemma_all_stripped(chars: Seq<char>)
    requires
        forall|i: int| 0 <= i < chars.len() ==> is_whitespace(#[trigger] chars[i]),
    ensures
        without_whitespace(chars) == Seq::<char>::empty(),
    decreases chars.len(),
{
    reveal(Seq::filter);
    if chars.len() > 0 {
        assert forall|i: int| 0 <= i < chars.drop_last().len() implies is_whitespace(
            #[trigger] chars.drop_last()[i],
        ) by {
            assert(chars.drop_last()[i] == chars[i]);
        }
        lemma_all_stripped(chars.drop_last());
        assert(is_whitespace(chars[chars.len() - 1]));
    } else {
        assert(chars =~= Seq::<char>::empty());
    }
}

/// What is left after stripping holds no whitespace.
pub proof fn lemma_stripped_is_free(chars: Seq<char>)
    ensures
        is_free_of_whitespace(without_whitespace(chars)),
{
    let kept = without_whitespace(chars);
    assert forall|i: int| 0 <= i < kept.len() implies !is_whitespace(#[trigger] kept[i]) by {
        chars.lemma_filter_pred(is_not_whitespace(), i);
    }
}

/// Takes the whitespace out of `chars` and keeps the other characters in
/// their order.
pub fn strip_whitespace(chars: Vec<char>) -> (kept: Vec<char>)
    ensures
        kept@ == without_whitespace(chars@),
        is_free_of_whitespace(kept@),
{
    let mut kept: Vec<char> = Vec::new();
    let mut i: usize = 0;
    proof {
        reveal(Seq::filter);
        assert(chars@.take(0) =~= Seq::<char>::empty());
    }
    while i < chars.len()
        invariant
            i <= chars@.len(),
            kept@ == without_whitespace(chars@.take(i as int)),
        decreases chars@.len() - i,
    {
        let c: char = chars[i];
        proof {
            assert(chars@.take(i as int + 1) =~= chars@.take(i as int).push(c));
            chars@.take(i as int).lemma_filter_push(c, is_not_whitespace());
        }
        if !is_whitespace(c) {
            kept.push(c);
        }
        i += 1;
    }
    proof {
        assert(chars@.take(i as int) =~= chars@);
        lemma_stripped_is_free(chars@);
    }
    kept
}

} // verus!
