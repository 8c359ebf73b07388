//! The alphabet of 64 symbols, the padding marker, and the table that maps a
//! character back to the 6-bit value it stands for.

use vstd::prelude::*;
use vstd::string::*;

verus! {

/// The 64 symbols in the order of the values they stand for: the symbol for
/// the 6-bit value `v` is the character at index `v`.
pub const ALPHABET: &'static str =
    "ABCDEFGHIJKLMNOPQRSTUVWXYZabcdefghijklmnopqrstuvwxyz0123456789+/";

/// The padding marker. It fills an encoded text up to a whole number of
/// four-character groups and is no symbol of the alphabet.
pub const PAD: char = '=';

/// The alphabet as a sequence of 64 characters.
pub open spec fn alphabet() -> Seq<char> {
    ALPHABET@
}

/// The symbol that stands for the 6-bit value `v`.
pub open spec fn symbol(v: int) -> char
    recommends
        0 <= v < 64,
{
    alphabet()[v]
}

/// Whether `c` is one of the 64 symbols.
pub open spec fn is_symbol(c: char) -> bool {
    alphabet().contains(c)
}

/// The 6-bit value that `c` stands for: its index in the alphabet, and 0 for
/// every character that is no symbol (the padding marker among them).
pub open spec fn sextet(c: char) -> int {
    if is_symbol(c) {
        alphabet().index_of(c)
    } else {
        0
    }
}

/// The layout of the alphabet: the values 0 to 25 are the capital letters,
/// 26 to 51 the small letters, 52 to 61 the digits, 62 is `+` and 63 is `/`.
/// All 64 symbols are printable ASCII characters.
pub proof fn lemma_alphabet_layout()
    ensures
        alphabet().len() == 64,
        forall|v: int| 0 <= v < 26 ==> #[trigger] symbol(v) as int == 'A' as int + v,
        forall|v: int| 26 <= v < 52 ==> #[trigger] symbol(v) as int == 'a' as int + (v - 26),
        forall|v: int| 52 <= v < 62 ==> #[trigger] symbol(v) as int == '0' as int + (v - 52),
        symbol(62) == '+',
        symbol(63) == '/',
        forall|v: int| 0 <= v < 64 ==> '!' <= #[trigger] symbol(v) <= '~',
        is_ascii(ALPHABET),
{
    reveal_strlit("ABCDEFGHIJKLMNOPQRSTUVWXYZabcdefghijklmnopqrstuvwxyz0123456789+/");
}

/// No two values share a symbol.
pub proof fn lemma_symbols_distinct()
    ensures
        alphabet().no_duplicates(),
{
    lemma_alphabet_layout();
    assert forall|i: int, j: int|
        0 <= i < alphabet().len() && 0 <= j < alphabet().len() && i != j implies alphabet()[i]
        != alphabet()[j] by {
        assert(symbol(i) as int != symbol(j) as int);
    }
}

/// `sextet` inverts `symbol`.
pub proof fn lemma_sextet_of_symbol(v: int)
    requires
        0 <= v < 64,
    ensures
        is_symbol(symbol(v)),
        sextet(symbol(v)) == v,
{
    lemma_alphabet_layout();
    lemma_symbols_distinct();
    assert(alphabet()[v] == symbol(v));
    let i = alphabet().index_of(symbol(v));
    assert(0 <= i < 64 && alphabet()[i] == symbol(v));
}

/// Every character stands for a 6-bit value, and a symbol is the symbol of
/// the value it stands for.
pub proof fn lemma_sextet_in_range(c: char)
    ensures
        0 <= sextet(c) < 64,
        is_symbol(c) ==> symbol(sextet(c)) == c,
{
    lemma_alphabet_layout();
    if is_symbol(c) {
        let i = alphabet().index_of(c);
        assert(0 <= i < 64 && alphabet()[i] == c);
    }
}

/// The symbols by their character codes: a character is a symbol exactly if
/// it is an ASCII letter, an ASCII digit, `+` or `/`, and the value of each
/// follows from its code.
pub proof fn lemma_sextet_by_code(c: char)
    ensures
        is_symbol(c) <==> {
            ||| 'A' <= c <= 'Z'
            ||| 'a' <= c <= 'z'
            ||| '0' <= c <= '9'
            ||| c == '+'
            ||| c == '/'
        },
        'A' <= c <= 'Z' ==> sextet(c) == c as int - 'A' as int,
        'a' <= c <= 'z' ==> sextet(c) == c as int - 'a' as int + 26,
        '0' <= c <= '9' ==> sextet(c) == c as int - '0' as int + 52,
        c == '+' ==> sextet(c) == 62,
        c == '/' ==> sextet(c) == 63,
{
    lemma_alphabet_layout();
    let v: int = if 'A' <= c <= 'Z' {
        c as int - 'A' as int
    } else if 'a' <= c <= 'z' {
        c as int - 'a' as int + 26
    } else if '0' <= c <= '9' {
        c as int - '0' as int + 52
    } else if c == '+' {
        62
    } else {
        63
    };
    if 'A' <= c <= 'Z' || 'a' <= c <= 'z' || '0' <= c <= '9' || c == '+' || c == '/' {
        assert(symbol(v) as int == c as int);
        assert(symbol(v) == c);
        lemma_sextet_of_symbol(v);
    } else {
        assert forall|i: int| 0 <= i < alphabet().len() implies alphabet()[i] != c by {
            assert(symbol(i) as int != c as int);
        }
    }
}

/// The padding marker is no symbol, so it stands for the value 0.
pub proof fn lemma_pad_is_no_symbol()
    ensures
        !is_symbol(PAD),
        sextet(PAD) == 0,
{
    lemma_sextet_by_code(PAD);
}

/// The text of one character that holds the symbol for the 6-bit value `v`.
pub fn symbol_text(v: u8) -> (text: &'static str)
    requires
        v < 64,
    ensures
        text@ == seq![symbol(v as int)],
{
    proof {
        lemma_alphabet_layout();
    }
    let start: usize = v as usize;
    let text = ALPHABET.substring_ascii(start, start + 1);
    assert(text@ =~= seq![symbol(v as int)]);
    text
}

/// The text of one character that holds the padding marker.
pub fn pad_text() -> (text: &'static str)
    ensures
        text@ == seq![PAD],
{
    proof {
        reveal_strlit("=");
    }
    let text = "=";
    assert(text@ =~= seq![PAD]);
    text
}

/// The 256 entries of the reverse table: the entry at a character code is
/// the 6-bit value that the character with that code stands for.
pub open spec fn reverse_entries() -> Seq<u8> {
    Seq::new(256, |code: int| sextet(code as char) as u8)
}

/// The entry at `code` while the table is built, once the symbols of the
/// values below `entered` stand in it.
spec fn entry_after(code: int, entered: int) -> int {
    if sextet(code as char) < entered {
        sextet(code as char)
    } else {
        0
    }
}

/// The reverse table: for each character code from 0 to 255 the 6-bit value
/// that the character stands for. It is the alphabet inverted; the entries of
/// all codes that belong to no symbol are 0.
pub struct ReverseTable {
    entries: [u8; 256],
}

impl View for ReverseTable {
    type V = Seq<u8>;

    closed spec fn view(&self) -> Seq<u8> {
        self.entries@
    }
}

impl ReverseTable {
    #[verifier::type_invariant]
    spec fn well_formed(&self) -> bool {
        self.entries@ == reverse_entries()
    }

    /// Builds the table from the alphabet: starting from 256 zero entries,
    /// it enters each value at the code of its symbol.
    pub fn new() -> (table: Self)
        ensures
            table@ == reverse_entries(),
    {
        let mut entries: [u8; 256] = [0u8; 256];
        let mut v: usize = 0;
        while v < 64
            invariant
                v <= 64,
                forall|code: int|
                    0 <= code < 256 ==> #[trigger] entries@[code] as int == entry_after(
                        code,
                        v as int,
                    ),
            decreases 64 - v,
        {
            proof {
                lemma_alphabet_layout();
                lemma_sextet_of_symbol(v as int);
            }
            let code: u8 = ALPHABET.get_ascii(v);
            let ghost before = entries@;
            entries[code as usize] = v as u8;
            assert forall|other: int| 0 <= other < 256 implies #[trigger] entries@[other] as int
                == entry_after(other, v + 1) by {
                lemma_sextet_in_range(other as char);
                if other == code as int {
                    assert(other as char == symbol(v as int));
                } else {
                    assert(entries@[other] == before[other]);
                    if sextet(other as char) == v as int && is_symbol(other as char) {
                        assert(symbol(v as int) == other as char);
                    }
                }
            }
            v += 1;
        }
        proof {
            assert forall|code: int| 0 <= code < 256 implies #[trigger] entries@[code]
                == reverse_entries()[code] by {
                lemma_sextet_in_range(code as char);
            }
            assert(entries@ =~= reverse_entries());
        }
        ReverseTable { entries }
    }

    /// The 6-bit value that `c` stands for. A character whose code is above
    /// 255 has no entry and stands for 0, as every character outside the
    /// alphabet does.
    pub fn lookup(&self, c: char) -> (s: u8)
        ensures
            s as int == sextet(c),
            s < 64,
    {
        proof {
            use_type_invariant(self);
            lemma_sextet_in_range(c);
            lemma_sextet_by_code(c);
        }
        let code: u32 = c as u32;
        if code < 256 {
            assert(code as int as char == c);
            self.entries[code as usize]
        } else {
            0
        }
    }
}

} // verus!
