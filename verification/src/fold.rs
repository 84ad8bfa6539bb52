//! Case folding: the Unicode lowercase mapping, trusted from the standard
//! library, with its behaviour on ASCII text pinned down exactly.

use vstd::prelude::*;

verus! {

/// The Unicode lowercase folding of a sequence of characters, as
/// `str::to_lowercase` computes it. It depends on the characters alone.
pub uninterp spec fn lower_of(s: Seq<char>) -> Seq<char>;

/// Whether `c` lies in the ASCII range.
pub open spec fn is_ascii_char(c: char) -> bool {
    (c as u32) < 128
}

/// Whether every character of `s` lies in the ASCII range.
pub open spec fn is_ascii_seq(s: Seq<char>) -> bool {
    forall|i: int| 0 <= i < s.len() ==> is_ascii_char(#[trigger] s[i])
}

/// The lowercase form of an ASCII character: a capital letter moves down
/// into the lowercase letters, anything else stays as it is.
pub open spec fn ascii_lower_char(c: char) -> char {
    if 65 <= c as u32 <= 90 {
        ((c as u8 + 32) as u8) as char
    } else {
        c
    }
}

/// Character-by-character ASCII lowercasing of a sequence.
pub open spec fn ascii_lower_seq(s: Seq<char>) -> Seq<char> {
    s.map_values(|c: char| ascii_lower_char(c))
}

/// Relies on `str::to_lowercase`: the Unicode lowercase mapping of the text,
/// a function of the characters alone. An empty string stays empty, and on
/// ASCII text each letter is lowercased in place, character by character.
#[verifier::external_body]
pub fn to_lower(s: &str) -> (r: String)
    ensures
        r@ == lower_of(s@),
        s@.len() == 0 ==> r@.len() == 0,
        is_ascii_seq(s@) ==> r@ == ascii_lower_seq(s@),
{
    s.to_lowercase()
}

} // verus!
