//! The fixed ordered alphabet that position strings are written in: the 62
//! symbols `0`-`9`, `A`-`Z`, `a`-`z`, ordered by their code points, together
//! with the conversion between symbols and their indices.

use vstd::prelude::*;

verus! {

/// Number of symbols in the alphabet.
pub const BASE: usize = 62;

/// The smallest symbol of the alphabet (index 0).
pub const START_CHAR: char = '0';

/// The largest symbol of the alphabet (index 61).
pub const END_CHAR: char = 'z';

/// The seed symbol (index 17): the position handed out when no bound is
/// given. An interior symbol, chosen to leave room on both sides.
pub const MID_CHAR: char = 'H';

/// Index of a symbol in the alphabet: digits first, then upper case, then
/// lower case letters. Characters outside the alphabet map to -1.
pub open spec fn symbol_index(c: char) -> int {
    if '0' <= c && c <= '9' {
        c as int - '0' as int
    } else if 'A' <= c && c <= 'Z' {
        10 + c as int - 'A' as int
    } else if 'a' <= c && c <= 'z' {
        36 + c as int - 'a' as int
    } else {
        -1
    }
}

/// Whether a character belongs to the alphabet.
pub open spec fn is_symbol(c: char) -> bool {
    symbol_index(c) >= 0
}

/// The symbol with the given index (meaningful for 0 <= i < 62).
pub open spec fn symbol_at(i: int) -> char {
    if i < 10 {
        (i + ('0' as int)) as char
    } else if i < 36 {
        (i - 10 + ('A' as int)) as char
    } else {
        (i - 36 + ('a' as int)) as char
    }
}

/// Whether every character of a sequence belongs to the alphabet. The empty
/// sequence is valid: it stands for "no bound", not for a real position.
pub open spec fn valid_seq(s: Seq<char>) -> bool {
    forall|i: int| 0 <= i < s.len() ==> is_symbol(#[trigger] s[i])
}

/// Symbol and index are a bijection: from symbol to index and back.
pub broadcast proof fn lemma_symbol_round_trip(c: char)
    requires
        is_symbol(c),
    ensures
        #[trigger] symbol_at(symbol_index(c)) == c,
{
    broadcast use vstd::utf8::char_u32_cast;

    assert((c as u32) as char == c);
}

/// Symbol and index are a bijection: from index to symbol and back.
pub broadcast proof fn lemma_index_round_trip(i: int)
    requires
        0 <= i < 62,
    ensures
        is_symbol(#[trigger] symbol_at(i)),
        symbol_index(symbol_at(i)) == i,
{
    broadcast use vstd::utf8::char_u32_cast;

    let c = symbol_at(i);
    let u: u32 = if i < 10 {
        (i + 48) as u32
    } else if i < 36 {
        (i + 55) as u32
    } else {
        (i + 61) as u32
    };
    assert((u as char) as u32 == u) by {
        assert(u as char == c);
    }
}

/// The alphabet's index order agrees with the characters' code point order,
/// so that comparing position strings by raw characters compares indices.
pub broadcast proof fn lemma_symbol_order(c: char, d: char)
    requires
        is_symbol(c),
        is_symbol(d),
    ensures
        #[trigger] symbol_index(c) < #[trigger] symbol_index(d) <==> c < d,
{
}

/// Valid sequences are ASCII, which allows slicing by character index.
pub proof fn lemma_valid_seq_ascii(s: Seq<char>)
    requires
        valid_seq(s),
    ensures
        vstd::utf8::is_ascii_chars(s),
{
    assert forall|i: int| 0 <= i < s.len() implies '\0' <= #[trigger] s[i] <= '\u{7f}' by {
        assert(is_symbol(s[i]));
    }
}

/// Index of a character in the alphabet, `None` for a character outside it.
pub fn char_to_index(c: char) -> (r: Option<usize>)
    ensures
        r == if is_symbol(c) {
            Some(symbol_index(c) as usize)
        } else {
            None::<usize>
        },
{
    if '0' <= c && c <= '9' {
        Some((c as u32 - '0' as u32) as usize)
    } else if 'A' <= c && c <= 'Z' {
        Some((10 + c as u32 - 'A' as u32) as usize)
    } else if 'a' <= c && c <= 'z' {
        Some((36 + c as u32 - 'a' as u32) as usize)
    } else {
        None
    }
}

/// The symbol with the given index, `None` when the index is out of range.
pub fn index_to_char(idx: usize) -> (r: Option<char>)
    ensures
        r == if idx < 62 {
            Some(symbol_at(idx as int))
        } else {
            None::<char>
        },
{
    if idx < 62 {
        Some(symbol_char(idx))
    } else {
        None
    }
}

/// The symbol with the given in-range index.
pub(crate) fn symbol_char(idx: usize) -> (r: char)
    requires
        idx < 62,
    ensures
        r == symbol_at(idx as int),
        is_symbol(r),
        symbol_index(r) == idx as int,
{
    proof {
        lemma_index_round_trip(idx as int);
    }
    if idx < 10 {
        (48 + idx as u8) as char
    } else if idx < 36 {
        (55 + idx as u8) as char
    } else {
        (61 + idx as u8) as char
    }
}

/// Whether a string is written entirely in the alphabet. The empty string is
/// accepted: it stands for "no bound".
pub fn is_valid_base62(s: &str) -> (r: bool)
    ensures
        r == valid_seq(s@),
{
    let len = s.unicode_len();
    let mut i: usize = 0;
    while i < len
        invariant
            0 <= i <= len,
            len == s@.len(),
            forall|j: int| 0 <= j < i ==> is_symbol(#[trigger] s@[j]),
        decreases len - i,
    {
        let c = s.get_char(i);
        if char_to_index(c).is_none() {
            return false;
        }
        i += 1;
    }
    true
}

} // verus!
