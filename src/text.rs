//! Characters of strings and their type classes.
use vstd::prelude::*;

verus! {

/// The characters of `s`, in order.
pub fn chars_of(s: &str) -> (r: Vec<char>)
    ensures
        r@ == s@,
{
    let mut r: Vec<char> = Vec::new();
    for c in it: s.chars()
        invariant
            r@ == it.seq().take(it.index() as int),
    {
        r.push(c);
    }
    r
}

} // verus!

verus! {

/// Type class of a digit.
pub const DIGIT: u8 = 68;

/// Type class of a Latin letter.
pub const ROMAN: u8 = 82;

/// Type class of a hiragana character.
pub const HIRAGANA: u8 = 72;

/// Type class of a katakana character.
pub const KATAKANA: u8 = 84;

/// Type class of a kanji character.
pub const KANJI: u8 = 75;

/// Type class of every other character.
pub const OTHER: u8 = 79;

pub open spec fn in_range(c: char, lo: u32, hi: u32) -> bool {
    lo <= (c as u32) <= hi
}

/// The type class of a character.
pub open spec fn char_type_of(c: char) -> u8 {
    if in_range(c, 0x30, 0x39) || in_range(c, 0xFF10, 0xFF19) {
        DIGIT
    } else if in_range(c, 0x41, 0x5A) || in_range(c, 0x61, 0x7A) || in_range(c, 0xFF21, 0xFF3A)
        || in_range(c, 0xFF41, 0xFF5A) {
        ROMAN
    } else if in_range(c, 0x3040, 0x309F) {
        HIRAGANA
    } else if in_range(c, 0x30A0, 0x30FF) || in_range(c, 0x31F0, 0x31FF) || in_range(
        c,
        0xFF66,
        0xFF9F,
    ) {
        KATAKANA
    } else if in_range(c, 0x4E00, 0x9FFF) || in_range(c, 0x3400, 0x4DBF) || in_range(
        c,
        0xF900,
        0xFAFF,
    ) || in_range(c, 0x3005, 0x3007) || in_range(c, 0x20000, 0x2FFFF) {
        KANJI
    } else {
        OTHER
    }
}

/// Classifies one character.
pub fn char_type(c: char) -> (r: u8)
    ensures
        r == char_type_of(c),
{
    let u = c as u32;
    if (0x30 <= u && u <= 0x39) || (0xFF10 <= u && u <= 0xFF19) {
        DIGIT
    } else if (0x41 <= u && u <= 0x5A) || (0x61 <= u && u <= 0x7A) || (0xFF21 <= u && u <= 0xFF3A)
        || (0xFF41 <= u && u <= 0xFF5A) {
        ROMAN
    } else if 0x3040 <= u && u <= 0x309F {
        HIRAGANA
    } else if (0x30A0 <= u && u <= 0x30FF) || (0x31F0 <= u && u <= 0x31FF) || (0xFF66 <= u && u
        <= 0xFF9F) {
        KATAKANA
    } else if (0x4E00 <= u && u <= 0x9FFF) || (0x3400 <= u && u <= 0x4DBF) || (0xF900 <= u && u
        <= 0xFAFF) || (0x3005 <= u && u <= 0x3007) || (0x20000 <= u && u <= 0x2FFFF) {
        KANJI
    } else {
        OTHER
    }
}

/// The type classes of a character sequence.
pub open spec fn types_of(cs: Seq<char>) -> Seq<u8> {
    cs.map_values(|c: char| char_type_of(c))
}

/// Classifies every character of `cs`.
pub fn char_types(cs: &Vec<char>) -> (r: Vec<u8>)
    ensures
        r@ == types_of(cs@),
{
    let mut r: Vec<u8> = Vec::new();
    let mut i: usize = 0;
    while i < cs.len()
        invariant
            i <= cs.len(),
            r@ == types_of(cs@).take(i as int),
        decreases cs.len() - i,
    {
        let t = char_type(cs[i]);
        r.push(t);
        proof {
            assert(types_of(cs@).take(i + 1) =~= types_of(cs@).take(i as int).push(t));
        }
        i = i + 1;
    }
    assert(types_of(cs@).take(i as int) =~= types_of(cs@));
    r
}

} // verus!
