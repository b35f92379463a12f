use vstd::prelude::*;

verus! {

/// Code points that count as part of a word: ASCII letters, `_`, and the
/// letter ranges of the wider Unicode planes.
pub open spec fn is_word_code(code: u32) -> bool {
    (0x41 <= code <= 0x5A) || code == 0x5F || (0x61 <= code <= 0x7A) || (0xC0 <= code <= 0xD6)
        || (0xD8 <= code <= 0xF6) || (0xF8 <= code <= 0x02FF) || (0x0370 <= code <= 0x037D)
        || (0x037F <= code <= 0x1FFF) || (0x200C <= code <= 0x200D) || (0x2070 <= code
        <= 0x218F) || (0x2C00 <= code <= 0x2FEF) || (0x3001 <= code <= 0xD7FF) || (0xF900
        <= code <= 0xFDCF) || (0xFDF0 <= code <= 0xFFFD) || (0x10000 <= code <= 0xEFFFF)
}

/// The code point of a string holding exactly one grapheme, else 0.
pub open spec fn char_code_of(s: Seq<char>) -> u32 {
    if s.len() == 1 {
        s[0] as u32
    } else {
        0
    }
}

/// Decodes the code point of a single grapheme.
pub fn to_char_code(grapheme: &str) -> (r: u32)
    ensures
        r == char_code_of(grapheme@),
{
    let mut it = grapheme.chars();
    let first = it.next();
    let second = it.next();
    match (first, second) {
        (Some(c), None) => c as u32,
        _ => 0,
    }
}

/// Whether the grapheme is a letter, digit-like word character or `_`.
pub fn is_alpha_numeric(grapheme: &str) -> (r: bool)
    ensures
        r == is_word_code(char_code_of(grapheme@)),
{
    is_word_code_exec(to_char_code(grapheme))
}

pub fn is_word_code_exec(code: u32) -> (r: bool)
    ensures
        r == is_word_code(code),
{
    (0x41 <= code && code <= 0x5A) || code == 0x5F || (0x61 <= code && code <= 0x7A) || (0xC0
        <= code && code <= 0xD6) || (0xD8 <= code && code <= 0xF6) || (0xF8 <= code && code
        <= 0x02FF) || (0x0370 <= code && code <= 0x037D) || (0x037F <= code && code <= 0x1FFF)
        || (0x200C <= code && code <= 0x200D) || (0x2070 <= code && code <= 0x218F) || (0x2C00
        <= code && code <= 0x2FEF) || (0x3001 <= code && code <= 0xD7FF) || (0xF900 <= code
        && code <= 0xFDCF) || (0xFDF0 <= code && code <= 0xFFFD) || (0x10000 <= code && code
        <= 0xEFFFF)
}

} // verus!
