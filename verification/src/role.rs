//! The fixed syntactic-role table over the printable symbol universe.

use vstd::prelude::*;

verus! {

/// The syntactic role of a symbol, used to restrict merges in strict profiles.
#[derive(Copy, Clone, Debug, Eq, PartialEq, Structural)]
pub enum CharRole {
    Letter,
    Digit,
    Delimiter,
    Punctuation,
    Space,
    Other,
}

/// The six bracket characters.
pub open spec fn is_delimiter_code(c: int) -> bool {
    c == 0x28 || c == 0x29 || c == 0x5b || c == 0x5d || c == 0x7b || c == 0x7d
}

/// The punctuation marks of the fixed table.
pub open spec fn is_punctuation_code(c: int) -> bool {
    ||| c == 0x21 || c == 0x22 || c == 0x23 || c == 0x24 || c == 0x25 || c == 0x26 || c == 0x27
    ||| c == 0x2a || c == 0x2b || c == 0x2c || c == 0x2d || c == 0x2e || c == 0x2f
    ||| c == 0x3a || c == 0x3b || c == 0x3c || c == 0x3d || c == 0x3e || c == 0x3f || c == 0x40
    ||| c == 0x5c || c == 0x5e || c == 0x5f || c == 0x60 || c == 0x7c || c == 0x7e
}

/// The fixed role of a character, decided by its code point.
pub open spec fn spec_classify_role(ch: char) -> CharRole {
    let c = ch as int;
    if (0x61 <= c <= 0x7a) || (0x41 <= c <= 0x5a) {
        CharRole::Letter
    } else if 0x30 <= c <= 0x39 {
        CharRole::Digit
    } else if is_delimiter_code(c) {
        CharRole::Delimiter
    } else if c == 0x20 || c == 0x09 {
        CharRole::Space
    } else if is_punctuation_code(c) {
        CharRole::Punctuation
    } else {
        CharRole::Other
    }
}

pub fn classify_role(ch: char) -> (r: CharRole)
    ensures
        r == spec_classify_role(ch),
{
    let c: u32 = ch as u32;
    if (0x61 <= c && c <= 0x7a) || (0x41 <= c && c <= 0x5a) {
        CharRole::Letter
    } else if 0x30 <= c && c <= 0x39 {
        CharRole::Digit
    } else if c == 0x28 || c == 0x29 || c == 0x5b || c == 0x5d || c == 0x7b || c == 0x7d {
        CharRole::Delimiter
    } else if c == 0x20 || c == 0x09 {
        CharRole::Space
    } else if c == 0x21 || c == 0x22 || c == 0x23 || c == 0x24 || c == 0x25 || c == 0x26 || c
        == 0x27 || c == 0x2a || c == 0x2b || c == 0x2c || c == 0x2d || c == 0x2e || c == 0x2f || c
        == 0x3a || c == 0x3b || c == 0x3c || c == 0x3d || c == 0x3e || c == 0x3f || c == 0x40 || c
        == 0x5c || c == 0x5e || c == 0x5f || c == 0x60 || c == 0x7c || c == 0x7e {
        CharRole::Punctuation
    } else {
        CharRole::Other
    }
}

} // verus!
