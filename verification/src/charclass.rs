//! Classes of bytes that the grammar distinguishes.

use vstd::prelude::*;

verus! {

/// `@`, the byte that introduces every directive.
pub const MARKER: u8 = 0x40;

/// `*`
pub const STAR: u8 = 0x2A;

/// `(`
pub const OPEN_PAREN: u8 = 0x28;

/// `)`
pub const CLOSE_PAREN: u8 = 0x29;

/// `[`
pub const OPEN_BRACKET: u8 = 0x5B;

/// `]`
pub const CLOSE_BRACKET: u8 = 0x5D;

/// `{`
pub const OPEN_BRACE: u8 = 0x7B;

/// `}`
pub const CLOSE_BRACE: u8 = 0x7D;

/// `<`
pub const OPEN_ANGLE: u8 = 0x3C;

/// `>`
pub const CLOSE_ANGLE: u8 = 0x3E;

/// `,`
pub const COMMA: u8 = 0x2C;

/// `.`
pub const DOT: u8 = 0x2E;

/// `:`
pub const COLON: u8 = 0x3A;

/// `"`
pub const QUOTE: u8 = 0x22;

/// `'`
pub const APOSTROPHE: u8 = 0x27;

/// `\`
pub const BACKSLASH: u8 = 0x5C;

/// `&`
pub const AMPERSAND: u8 = 0x26;

/// `-`
pub const MINUS: u8 = 0x2D;

/// Line feed.
pub const NEWLINE: u8 = 0x0A;

/// ASCII letter.
pub open spec fn is_letter(b: u8) -> bool {
    (0x41 <= b && b <= 0x5A) || (0x61 <= b && b <= 0x7A)
}

/// ASCII decimal digit.
pub open spec fn is_decimal(b: u8) -> bool {
    0x30 <= b && b <= 0x39
}

/// Byte that may start an identifier: a letter or an underscore.
pub open spec fn is_name_start(b: u8) -> bool {
    is_letter(b) || b == 0x5F
}

/// Byte that may continue an identifier: a letter, a digit or an underscore.
pub open spec fn is_name_part(b: u8) -> bool {
    is_letter(b) || is_decimal(b) || b == 0x5F
}

/// Blank, tab, line feed or carriage return.
pub open spec fn is_blank(b: u8) -> bool {
    b == 0x20 || b == 0x09 || b == 0x0A || b == 0x0D
}

/// `nom::is_alphabetic` answers whether the byte is one of `A`-`Z` or `a`-`z`.
pub assume_specification[ nom::is_alphabetic ](chr: u8) -> (r: bool)
    ensures
        r == is_letter(chr),
;

/// `nom::is_digit` answers whether the byte is one of `0`-`9`.
pub assume_specification[ nom::is_digit ](chr: u8) -> (r: bool)
    ensures
        r == is_decimal(chr),
;

/// `nom::is_alphanumeric` answers whether the byte is an ASCII letter or digit.
pub assume_specification[ nom::is_alphanumeric ](chr: u8) -> (r: bool)
    ensures
        r == (is_letter(chr) || is_decimal(chr)),
;

/// `nom::is_space` answers whether the byte is a blank or a tab.
pub assume_specification[ nom::is_space ](chr: u8) -> (r: bool)
    ensures
        r == (chr == 0x20 || chr == 0x09),
;

/// Tells whether `b` may start an identifier.
pub fn name_start(b: u8) -> (r: bool)
    ensures
        r == is_name_start(b),
{
    nom::is_alphabetic(b) || b == 0x5F
}

/// Tells whether `b` may continue an identifier.
pub fn name_part(b: u8) -> (r: bool)
    ensures
        r == is_name_part(b),
{
    nom::is_alphanumeric(b) || b == 0x5F
}

/// Tells whether `b` is insignificant white space.
pub fn blank(b: u8) -> (r: bool)
    ensures
        r == is_blank(b),
{
    nom::is_space(b) || b == 0x0A || b == 0x0D
}

} // verus!
