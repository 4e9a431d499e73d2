use vstd::prelude::*;

verus! {

/// Total byte length of the UTF-8 character that `b` begins, per the standard
/// lead-byte table of RFC 3629: `0x00..=0x7F` are complete one-byte
/// characters; `0xC2..=0xDF`, `0xE0..=0xEF` and `0xF0..=0xF4` lead characters
/// of two, three and four bytes; everything else (continuation bytes
/// `0x80..=0xBF` and the invalid leads `0xC0`, `0xC1`, `0xF5..=0xFF`) begins
/// no character and is mapped to 0.
pub open spec fn width_of(b: u8) -> nat {
    if b <= 0x7F {
        1
    } else if 0xC2 <= b <= 0xDF {
        2
    } else if 0xE0 <= b <= 0xEF {
        3
    } else if 0xF0 <= b <= 0xF4 {
        4
    } else {
        0
    }
}

/// Relies on utf8_width::get_width: given the first byte of a would-be UTF-8
/// character, it returns how many bytes that character occupies in total, and
/// 0 when the byte cannot begin a character, following the lead-byte table of
/// RFC 3629 written out above in `width_of`.
pub assume_specification [ utf8_width::get_width ](byte: u8) -> (w: usize)
    ensures
        w == width_of(byte),
;

} // verus!
