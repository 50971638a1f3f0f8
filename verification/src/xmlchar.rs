//! The character classes of the XML 1.0 grammar, on bytes and on code points.

use vstd::prelude::*;

verus! {

/// `S`: space, tab, line feed, carriage return.
pub open spec fn spec_is_xml_space(b: u8) -> bool {
    b == 0x20 || b == 0x09 || b == 0x0a || b == 0x0d
}

/// The ASCII part of `NameChar`: letters, digits, `:`, `_`, `-`, `.`.
pub open spec fn spec_is_xml_name_byte(b: u8) -> bool {
    (0x41 <= b <= 0x5a) || (0x61 <= b <= 0x7a) || (0x30 <= b <= 0x39) || b == 0x3a || b == 0x5f
        || b == 0x2d || b == 0x2e
}

/// `NameStartChar`.
pub open spec fn spec_is_xml_name_start(c: u32) -> bool {
    if c <= 128 {
        (0x41 <= c <= 0x5a) || (0x61 <= c <= 0x7a) || c == 0x3a || c == 0x5f
    } else {
        (0xC0 <= c <= 0xD6) || (0xD8 <= c <= 0xF6) || (0xF8 <= c <= 0x2FF) || (0x370 <= c
            <= 0x37D) || (0x37F <= c <= 0x1FFF) || (0x200C <= c <= 0x200D) || (0x2070 <= c
            <= 0x218F) || (0x2C00 <= c <= 0x2FEF) || (0x3001 <= c <= 0xD7FF) || (0xF900 <= c
            <= 0xFDCF) || (0xFDF0 <= c <= 0xFFFD) || (0x10000 <= c <= 0xEFFFF)
    }
}

/// `NameChar`.
pub open spec fn spec_is_xml_name(c: u32) -> bool {
    if c <= 128 {
        c < 128 && spec_is_xml_name_byte(c as u8)
    } else {
        c == 0xB7 || (0xC0 <= c <= 0xD6) || (0xD8 <= c <= 0xF6) || (0xF8 <= c <= 0x2FF) || (0x300
            <= c <= 0x36F) || (0x370 <= c <= 0x37D) || (0x37F <= c <= 0x1FFF) || (0x200C <= c
            <= 0x200D) || (0x203F <= c <= 0x2040) || (0x2070 <= c <= 0x218F) || (0x2C00 <= c
            <= 0x2FEF) || (0x3001 <= c <= 0xD7FF) || (0xF900 <= c <= 0xFDCF) || (0xFDF0 <= c
            <= 0xFFFD) || (0x10000 <= c <= 0xEFFFF)
    }
}

/// `Char`: any code point but the control characters other than tab, line feed
/// and carriage return, and but U+FFFE and U+FFFF.
pub open spec fn spec_is_xml_char(c: u32) -> bool {
    if c < 0x20 {
        c == 0x09 || c == 0x0a || c == 0x0d
    } else {
        c != 0xFFFF && c != 0xFFFE
    }
}

#[verifier::when_used_as_spec(spec_is_xml_space)]
pub fn is_xml_space(b: u8) -> (r: bool)
    ensures
        r == spec_is_xml_space(b),
{
    b == 0x20 || b == 0x09 || b == 0x0a || b == 0x0d
}

#[verifier::when_used_as_spec(spec_is_xml_name_byte)]
pub fn is_xml_name_byte(b: u8) -> (r: bool)
    ensures
        r == spec_is_xml_name_byte(b),
{
    (0x41 <= b && b <= 0x5a) || (0x61 <= b && b <= 0x7a) || (0x30 <= b && b <= 0x39) || b == 0x3a
        || b == 0x5f || b == 0x2d || b == 0x2e
}

#[verifier::when_used_as_spec(spec_is_xml_name_start)]
pub fn is_xml_name_start(c: u32) -> (r: bool)
    ensures
        r == spec_is_xml_name_start(c),
{
    if c <= 128 {
        return (0x41 <= c && c <= 0x5a) || (0x61 <= c && c <= 0x7a) || c == 0x3a || c == 0x5f;
    }
    match c {
        0xC0..=0xD6
        | 0xD8..=0xF6
        | 0xF8..=0x2FF
        | 0x370..=0x37D
        | 0x37F..=0x1FFF
        | 0x200C..=0x200D
        | 0x2070..=0x218F
        | 0x2C00..=0x2FEF
        | 0x3001..=0xD7FF
        | 0xF900..=0xFDCF
        | 0xFDF0..=0xFFFD
        | 0x10000..=0xEFFFF => true,
        _ => false,
    }
}

#[verifier::when_used_as_spec(spec_is_xml_name)]
pub fn is_xml_name(c: u32) -> (r: bool)
    ensures
        r == spec_is_xml_name(c),
{
    if c <= 128 {
        return c < 128 && is_xml_name_byte(c as u8);
    }
    match c {
        0xB7
        | 0xC0..=0xD6
        | 0xD8..=0xF6
        | 0xF8..=0x2FF
        | 0x300..=0x36F
        | 0x370..=0x37D
        | 0x37F..=0x1FFF
        | 0x200C..=0x200D
        | 0x203F..=0x2040
        | 0x2070..=0x218F
        | 0x2C00..=0x2FEF
        | 0x3001..=0xD7FF
        | 0xF900..=0xFDCF
        | 0xFDF0..=0xFFFD
        | 0x10000..=0xEFFFF => true,
        _ => false,
    }
}

#[verifier::when_used_as_spec(spec_is_xml_char)]
pub fn is_xml_char(c: u32) -> (r: bool)
    ensures
        r == spec_is_xml_char(c),
{
    if c < 0x20 {
        return c == 0x09 || c == 0x0a || c == 0x0d;
    }
    c != 0xFFFF && c != 0xFFFE
}

} // verus!
