//! Character classes of the RFC 9110 field-value grammar.
//!
//! Each executable predicate has a spec twin, so the predicates can be used
//! directly inside contracts. Characters are written as their ASCII codes:
//! `0x21 '!'`, `0x2C ','`, `0x3D '='`, `0x22 '"'`, `0x5C '\'` and so on.

use vstd::prelude::*;

verus! {

/// Spec twin of [`is_wsp`]: horizontal whitespace (space or tab).
pub open spec fn wsp(chr: u8) -> bool {
    chr == 0x20 || chr == 0x09
}

/// Spec twin of [`is_obs_text`]: the `obs-text` range `%x80-FF`.
pub open spec fn obs_text(chr: u8) -> bool {
    0x80 <= chr
}

/// Spec twin of [`is_vchar`]: visible ASCII, `%x21-7E`.
pub open spec fn vchar(chr: u8) -> bool {
    0x21 <= chr <= 0x7E
}

/// Spec twin of [`is_tchar`]: the `tchar` class, any `VCHAR` except delimiters.
/// The punctuation codes are `! # $ % & ' * + - . ^ _ ` | ~`.
pub open spec fn tchar(chr: u8) -> bool {
    ||| chr == 0x21 || chr == 0x23 || chr == 0x24 || chr == 0x25 || chr == 0x26
    ||| chr == 0x27 || chr == 0x2A || chr == 0x2B || chr == 0x2D || chr == 0x2E
    ||| chr == 0x5E || chr == 0x5F || chr == 0x60 || chr == 0x7C || chr == 0x7E
    ||| 0x30 <= chr <= 0x39
    ||| 0x41 <= chr <= 0x5A
    ||| 0x61 <= chr <= 0x7A
}

/// Spec twin of [`is_dqtext`]: bytes allowed unescaped inside a quoted string
/// (`qdtext`): HTAB, SP, and any visible or `obs-text` byte except `"` and `\`.
pub open spec fn dqtext(chr: u8) -> bool {
    ||| chr == 0x09 || chr == 0x20 || chr == 0x21
    ||| 0x23 <= chr <= 0x5B
    ||| 0x5D <= chr <= 0x7E
    ||| 0x80 <= chr
}

/// Spec twin of [`is_digit`]: ASCII `0`-`9`.
pub open spec fn digit(chr: u8) -> bool {
    0x30 <= chr <= 0x39
}

/// `WSP = SP / HTAB` (RFC 5234).
#[verifier::when_used_as_spec(wsp)]
pub fn is_wsp(chr: u8) -> (r: bool)
    ensures
        r == wsp(chr),
{
    chr == 0x20 || chr == 0x09
}

/// `obs-text = %x80-FF` (RFC 9110).
#[verifier::when_used_as_spec(obs_text)]
pub fn is_obs_text(chr: u8) -> (r: bool)
    ensures
        r == obs_text(chr),
{
    0x80 <= chr
}

/// `VCHAR = %x21-7E` (RFC 5234).
#[verifier::when_used_as_spec(vchar)]
pub fn is_vchar(chr: u8) -> (r: bool)
    ensures
        r == vchar(chr),
{
    0x21 <= chr && chr <= 0x7E
}

/// `tchar` (RFC 9110): `! # $ % & ' * + - . ^ _ \` | ~`, digits and letters.
#[verifier::when_used_as_spec(tchar)]
pub fn is_tchar(chr: u8) -> (r: bool)
    ensures
        r == tchar(chr),
{
    matches!(chr,
        0x21 | 0x23 | 0x24 | 0x25 | 0x26 | 0x27 | 0x2A |
        0x2B | 0x2D | 0x2E | 0x5E | 0x5F | 0x60 | 0x7C | 0x7E |
        0x30..=0x39 | 0x41..=0x5A | 0x61..=0x7A)
}

/// `qdtext` extended with `obs-text` (RFC 9110 quoted strings).
#[verifier::when_used_as_spec(dqtext)]
pub fn is_dqtext(chr: u8) -> (r: bool)
    ensures
        r == dqtext(chr),
{
    matches!(chr, 0x09 | 0x20 | 0x21 | 0x23..=0x5B | 0x5D..=0x7E | 0x80..=0xFF)
}

/// ASCII digit.
#[verifier::when_used_as_spec(digit)]
pub fn is_digit(chr: u8) -> (r: bool)
    ensures
        r == digit(chr),
{
    0x30 <= chr && chr <= 0x39
}

} // verus!
