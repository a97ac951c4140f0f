use cache_headers::chars::is_digit;
use cache_headers::chars::is_dqtext;
use cache_headers::chars::is_obs_text;
use cache_headers::chars::is_tchar;
use cache_headers::chars::is_vchar;
use cache_headers::chars::is_wsp;

#[test]
fn wsp_is_space_and_tab() {
    assert!(is_wsp(b' '));
    assert!(is_wsp(b'\t'));
    assert!(!is_wsp(b'\n'));
    assert!(!is_wsp(b'a'));
}

#[test]
fn tchar_covers_token_punctuation_and_alphanumerics() {
    for c in b"!#$%&'*+-.^_`|~" {
        assert!(is_tchar(*c));
    }
    assert!(is_tchar(b'0') && is_tchar(b'9'));
    assert!(is_tchar(b'A') && is_tchar(b'Z'));
    assert!(is_tchar(b'a') && is_tchar(b'z'));
    for c in b"\"(),/:;<=>?@[\\]{} \t" {
        assert!(!is_tchar(*c));
    }
}

#[test]
fn vchar_and_obs_text_ranges() {
    assert!(is_vchar(0x21) && is_vchar(0x7E));
    assert!(!is_vchar(0x20) && !is_vchar(0x7F));
    assert!(is_obs_text(0x80) && is_obs_text(0xFF));
    assert!(!is_obs_text(0x7F));
}

#[test]
fn dqtext_excludes_quote_and_backslash() {
    assert!(is_dqtext(b' ') && is_dqtext(b'\t') && is_dqtext(b'a') && is_dqtext(0x80));
    assert!(!is_dqtext(b'"'));
    assert!(!is_dqtext(b'\\'));
    assert!(!is_dqtext(b'\n'));
}

#[test]
fn digits_are_ascii_digits() {
    assert!(is_digit(b'0') && is_digit(b'9'));
    assert!(!is_digit(b'a') && !is_digit(b'/') && !is_digit(b':'));
}
