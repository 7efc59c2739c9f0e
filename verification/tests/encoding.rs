use polygone_drive::base64url::decode_base64;
use polygone_drive::links::{LinkManager, LinkType};
use polygone_drive::share::write_token;
use polygone_drive::text::{bytes_equal, bytes_start_with, push_decimal, text_starts_with};

#[test]
fn base64_of_known_bytes() {
    assert_eq!(write_token(b"hello internet~"), "aGVsbG8gaW50ZXJuZXR-");
    assert_eq!(write_token(&[0xfb, 0xff, 0xbf]), "-_-_");
    assert_eq!(write_token(&[0xff]), "_w");
    assert_eq!(write_token(&[0xff, 0xff]), "__8");
    assert_eq!(write_token(&[]), "");
}

#[test]
fn base64_reads_what_it_writes() {
    for length in 0..70usize {
        let data: Vec<u8> = (0..length).map(|i| (i * 37 + length) as u8).collect();
        assert_eq!(decode_base64(&write_token(&data)), Some(data));
    }
}

#[test]
fn base64_refuses_other_texts() {
    assert_eq!(decode_base64("_w=="), None);
    assert_eq!(decode_base64("_x"), None);
    assert_eq!(decode_base64("a"), None);
    assert_eq!(decode_base64("ab+/"), None);
    assert_eq!(decode_base64("ab c"), None);
    assert_eq!(decode_base64("\u{e9}abc"), None);
    assert_eq!(decode_base64(""), Some(vec![]));
}

#[test]
fn permanent_token_is_the_base64_of_the_data() {
    let mut manager = LinkManager::new();
    let token = manager.create_link("id".to_string(), vec![1, 2, 3], LinkType::Permanent);
    assert_eq!(token, Ok("AQID".to_string()));
}

#[test]
fn decimal_numerals() {
    let mut out = "n=".to_string();
    push_decimal(&mut out, 0);
    out.push(' ');
    push_decimal(&mut out, 1090);
    out.push(' ');
    push_decimal(&mut out, u64::MAX);
    assert_eq!(out, "n=0 1090 18446744073709551615");
}

#[test]
fn prefixes() {
    assert!(bytes_start_with(b"abc", b"ab"));
    assert!(bytes_start_with(b"abc", b""));
    assert!(!bytes_start_with(b"ab", b"abc"));
    assert!(!bytes_start_with(b"abc", b"ac"));
    assert!(text_starts_with("\u{e9}ph_", "\u{e9}p"));
    assert!(!text_starts_with("eph", "eph_"));
    assert!(!text_starts_with("epx_", "eph_"));
    assert!(bytes_equal(b"xy", b"xy"));
    assert!(!bytes_equal(b"xy", b"xyz"));
    assert!(!bytes_equal(b"xy", b"xz"));
}
