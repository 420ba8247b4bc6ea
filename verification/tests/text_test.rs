use rustchm::strutil::{
    contains_bytes, eq_ignore_case, find_bytes, lower, parse_int, parse_lcid, slashes, trim,
};
use rustchm::textenc::{
    append_utf16le, codepage_for_lcid, decode_auto, decode_codepage, decode_text, encode_codepage,
    is_dbcs_codepage, CodepageTable,
};

#[test]
fn trim_strips_unicode_whitespace() {
    assert_eq!(trim(b"  a b \t\r\n"), b"a b".to_vec());
    assert_eq!(trim("\u{a0}x\u{3000}".as_bytes()), b"x".to_vec());
    assert_eq!(trim(b"   "), Vec::<u8>::new());
    assert_eq!(trim(b""), Vec::<u8>::new());
}

#[test]
fn slashes_and_lower() {
    assert_eq!(slashes(b"a\\b\\c.htm"), b"a/b/c.htm".to_vec());
    assert_eq!(lower(b"AbC.HTM"), b"abc.htm".to_vec());
    assert!(eq_ignore_case(b"Index.HTM", b"index.htm"));
    assert!(!eq_ignore_case(b"index.htm", b"index.html"));
}

#[test]
fn find_and_contains() {
    assert_eq!(find_bytes(b"abcabc", b"bc", 0), Some(1));
    assert_eq!(find_bytes(b"abcabc", b"bc", 2), Some(4));
    assert_eq!(find_bytes(b"abcabc", b"x", 0), None);
    assert!(contains_bytes(b"hello.hhc", b".hhc"));
    assert!(!contains_bytes(b"hello", b"hello!"));
}

#[test]
fn parse_int_forms() {
    assert_eq!(parse_int(b" 0x1F "), 31);
    assert_eq!(parse_int(b"0X10"), 16);
    assert_eq!(parse_int(b"12"), 12);
    assert_eq!(parse_int(b"+7"), 7);
    assert_eq!(parse_int(b"abc"), 0);
    assert_eq!(parse_int(b"0x"), 0);
    assert_eq!(parse_int(b"4294967296"), 0);
    assert_eq!(parse_int(b"4294967295"), u32::MAX);
}

#[test]
fn parse_lcid_forms() {
    assert_eq!(parse_lcid(b"0x411 Japanese"), 0x411);
    assert_eq!(parse_lcid(b"1033 English"), 1033);
    assert_eq!(parse_lcid(b""), 0x409);
    assert_eq!(parse_lcid(b"0 none"), 0x409);
    assert_eq!(parse_lcid(b"English"), 0x409);
}

#[test]
fn codepages_of_languages() {
    assert_eq!(codepage_for_lcid(0x411), 932);
    assert_eq!(codepage_for_lcid(0x409), 1252);
    assert!(is_dbcs_codepage(932));
    assert!(!is_dbcs_codepage(1252));
}

#[test]
fn utf16_of_code_points() {
    let mut out = vec![0xEE];
    append_utf16le(&mut out, &[0x41, 0x20AC, 0x1F600]);
    assert_eq!(out, vec![0xEE, 0x41, 0x00, 0xAC, 0x20, 0x3D, 0xD8, 0x00, 0xDE]);
}

#[test]
fn utf8_text_decodes_to_code_points() {
    let bytewise = decode_codepage("a\u{e9}", 1252, &[]);
    assert_eq!(bytewise, vec![0x61, 0xC3, 0xA9]);
    let auto = decode_auto("a\u{e9}\u{20ac}", 1252, &[]);
    assert_eq!(auto, vec![0x61, 0xE9, 0x20AC]);
    let ascii = decode_auto("ab", 1252, &[]);
    assert_eq!(ascii, vec![0x61, 0x62]);
}

#[test]
fn single_byte_table_round_trip() {
    let mut high = Vec::new();
    for i in 0..128u16 {
        high.push(0x400 + i);
    }
    let tables = vec![CodepageTable { cp: 1251, high }];
    let bytes = encode_codepage(&[0x41, 0x400, 0x47F], 1251, &tables);
    assert_eq!(bytes, vec![0x41, 0x80, 0xFF]);
    let cps = decode_text(&[0x41, 0x80, 0xFF], 1251, &tables);
    assert_eq!(cps, vec![0x41, 0x400, 0x47F]);
}

#[test]
fn declared_utf8_charset_wins() {
    let html = "<meta charset=\"utf-8\"><p>\u{e9}</p>".as_bytes();
    let cps = decode_text(html, 1252, &[]);
    assert!(cps.contains(&0xE9));
}
