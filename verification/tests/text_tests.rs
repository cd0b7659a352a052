use bitstream_info::digest::{hex_lower, md5_string};
use bitstream_info::discover::{is_bit_file, newest_bit_file, Entry};
use bitstream_info::error::ParseError;
use bitstream_info::text::{chars_of, join_texts, split_text, trim_zero};

#[test]
fn chars_of_lists_characters() {
    assert_eq!(chars_of("a\u{e9}z"), vec!['a', '\u{e9}', 'z']);
    assert!(chars_of("").is_empty());
}

#[test]
fn trim_zero_removes_the_last_character() {
    assert_eq!(trim_zero("abc\0".to_string()), Ok("abc".to_string()));
    assert_eq!(trim_zero("xy".to_string()), Ok("x".to_string()));
    assert_eq!(trim_zero("a\0\0".to_string()), Ok("a\0".to_string()));
    assert_eq!(trim_zero("d\u{e9}\u{e9}".to_string()), Ok("d\u{e9}".to_string()));
}

#[test]
fn trim_zero_refuses_an_empty_field() {
    assert_eq!(trim_zero(String::new()), Err(ParseError::EmptyField));
}

#[test]
fn trim_zero_refuses_a_lone_nul() {
    assert_eq!(trim_zero("\0".to_string()), Err(ParseError::EmptyField));
}

#[test]
fn split_text_keeps_empty_segments() {
    assert_eq!(split_text("a;b", ';'), vec!["a", "b"]);
    assert_eq!(split_text("", ';'), vec![""]);
    assert_eq!(split_text("a;", ';'), vec!["a", ""]);
    assert_eq!(split_text(";a", ';'), vec!["", "a"]);
    assert_eq!(split_text(";;", ';'), vec!["", "", ""]);
    assert_eq!(split_text("top.sub;optA;optB", ';'), vec!["top.sub", "optA", "optB"]);
    assert_eq!(split_text("top.sub;optA;optB", '.'), vec!["top", "sub;optA;optB"]);
    assert_eq!(split_text("plain", '.'), vec!["plain"]);
}

#[test]
fn split_text_agrees_with_std() {
    for s in ["", "a", ".", "a.b.c", "..a", "a..", "\u{e9}.\u{e9}"].iter() {
        let expected: Vec<String> = s.split('.').map(|x| x.to_string()).collect();
        assert_eq!(split_text(s, '.'), expected);
    }
}

#[test]
fn join_texts_puts_separator_between() {
    assert_eq!(join_texts(&vec![], ';'), "");
    assert_eq!(join_texts(&vec!["a".to_string()], ';'), "a");
    assert_eq!(join_texts(&vec!["a".to_string(), "b".to_string()], ';'), "a;b");
    assert_eq!(
        join_texts(&vec!["".to_string(), "x".to_string(), "".to_string()], ';'),
        ";x;"
    );
}

#[test]
fn join_undoes_split() {
    for s in ["", "a;b;c", ";;", "a;"].iter() {
        assert_eq!(join_texts(&split_text(s, ';'), ';'), *s);
    }
}

#[test]
fn hex_lower_writes_two_digits_per_byte() {
    assert_eq!(hex_lower(&[]), "");
    assert_eq!(hex_lower(&[0x00, 0x0a, 0xab, 0xff, 0x10]), "000aabff10");
    assert_eq!(
        hex_lower(&[0x01, 0x23, 0x45, 0x67, 0x89, 0xab, 0xcd, 0xef]),
        "0123456789abcdef"
    );
}

#[test]
fn md5_string_known_digests() {
    assert_eq!(md5_string(b""), "d41d8cd98f00b204e9800998ecf8427e");
    assert_eq!(md5_string(b"abc"), "900150983cd24fb0d6963f7d28e17f72");
    assert_eq!(
        md5_string(b"The quick brown fox jumps over the lazy dog"),
        "9e107d9d372bb6826bd81d3542a419d6"
    );
}

#[test]
fn md5_string_agrees_with_md5_formatting() {
    let data: Vec<u8> = (0u8..=255).collect();
    assert_eq!(md5_string(&data), format!("{:x}", md5::compute(&data)));
}

#[test]
fn is_bit_file_checks_the_extension() {
    assert!(is_bit_file("design.bit"));
    assert!(is_bit_file(".bit"));
    assert!(is_bit_file("a.b.bit"));
    assert!(!is_bit_file("bit"));
    assert!(!is_bit_file("design.bin"));
    assert!(!is_bit_file("design.bit.bak"));
    assert!(!is_bit_file("design.BIT"));
    assert!(!is_bit_file(""));
}

fn entry(name: &str, is_file: bool, modified: u128) -> Entry {
    Entry { name: name.to_string(), is_file, modified }
}

#[test]
fn newest_bit_file_picks_the_latest() {
    let entries = vec![
        entry("old.bit", true, 10),
        entry("notes.txt", true, 99),
        entry("new.bit", true, 30),
        entry("dir.bit", false, 50),
        entry("mid.bit", true, 20),
    ];
    assert_eq!(newest_bit_file(&entries), Some(2));
}

#[test]
fn newest_bit_file_none_without_candidates() {
    assert_eq!(newest_bit_file(&vec![]), None);
    let entries = vec![entry("notes.txt", true, 1), entry("dir.bit", false, 2)];
    assert_eq!(newest_bit_file(&entries), None);
}

#[test]
fn newest_bit_file_takes_the_last_of_equal_age() {
    let entries = vec![entry("a.bit", true, 5), entry("b.bit", true, 5), entry("c.bit", true, 4)];
    assert_eq!(newest_bit_file(&entries), Some(1));
}
