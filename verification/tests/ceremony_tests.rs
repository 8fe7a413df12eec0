use plonk::ceremony::{decode_hex, encode_hex, parse_usize, split_lines};

#[test]
fn hex_round_trip() {
    let bytes = vec![0u8, 1, 0x7f, 0x80, 0xab, 0xff];
    let text = encode_hex(&bytes);
    assert_eq!(text, "00017f80abff");
    assert_eq!(decode_hex(&text), Some(bytes.clone()));
    assert_eq!(decode_hex(&format!("0x{text}")), Some(bytes));
    assert_eq!(encode_hex(&[]), "");
}

#[test]
fn hex_rejects_bad_input() {
    assert_eq!(decode_hex("abc"), None);
    assert_eq!(decode_hex("zz"), None);
    assert_eq!(decode_hex("0x1"), None);
    assert_eq!(decode_hex("AB"), Some(vec![0xab]));
    // only hex digits, no sign
    assert_eq!(decode_hex("+f"), None);
    assert_eq!(decode_hex("0x0aFf"), Some(vec![0x0a, 0xff]));
    assert_eq!(decode_hex("-f"), None);
    assert_eq!(decode_hex(""), Some(vec![]));
}

#[test]
fn counts_parse_like_usize() {
    assert_eq!(parse_usize(b"4096"), Some(4096));
    assert_eq!(parse_usize(b"+7"), Some(7));
    assert_eq!(parse_usize(b""), None);
    assert_eq!(parse_usize(b"+"), None);
    assert_eq!(parse_usize(b"1x"), None);
    assert_eq!(parse_usize(b"99999999999999999999999"), None);
}

#[test]
fn lines_are_trimmed_and_blank_ones_dropped() {
    let lines = split_lines(b" a \n\n\t b\r\nc");
    assert_eq!(lines, vec![b"a".to_vec(), b"b".to_vec(), b"c".to_vec()]);
    assert!(split_lines(b"\n \n").is_empty());
}

#[test]
fn unicode_whitespace_is_trimmed() {
    // U+00A0, U+3000, U+2009 and U+0085 around the words
    let text = "\u{a0}a\u{3000}\n\u{2009}b\u{85}\r\n\u{a0}\u{2028}\n";
    let lines = split_lines(text.as_bytes());
    assert_eq!(lines, vec![b"a".to_vec(), b"b".to_vec()]);
    // a byte that only starts a whitespace character is kept
    let other = "\u{a9}x\u{e9}";
    assert_eq!(split_lines(other.as_bytes()), vec![other.as_bytes().to_vec()]);
}
