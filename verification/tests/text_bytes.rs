use dtbc::bytes::{
    bytes_eq, join_tokens, pack_be_words, remove_double_spaces, split_bytes, split_lines,
    split_tokens, trim_end_matches, trim_start_matches,
};
use dtbc::number::parse_u32_radix;

#[test]
fn lines_split_like_str_lines() {
    let text = b"foo\r\nbar\n\nbaz\r";
    let expected: Vec<&str> = "foo\r\nbar\n\nbaz\r".lines().collect();
    let got = split_lines(text);
    assert_eq!(got.len(), expected.len());
    for (g, e) in got.iter().zip(expected.iter()) {
        assert_eq!(g.as_slice(), e.as_bytes());
    }
    assert_eq!(got, vec![b"foo".to_vec(), b"bar".to_vec(), b"".to_vec(), b"baz\r".to_vec()]);
}

#[test]
fn final_newline_starts_no_line() {
    assert_eq!(split_lines(b"a\nb\n"), vec![b"a".to_vec(), b"b".to_vec()]);
    assert_eq!(split_lines(b""), Vec::<Vec<u8>>::new());
    assert_eq!(split_lines(b"\n"), vec![b"".to_vec()]);
}

#[test]
fn tokens_split_on_whitespace() {
    assert_eq!(
        split_tokens(b"  cpu0: cpu@0\t{ "),
        vec![b"cpu0:".to_vec(), b"cpu@0".to_vec(), b"{".to_vec()]
    );
    assert_eq!(split_tokens(b"   "), Vec::<Vec<u8>>::new());
}

#[test]
fn pieces_split_like_str_split() {
    assert_eq!(split_bytes(b"a  b", b' '), vec![b"a".to_vec(), b"".to_vec(), b"b".to_vec()]);
    assert_eq!(split_bytes(b"", b' '), vec![b"".to_vec()]);
}

#[test]
fn tokens_join_with_single_spaces() {
    let toks = vec![b"x".to_vec(), b"=".to_vec(), b"<1".to_vec(), b"2>;".to_vec()];
    assert_eq!(join_tokens(&toks, 2), b"<1 2>;".to_vec());
    assert_eq!(join_tokens(&toks, 4), Vec::<u8>::new());
}

#[test]
fn double_spaces_are_removed() {
    assert_eq!(remove_double_spaces(b"    a   b  c"), b"a bc".to_vec());
    assert_eq!(
        remove_double_spaces(b"   x     y"),
        "   x     y".replace("  ", "").into_bytes()
    );
}

#[test]
fn no_double_space_left_after_removal() {
    let out = remove_double_spaces(b"a       b     c  d");
    assert!(!out.windows(2).any(|w| w == b"  "));
}

#[test]
fn trims_repeated_bytes() {
    assert_eq!(trim_end_matches(b"cpu0::", b':'), b"cpu0".to_vec());
    assert_eq!(trim_start_matches(b"&&intc", b'&'), b"intc".to_vec());
}

#[test]
fn bytes_pack_big_endian_with_zero_padding() {
    assert_eq!(pack_be_words(b"ab"), vec![0x6162_0000]);
    assert_eq!(pack_be_words(b"test\0"), vec![0x7465_7374, 0]);
    assert_eq!(pack_be_words(b""), Vec::<u32>::new());
    assert_eq!(pack_be_words(&[1, 2, 3, 4]), vec![0x0102_0304]);
}

#[test]
fn byte_equality() {
    assert!(bytes_eq(b"abc", b"abc"));
    assert!(!bytes_eq(b"abc", b"abd"));
    assert!(!bytes_eq(b"ab", b"abc"));
}

#[test]
fn numbers_read_like_from_str_radix() {
    for s in ["0", "10", "+7", "-7", "", "+", "-", "4294967295", "4294967296", "007", "1a"] {
        assert_eq!(parse_u32_radix(s.as_bytes(), 10), u32::from_str_radix(s, 10).ok(), "{}", s);
    }
    for s in ["ff", "FF", "dEaDbEeF", "100000000", "g", "+10", ""] {
        assert_eq!(parse_u32_radix(s.as_bytes(), 16), u32::from_str_radix(s, 16).ok(), "{}", s);
    }
    assert_eq!(parse_u32_radix(b"ff", 16), Some(255));
    assert_eq!(parse_u32_radix(b"-5", 10), None);
}

#[test]
fn packed_cells_read_back_as_padded_bytes() {
    let cells = pack_be_words(b"hello");
    let back: Vec<u8> = cells.iter().flat_map(|c| c.to_be_bytes()).collect();
    assert_eq!(back, b"hello\0\0\0".to_vec());
}

#[test]
fn leading_whitespace_is_trimmed() {
    assert_eq!(dtbc::bytes::trim_start_whitespace(b" \t\r\nfoo "), b"foo ".to_vec());
    assert_eq!(dtbc::bytes::trim_start_whitespace(b""), Vec::<u8>::new());
}

#[test]
fn unicode_whitespace_is_trimmed_like_trim_start() {
    for s in [
        "\u{a0}foo",
        "\u{85}\u{3000}bar",
        "\u{1680}\u{2000}\u{200a}\u{2028}\u{2029}\u{202f}\u{205f}x y",
        "\u{200b}zero-width",
        "é",
        " \t\u{a0} ",
        "",
    ] {
        assert_eq!(
            dtbc::bytes::trim_start_whitespace(s.as_bytes()),
            s.trim_start().as_bytes().to_vec(),
            "{:?}",
            s
        );
    }
}
