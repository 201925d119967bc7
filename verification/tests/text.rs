use sprite_shrink::text::{
    decimal_text, hex_bytes_text, hex_text, padded_text, parse_u8, same_text, split_lines,
    take_chars, trim_text,
};

#[test]
fn numbers_are_written() {
    for n in [0u128, 9, 10, 255, 4_294_967_296, u128::MAX] {
        assert_eq!(decimal_text(n), n.to_string());
    }
    for n in [0u8, 5, 10, 99, 100, 255] {
        assert_eq!(padded_text(n), format!("{:02}", n));
    }
    for n in [0u64, 15, 16, 255, u64::MAX] {
        assert_eq!(hex_text(n), format!("{:02x}", n));
    }
    assert_eq!(hex_bytes_text(&[0, 0xab, 7]), "00ab07");
}

#[test]
fn numbers_are_read_as_std_reads_them() {
    for word in ["0", "7", "255", "256", "00255", "+12", "+", "", "-1", "1 ", " 1", "12a", "\u{663}"] {
        assert_eq!(parse_u8(word), word.parse::<u8>().ok());
    }
    for n in 0..=255u8 {
        assert_eq!(parse_u8(&padded_text(n)), Some(n));
    }
}

#[test]
fn lines_are_split_as_std_splits_them() {
    for text in ["", "\n", "a", "a\n", "a\r\nb", "a\r", "a\r\r\nb\n\nc", "\r\n", "x\n\r"] {
        let lines: Vec<String> = text.lines().map(|l| l.to_string()).collect();
        assert_eq!(split_lines(text), lines);
    }
}

#[test]
fn spaces_are_taken_away_as_std_does() {
    for code in 0..0x3100u32 {
        if let Some(c) = char::from_u32(code) {
            let text = format!("{}x{}", c, c);
            assert_eq!(trim_text(&text), text.trim());
        }
    }
    assert_eq!(trim_text("  a b \t\r\n"), "a b");
    assert_eq!(trim_text(" \n "), "");
}

#[test]
fn texts_are_compared_and_cut() {
    assert!(same_text("AUDIO", "AUDIO"));
    assert!(!same_text("AUDIO", "AUDIo"));
    assert!(!same_text("AUDIO", "AUDI"));
    assert_eq!(take_chars("h\u{e9}llo", 2), "h\u{e9}");
    assert_eq!(take_chars("ab", 5), "ab");
}
