use hsr_frontend::gacha::{date_only, fetch_done_status, first_char, icon_ids, thousands};
use hsr_frontend::hex::{hex_encode, hex_lower_packed};
use hsr_frontend::text::{
    collapse_chars, compare_text, contains_chars, count_newlines_before, first_lines, join_lines,
    parse_u64, push_signed_decimal, same_str, split_newlines, to_chars, trim_chars,
    TextOrder,
};

fn s(v: &[char]) -> String {
    v.iter().collect()
}

#[test]
fn hex_encode_uppercase_spaced() {
    assert_eq!(hex_encode(&[0x00, 0xab, 0x10, 0xff]), "00 AB 10 FF");
    assert_eq!(hex_encode(&[]), "");
    assert_eq!(hex_encode(&[7]), "07");
}

#[test]
fn hex_lower_packed_pairs() {
    assert_eq!(hex_lower_packed(&[0xde, 0xad, 0x01]), "dead01");
}

#[test]
fn trim_and_collapse() {
    assert_eq!(s(&trim_chars(&to_chars("  a b \n"))), "a b");
    assert_eq!(s(&collapse_chars(&to_chars("  {\n  \"a\" :  1 }  "))), "{ \"a\" : 1 }");
    assert_eq!(s(&collapse_chars(&to_chars(" \t "))), "");
}

#[test]
fn parse_u64_accepts_plus_and_digits() {
    assert_eq!(parse_u64(&to_chars("+42")), Some(42));
    assert_eq!(parse_u64(&to_chars("18446744073709551615")), Some(u64::MAX));
    assert_eq!(parse_u64(&to_chars("18446744073709551616")), None);
    assert_eq!(parse_u64(&to_chars("")), None);
    assert_eq!(parse_u64(&to_chars("-1")), None);
    assert_eq!(parse_u64(&to_chars("1 ")), None);
}

#[test]
fn compare_and_contains() {
    assert_eq!(compare_text(&to_chars("abc"), &to_chars("abd")), TextOrder::Less);
    assert_eq!(compare_text(&to_chars("ab"), &to_chars("ab")), TextOrder::Equal);
    assert_eq!(compare_text(&to_chars("b"), &to_chars("abc")), TextOrder::Greater);
    assert!(contains_chars(&to_chars("hello"), &to_chars("ell")));
    assert!(!contains_chars(&to_chars("hello"), &to_chars("lo!")));
    assert!(same_str("x", "x"));
    assert!(!same_str("x", "y"));
}

#[test]
fn signed_decimal_text() {
    let mut out = Vec::new();
    push_signed_decimal(&mut out, i64::MIN);
    assert_eq!(s(&out), "-9223372036854775808");
    let mut out = Vec::new();
    push_signed_decimal(&mut out, 0);
    assert_eq!(s(&out), "0");
}

#[test]
fn lines_and_pieces() {
    let (text, more) = first_lines(&to_chars("a\r\nb\n\nc\n"), 2);
    assert_eq!(s(&text), "a\nb");
    assert!(more);
    let (text, more) = first_lines(&to_chars("a\nb\n"), 5);
    assert_eq!(s(&text), "a\nb");
    assert!(!more);
    let pieces = split_newlines(&to_chars("x\n\ny\n"));
    let pieces: Vec<String> = pieces.iter().map(|p| s(p)).collect();
    assert_eq!(pieces, vec!["x", "", "y", ""]);
    assert_eq!(s(&join_lines(&split_newlines(&to_chars("x\n\ny\n")), '\n')), "x\n\ny\n");
    assert_eq!(count_newlines_before(&to_chars("a\nb\nc"), 2), 1);
    assert_eq!(count_newlines_before(&to_chars("a\nb\nc"), 100), 2);
}

#[test]
fn thousands_groups_digits() {
    assert_eq!(thousands(0), "0");
    assert_eq!(thousands(999), "999");
    assert_eq!(thousands(1000), "1,000");
    assert_eq!(thousands(1234567), "1,234,567");
}

#[test]
fn date_and_first_char() {
    assert_eq!(date_only("2024-01-02 10:11:12"), "2024-01-02");
    assert_eq!(date_only("2024-01-02"), "2024-01-02");
    assert_eq!(first_char("Kafka"), "K");
    assert_eq!(first_char("星"), "星");
    assert_eq!(first_char(""), "?");
}

#[test]
fn design_view_mode_labels() {
    assert_eq!(hsr_frontend::design::ViewMode::Json.label(), "JSON");
    assert_eq!(hsr_frontend::design::ViewMode::Graph.label(), "Graph");
}

#[test]
fn spaced_hex_has_three_characters_a_byte_and_reads_back() {
    for bytes in [vec![], vec![0x00], vec![0x0a, 0xff, 0x10], (0..=255u8).collect::<Vec<u8>>()] {
        let text = hex_encode(&bytes);
        let n = bytes.len();
        assert_eq!(text.len(), if n == 0 { 0 } else { 3 * n - 1 });
        assert!(text.chars().all(|c| c.is_ascii_digit() || ('A'..='F').contains(&c) || c == ' '));
        if n > 0 {
            let back: Vec<u8> = text.split(' ').map(|t| u8::from_str_radix(t, 16).unwrap()).collect();
            assert_eq!(back, bytes);
        }
    }
}

#[test]
fn warp_history_status_and_icons() {
    assert_eq!(fetch_done_status(1234, 7), "Done — 1234 pulls, 7 × 5★.");
    assert_eq!(fetch_done_status(0, 0), "Done — 0 pulls, 0 × 5★.");
    let ids: Vec<String> = ["1308", "x", "23001", "+5", "4294967296", "", "4294967295"].iter().map(|s| s.to_string()).collect();
    assert_eq!(icon_ids(&ids), vec![1308, 23001, 5, 4294967295]);
}
