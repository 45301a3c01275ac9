use game_2048::saved_score::{format_best_score, parse_best_score};

#[test]
fn plain_number_is_read() {
    assert_eq!(parse_best_score("0"), 0);
    assert_eq!(parse_best_score("7"), 7);
    assert_eq!(parse_best_score("2048"), 2048);
    assert_eq!(parse_best_score("4294967295"), u32::MAX);
    assert_eq!(parse_best_score("0002048"), 2048);
}

#[test]
fn white_space_around_the_number_is_passed_over() {
    assert_eq!(parse_best_score("  512\n"), 512);
    assert_eq!(parse_best_score("\t\r\n 16 \u{a0}\u{3000}"), 16);
    assert_eq!(parse_best_score("\u{2003}99\u{85}"), 99);
}

#[test]
fn plus_sign_in_front_is_taken() {
    assert_eq!(parse_best_score("+12"), 12);
    assert_eq!(parse_best_score(" +12 "), 12);
}

#[test]
fn text_without_a_number_counts_as_zero() {
    assert_eq!(parse_best_score(""), 0);
    assert_eq!(parse_best_score("   "), 0);
    assert_eq!(parse_best_score("+"), 0);
    assert_eq!(parse_best_score("-5"), 0);
    assert_eq!(parse_best_score("++5"), 0);
    assert_eq!(parse_best_score("+ 5"), 0);
    assert_eq!(parse_best_score("12 34"), 0);
    assert_eq!(parse_best_score("12a"), 0);
    assert_eq!(parse_best_score("a12"), 0);
    assert_eq!(parse_best_score("1.5"), 0);
    assert_eq!(parse_best_score("0x10"), 0);
    assert_eq!(parse_best_score("\u{661}\u{662}"), 0);
    assert_eq!(parse_best_score("score: 12"), 0);
}

#[test]
fn number_too_large_counts_as_zero() {
    assert_eq!(parse_best_score("4294967296"), 0);
    assert_eq!(parse_best_score("99999999999999999999999"), 0);
    assert_eq!(parse_best_score("42949672950"), 0);
}

#[test]
fn number_is_read_as_the_standard_library_reads_it() {
    let texts = [
        "", " ", "0", "1", "+1", "-1", "+", "12 ", " 12", "1 2", "\u{ff14}\u{ff12}",
        "4294967295", "4294967296", "00000000000000000001", "\u{2000}3\u{205f}", "3\u{200b}",
        "\u{661}\u{662}", "1e3", "\u{1680}8\u{2028}\u{2029}\u{202f}", "\u{b}\u{c}9",
    ];
    for text in texts {
        let expected = text.trim().parse::<u32>().unwrap_or(0);
        assert_eq!(parse_best_score(text), expected, "text {:?}", text);
    }
}

#[test]
fn number_is_written_in_decimal() {
    assert_eq!(format_best_score(0), "0");
    assert_eq!(format_best_score(9), "9");
    assert_eq!(format_best_score(10), "10");
    assert_eq!(format_best_score(2048), "2048");
    assert_eq!(format_best_score(1_000_000), "1000000");
    assert_eq!(format_best_score(u32::MAX), "4294967295");
}

#[test]
fn written_number_is_read_back() {
    let mut score: u32 = 1;
    for _ in 0..200 {
        assert_eq!(parse_best_score(&format_best_score(score)), score);
        assert_eq!(format_best_score(score), score.to_string());
        score = score.wrapping_mul(2_654_435_761).wrapping_add(12_345);
    }
    for score in [0, 1, 9, 10, 99, 100, u32::MAX - 1, u32::MAX] {
        assert_eq!(parse_best_score(&format_best_score(score)), score);
    }
}
