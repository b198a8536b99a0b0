use bf_interp::numeral::{chars_of, is_space_char, parse_cell, user_input};

fn by_std(line: &str) -> u8 {
    line.trim().parse().unwrap_or(0)
}

#[test]
fn plain_numbers_are_read() {
    assert_eq!(parse_cell("0"), 0);
    assert_eq!(parse_cell("7"), 7);
    assert_eq!(parse_cell("42"), 42);
    assert_eq!(parse_cell("255"), 255);
}

#[test]
fn leading_zeros_do_not_count() {
    assert_eq!(parse_cell("007"), 7);
    assert_eq!(parse_cell("0000000000000000000000000255"), 255);
    assert_eq!(parse_cell("0000000000000000000000000256"), 0);
}

#[test]
fn a_plus_sign_may_stand_first() {
    assert_eq!(parse_cell("+5"), 5);
    assert_eq!(parse_cell("+255"), 255);
    assert_eq!(parse_cell("+"), 0);
    assert_eq!(parse_cell("++5"), 0);
    assert_eq!(parse_cell("5+"), 0);
    assert_eq!(parse_cell("+ 5"), 0);
}

#[test]
fn a_minus_sign_is_no_part_of_a_number() {
    assert_eq!(parse_cell("-5"), 0);
    assert_eq!(parse_cell("-0"), 0);
    assert_eq!(parse_cell("-"), 0);
}

#[test]
fn numbers_beyond_a_cell_count_as_zero() {
    assert_eq!(parse_cell("256"), 0);
    assert_eq!(parse_cell("260"), 0);
    assert_eq!(parse_cell("1000"), 0);
    assert_eq!(parse_cell("4294967296"), 0);
    assert_eq!(parse_cell("4294967297"), 0);
    assert_eq!(parse_cell("99999999999999999999999999999999999999"), 0);
}

#[test]
fn white_space_at_the_ends_is_dropped() {
    assert_eq!(parse_cell("12\n"), 12);
    assert_eq!(parse_cell("12\r\n"), 12);
    assert_eq!(parse_cell("  \t12 \n"), 12);
    assert_eq!(parse_cell("\u{a0}12\u{3000}"), 12);
    assert_eq!(parse_cell("\u{2003}+9\u{85}"), 9);
}

#[test]
fn white_space_inside_spoils_the_number() {
    assert_eq!(parse_cell("1 2"), 0);
    assert_eq!(parse_cell("1\t2"), 0);
}

#[test]
fn lines_without_a_number_count_as_zero() {
    assert_eq!(parse_cell(""), 0);
    assert_eq!(parse_cell("\n"), 0);
    assert_eq!(parse_cell("   "), 0);
    assert_eq!(parse_cell("abc"), 0);
    assert_eq!(parse_cell("12a"), 0);
    assert_eq!(parse_cell("a12"), 0);
    assert_eq!(parse_cell("1.5"), 0);
    assert_eq!(parse_cell("0x10"), 0);
    assert_eq!(parse_cell("\u{663}"), 0);
    assert_eq!(parse_cell("\u{ff11}"), 0);
}

#[test]
fn parse_cell_agrees_with_trim_and_parse() {
    let pieces = [
        "", " ", "\t", "\n", "\r\n", "\u{a0}", "\u{200b}", "+", "-", "0", "1", "9", "25", "255",
        "256", "a", "\u{e9}", "00",
    ];
    for a in pieces {
        for b in pieces {
            for c in pieces {
                let line = format!("{}{}{}", a, b, c);
                assert_eq!(parse_cell(&line), by_std(&line), "line {:?}", line);
            }
        }
    }
}

#[test]
fn every_number_a_cell_can_hold_is_read_back() {
    for value in 0..=255u8 {
        assert_eq!(parse_cell(&format!("{}", value)), value);
        assert_eq!(parse_cell(&format!(" +{}\n", value)), value);
    }
    for value in 256..2000u32 {
        assert_eq!(parse_cell(&format!("{}", value)), 0);
    }
}

#[test]
fn white_space_is_what_std_calls_white_space() {
    for code in 0..=0x10FFFFu32 {
        if let Some(c) = char::from_u32(code) {
            assert_eq!(is_space_char(c), c.is_whitespace(), "code point {:#x}", code);
        }
    }
}

#[test]
fn chars_of_gives_every_character() {
    assert_eq!(chars_of(""), Vec::<char>::new());
    assert_eq!(chars_of("a+\n"), vec!['a', '+', '\n']);
    assert_eq!(chars_of("\u{e9}\u{4e16}\u{1f600}"), vec!['\u{e9}', '\u{4e16}', '\u{1f600}']);
}

#[test]
fn user_input_stores_the_value_of_the_line() {
    let mut cell = 9;
    user_input(&mut cell, "77\n");
    assert_eq!(cell, 77);
    user_input(&mut cell, "seventy");
    assert_eq!(cell, 0);
}
