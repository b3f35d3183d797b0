use game_of_life::census::census;
use game_of_life::codec::{decode, encode, read_line, LoadError};
use game_of_life::grid::{CellState, Grid};
use game_of_life::random::init_random;
use game_of_life::text::{belongs, parse_number, scan, write_decimal, ByteClass};

fn with_cells(n: usize, cells: &[(usize, usize)]) -> Grid {
    let mut g = Grid::new(n);
    for &(r, c) in cells {
        g.set(r, c, CellState::Alive);
    }
    g
}

fn decimal_of(v: usize) -> String {
    let mut out = Vec::new();
    write_decimal(&mut out, v);
    String::from_utf8(out).unwrap()
}

#[test]
fn decode_marks_the_named_cells() {
    let g = decode(40, b"1 2\n3 4\n39 39").unwrap();
    assert_eq!(g.size(), 40);
    assert!(g.same_as(&with_cells(40, &[(1, 2), (3, 4), (39, 39)])));
    assert_eq!(census(&g), 3);
}

#[test]
fn decode_of_empty_text_is_all_dead() {
    let g = decode(40, b"").unwrap();
    assert!(g.same_as(&Grid::new(40)));
}

#[test]
fn decode_accepts_a_final_line_feed() {
    let g = decode(5, b"0 0\n4 4\n").unwrap();
    assert!(g.same_as(&with_cells(5, &[(0, 0), (4, 4)])));
}

#[test]
fn decode_accepts_a_cell_named_twice() {
    let g = decode(5, b"2 3\n2 3").unwrap();
    assert!(g.same_as(&with_cells(5, &[(2, 3)])));
}

#[test]
fn decode_accepts_any_white_space_between_and_around() {
    let g = decode(5, b"  1\t 2  \r\n\t3   4\r\n").unwrap();
    assert!(g.same_as(&with_cells(5, &[(1, 2), (3, 4)])));
    let g = decode(5, b"1\x0b2\n3\x0c4").unwrap();
    assert!(g.same_as(&with_cells(5, &[(1, 2), (3, 4)])));
}

#[test]
fn decode_accepts_a_plus_sign_and_leading_zeros() {
    let g = decode(5, b"+1 002\n000 +04").unwrap();
    assert!(g.same_as(&with_cells(5, &[(1, 2), (0, 4)])));
}

#[test]
fn line_with_one_token_is_malformed() {
    assert_eq!(decode(40, b"5").unwrap_err(), LoadError::Format);
    assert_eq!(decode(40, b"1 2\n7\n3 4").unwrap_err(), LoadError::Format);
}

#[test]
fn non_numeric_token_is_malformed() {
    assert_eq!(decode(40, b"a 1").unwrap_err(), LoadError::Format);
    assert_eq!(decode(40, b"1 b").unwrap_err(), LoadError::Format);
    assert_eq!(decode(40, b"1 2x").unwrap_err(), LoadError::Format);
    assert_eq!(decode(40, b"1.0 2").unwrap_err(), LoadError::Format);
    assert_eq!(decode(40, b"1,2").unwrap_err(), LoadError::Format);
    assert_eq!(decode(40, b"0x1 2").unwrap_err(), LoadError::Format);
}

#[test]
fn negative_number_is_malformed() {
    assert_eq!(decode(40, b"-1 0").unwrap_err(), LoadError::Format);
    assert_eq!(decode(40, b"0 -0").unwrap_err(), LoadError::Format);
}

#[test]
fn sign_without_digits_is_malformed() {
    assert_eq!(decode(40, b"+ 1").unwrap_err(), LoadError::Format);
    assert_eq!(decode(40, b"1 ++2").unwrap_err(), LoadError::Format);
}

#[test]
fn line_with_three_tokens_is_malformed() {
    assert_eq!(decode(40, b"1 2 3").unwrap_err(), LoadError::Format);
}

#[test]
fn blank_line_is_malformed() {
    assert_eq!(decode(40, b"1 2\n\n3 4").unwrap_err(), LoadError::Format);
    assert_eq!(decode(40, b"\n").unwrap_err(), LoadError::Format);
    assert_eq!(decode(40, b"1 2\n\n").unwrap_err(), LoadError::Format);
    assert_eq!(decode(40, b"1 2\n   ").unwrap_err(), LoadError::Format);
}

#[test]
fn row_equal_to_dimension_is_out_of_range() {
    assert_eq!(decode(40, b"40 0").unwrap_err(), LoadError::Range);
    let text = format!("{} 0", 75);
    assert_eq!(decode(75, text.as_bytes()).unwrap_err(), LoadError::Range);
}

#[test]
fn column_equal_to_dimension_is_out_of_range() {
    assert_eq!(decode(40, b"0 40").unwrap_err(), LoadError::Range);
    assert_eq!(decode(40, b"1 1\n39 40\n2 2").unwrap_err(), LoadError::Range);
}

#[test]
fn any_cell_is_out_of_range_on_the_empty_grid() {
    assert_eq!(decode(0, b"0 0").unwrap_err(), LoadError::Range);
    assert!(decode(0, b"").is_ok());
}

#[test]
fn number_beyond_the_machine_word_is_out_of_range() {
    assert_eq!(
        decode(40, b"99999999999999999999999999999999999999999999 0").unwrap_err(),
        LoadError::Range
    );
    assert_eq!(
        decode(40, b"0 18446744073709551616").unwrap_err(),
        LoadError::Range
    );
}

#[test]
fn malformed_line_counts_before_a_cell_out_of_range() {
    assert_eq!(decode(40, b"40 0\nx").unwrap_err(), LoadError::Format);
    assert_eq!(decode(40, b"x\n40 0").unwrap_err(), LoadError::Format);
    assert_eq!(decode(40, b"99 99\n1").unwrap_err(), LoadError::Format);
}

#[test]
fn encode_lists_live_cells_in_reading_order() {
    let g = with_cells(40, &[(10, 3), (2, 7), (2, 5), (39, 39), (0, 0)]);
    assert_eq!(encode(&g), b"0 0\n2 5\n2 7\n10 3\n39 39".to_vec());
}

#[test]
fn encode_of_all_dead_grid_is_empty() {
    assert_eq!(encode(&Grid::new(40)), Vec::<u8>::new());
}

#[test]
fn encode_of_one_cell_has_no_line_feed() {
    let g = with_cells(3, &[(1, 2)]);
    assert_eq!(encode(&g), b"1 2".to_vec());
}

#[test]
fn encode_then_decode_gives_the_same_grid() {
    let g = with_cells(40, &[(0, 0), (0, 39), (39, 0), (39, 39), (12, 34), (20, 20), (20, 21)]);
    let back = decode(40, &encode(&g)).unwrap();
    assert!(back.same_as(&g));
}

#[test]
fn round_trip_of_full_and_empty_grids() {
    let full = Grid::from_rows(&vec![vec![true; 12]; 12]).unwrap();
    assert!(decode(12, &encode(&full)).unwrap().same_as(&full));
    let empty = Grid::new(12);
    assert!(decode(12, &encode(&empty)).unwrap().same_as(&empty));
}

#[test]
fn round_trip_of_random_grids() {
    for n in [1usize, 2, 9, 40] {
        let g = init_random(n);
        let back = decode(n, &encode(&g)).unwrap();
        assert!(back.same_as(&g));
    }
}

#[test]
fn decode_then_encode_gives_the_canonical_text() {
    let g = decode(10, b" +3\t04 \r\n1 1\n3 4\n").unwrap();
    assert_eq!(encode(&g), b"1 1\n3 4".to_vec());
}

#[test]
fn read_line_gives_row_and_column() {
    assert_eq!(read_line(b"3 4", 40), Some((3, 4)));
    assert_eq!(read_line(b"  3   4  ", 40), Some((3, 4)));
    assert_eq!(read_line(b"39 0", 40), Some((39, 0)));
}

#[test]
fn read_line_caps_large_numbers() {
    assert_eq!(read_line(b"40 4", 40), Some((40, 4)));
    assert_eq!(read_line(b"41 400", 40), Some((40, 40)));
    assert_eq!(read_line(b"3 123456789012345678901234567890", 40), Some((3, 40)));
}

#[test]
fn read_line_refuses_other_lines() {
    assert_eq!(read_line(b"", 40), None);
    assert_eq!(read_line(b"   ", 40), None);
    assert_eq!(read_line(b"3", 40), None);
    assert_eq!(read_line(b"3 4 5", 40), None);
    assert_eq!(read_line(b"3 four", 40), None);
    assert_eq!(read_line(b"three 4", 40), None);
}

#[test]
fn parse_number_reads_decimal() {
    assert_eq!(parse_number(b"0", 100), Some(0));
    assert_eq!(parse_number(b"7", 100), Some(7));
    assert_eq!(parse_number(b"12", 100), Some(12));
    assert_eq!(parse_number(b"99", 100), Some(99));
    assert_eq!(parse_number(b"+42", 100), Some(42));
    assert_eq!(parse_number(b"0042", 100), Some(42));
    assert_eq!(parse_number(b"18446744073709551614", usize::MAX), Some(18446744073709551614));
}

#[test]
fn parse_number_caps_at_the_limit() {
    assert_eq!(parse_number(b"100", 100), Some(100));
    assert_eq!(parse_number(b"101", 100), Some(100));
    assert_eq!(parse_number(b"1000000", 100), Some(100));
    assert_eq!(parse_number(b"0", 0), Some(0));
    assert_eq!(parse_number(b"5", 0), Some(0));
    assert_eq!(parse_number(b"18446744073709551615", usize::MAX), Some(usize::MAX));
    assert_eq!(parse_number(b"18446744073709551616", usize::MAX), Some(usize::MAX));
    assert_eq!(parse_number(b"340282366920938463463374607431768211456", 100), Some(100));
}

#[test]
fn parse_number_refuses_what_is_no_number() {
    assert_eq!(parse_number(b"", 100), None);
    assert_eq!(parse_number(b"+", 100), None);
    assert_eq!(parse_number(b"-1", 100), None);
    assert_eq!(parse_number(b"1+", 100), None);
    assert_eq!(parse_number(b"++1", 100), None);
    assert_eq!(parse_number(b"12a", 100), None);
    assert_eq!(parse_number(b"a12", 100), None);
    assert_eq!(parse_number(b"1 2", 100), None);
    assert_eq!(parse_number(b"999999999999999999999999x", 100), None);
    assert_eq!(parse_number(&[0x31, 0xc2, 0xa0], 100), None);
}

#[test]
fn write_decimal_writes_digits() {
    assert_eq!(decimal_of(0), "0");
    assert_eq!(decimal_of(9), "9");
    assert_eq!(decimal_of(10), "10");
    assert_eq!(decimal_of(39), "39");
    assert_eq!(decimal_of(12345), "12345");
    assert_eq!(decimal_of(usize::MAX), usize::MAX.to_string());
}

#[test]
fn write_decimal_appends() {
    let mut out = b"x=".to_vec();
    write_decimal(&mut out, 407);
    assert_eq!(out, b"x=407".to_vec());
}

#[test]
fn written_numbers_are_read_back() {
    for v in [0usize, 1, 9, 10, 11, 99, 100, 101, 65535, 4294967296] {
        let mut out = Vec::new();
        write_decimal(&mut out, v);
        assert_eq!(parse_number(&out, usize::MAX), Some(v));
    }
}

#[test]
fn scan_runs_over_one_class() {
    let text = b"  ab \ncd";
    assert_eq!(scan(text, 0, ByteClass::Space), 2);
    assert_eq!(scan(text, 0, ByteClass::Word), 0);
    assert_eq!(scan(text, 2, ByteClass::Word), 4);
    assert_eq!(scan(text, 4, ByteClass::Space), 6);
    assert_eq!(scan(text, 0, ByteClass::Line), 5);
    assert_eq!(scan(text, 5, ByteClass::Line), 5);
    assert_eq!(scan(text, 6, ByteClass::Line), 8);
    assert_eq!(scan(text, 8, ByteClass::Line), 8);
    assert_eq!(scan(b"", 0, ByteClass::Word), 0);
}

#[test]
fn belongs_tells_the_classes_apart() {
    for b in [b' ', b'\t', b'\n', 0x0b, 0x0c, b'\r'] {
        assert!(belongs(ByteClass::Space, b));
        assert!(!belongs(ByteClass::Word, b));
    }
    for b in [b'0', b'9', b'a', b'+', 0x00, 0x08, 0x0e, 0x1f, 0x21, 0x7f, 0x85, 0xa0, 0xff] {
        assert!(!belongs(ByteClass::Space, b));
        assert!(belongs(ByteClass::Word, b));
    }
    assert!(!belongs(ByteClass::Line, b'\n'));
    assert!(belongs(ByteClass::Line, b'\r'));
    assert!(belongs(ByteClass::Line, b' '));
    assert!(belongs(ByteClass::Line, b'7'));
}
