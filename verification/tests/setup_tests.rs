use kzg_setup::{
    format_kzg_settings, G1Points, G2Points, KzgErrors, BYTES_PER_G1_POINT, BYTES_PER_G2_POINT,
    NUM_G1_POINTS, NUM_G2_POINTS,
};
use kzg_setup::setup::{encode_setup_text, parse_setup_bytes};

fn g1_line(byte: &str) -> String {
    byte.repeat(BYTES_PER_G1_POINT)
}

fn g2_line(byte: &str) -> String {
    byte.repeat(BYTES_PER_G2_POINT)
}

fn g2_block() -> String {
    let mut s = String::new();
    for _ in 0..NUM_G2_POINTS {
        s.push_str(&g2_line("22"));
        s.push('\n');
    }
    s
}

fn example_input() -> String {
    let mut s = String::from("2\n65\n");
    s.push_str(&g1_line("00"));
    s.push('\n');
    s.push_str(&g1_line("11"));
    s.push('\n');
    s.push_str(&g2_block());
    s
}

#[test]
fn parses_example_input() {
    let (g1, g2) = format_kzg_settings(&example_input()).unwrap();
    assert_eq!(g1.0.len(), NUM_G1_POINTS);
    assert_eq!(g2.0.len(), NUM_G2_POINTS);
    assert_eq!(g1.0[0], vec![0x00u8; BYTES_PER_G1_POINT]);
    assert_eq!(g1.0[1], vec![0x11u8; BYTES_PER_G1_POINT]);
    for i in 2..NUM_G1_POINTS {
        assert_eq!(g1.0[i], vec![0u8; BYTES_PER_G1_POINT]);
    }
    for i in 0..NUM_G2_POINTS {
        assert_eq!(g2.0[i], vec![0x22u8; BYTES_PER_G2_POINT]);
    }
}

#[test]
fn zero_g1_points_is_valid() {
    let input = format!("0\n65\n{}", g2_block());
    let (g1, g2) = format_kzg_settings(&input).unwrap();
    assert_eq!(*g1, G1Points::default());
    assert_eq!(g2.0[64], vec![0x22u8; BYTES_PER_G2_POINT]);
}

#[test]
fn mismatched_g2_count_fails_regardless_of_rest() {
    let input = format!("2\n64\n{}", g2_block());
    assert!(matches!(
        format_kzg_settings(&input),
        Err(KzgErrors::MismatchedNumberOfPoints)
    ));
    // nothing after the two counts, still the same error
    assert!(matches!(
        format_kzg_settings("0\n64\n"),
        Err(KzgErrors::MismatchedNumberOfPoints)
    ));
}

#[test]
fn non_integer_first_line_fails() {
    assert!(matches!(
        format_kzg_settings("abc\n65\n"),
        Err(KzgErrors::ParseError)
    ));
}

#[test]
fn non_integer_second_line_fails() {
    assert!(matches!(
        format_kzg_settings("2\nxyz\n"),
        Err(KzgErrors::ParseError)
    ));
}

#[test]
fn count_too_large_for_usize_fails() {
    let input = format!("99999999999999999999999999\n65\n{}", g2_block());
    assert!(matches!(
        format_kzg_settings(&input),
        Err(KzgErrors::ParseError)
    ));
}

#[test]
fn leading_plus_sign_is_accepted() {
    let input = format!("+1\n65\n{}\n{}", g1_line("ab"), g2_block());
    let (g1, _) = format_kzg_settings(&input).unwrap();
    assert_eq!(g1.0[0], vec![0xabu8; BYTES_PER_G1_POINT]);
}

#[test]
fn missing_point_lines_fail() {
    let input = format!("2\n65\n{}\n", g1_line("00"));
    assert!(matches!(
        format_kzg_settings(&input),
        Err(KzgErrors::FileFormatError)
    ));
}

#[test]
fn missing_g2_lines_fail() {
    let input = "1\n65\n".to_string() + &g1_line("00") + "\n";
    assert!(matches!(
        format_kzg_settings(&input),
        Err(KzgErrors::FileFormatError)
    ));
}

#[test]
fn empty_input_fails() {
    assert!(matches!(
        format_kzg_settings(""),
        Err(KzgErrors::FileFormatError)
    ));
}

#[test]
fn trailing_nonempty_line_fails() {
    let input = format!("{}junk", example_input());
    assert!(matches!(
        format_kzg_settings(&input),
        Err(KzgErrors::FileFormatError)
    ));
}

#[test]
fn trailing_empty_line_fails() {
    let input = format!("{}\n", example_input());
    assert!(matches!(
        format_kzg_settings(&input),
        Err(KzgErrors::FileFormatError)
    ));
}

#[test]
fn hex_line_of_wrong_length_fails() {
    let mut short = g1_line("00");
    short.pop();
    let input = format!("1\n65\n{}\n{}", short, g2_block());
    assert!(matches!(
        format_kzg_settings(&input),
        Err(KzgErrors::ParseError)
    ));
}

#[test]
fn hex_line_with_invalid_character_fails() {
    let mut bad = g1_line("00");
    bad.replace_range(0..1, "g");
    let input = format!("1\n65\n{}\n{}", bad, g2_block());
    assert!(matches!(
        format_kzg_settings(&input),
        Err(KzgErrors::ParseError)
    ));
}

#[test]
fn carriage_return_is_not_stripped() {
    let input = format!("1\r\n65\n{}\n{}", g1_line("00"), g2_block());
    assert!(matches!(
        format_kzg_settings(&input),
        Err(KzgErrors::ParseError)
    ));
}

#[test]
fn upper_and_mixed_case_hex_is_accepted() {
    let input = format!("1\n65\n{}\n{}", g1_line("Fe"), g2_block());
    let (g1, _) = format_kzg_settings(&input).unwrap();
    assert_eq!(g1.0[0], vec![0xfeu8; BYTES_PER_G1_POINT]);
}

#[test]
fn g1_count_beyond_capacity_fails() {
    let input = format!("4097\n65\n{}", g2_block());
    assert!(matches!(
        format_kzg_settings(&input),
        Err(KzgErrors::FileFormatError)
    ));
    // the capacity itself is within bounds: the G2-sized lines are then read
    // as G1 lines and fail hex decoding at their length
    let input = format!("4096\n65\n{}", g2_block());
    assert!(matches!(
        format_kzg_settings(&input),
        Err(KzgErrors::ParseError)
    ));
}

#[test]
fn default_point_sets_have_expected_dimensions() {
    let g1 = G1Points::default();
    assert_eq!(g1.0.len(), NUM_G1_POINTS);
    for row in &g1.0 {
        assert_eq!(row, &vec![0u8; BYTES_PER_G1_POINT]);
    }
    let g2 = G2Points::default();
    assert_eq!(g2.0.len(), NUM_G2_POINTS);
    for row in &g2.0 {
        assert_eq!(row, &vec![0u8; BYTES_PER_G2_POINT]);
    }
}

#[test]
fn encode_writes_expected_text() {
    let g1 = G1Points::default();
    let g2 = G2Points::default();
    let bytes = encode_setup_text(&g1, &g2, 0);
    let text = String::from_utf8(bytes).unwrap();
    let expected = format!("0\n65\n{}", format!("{}\n", "00".repeat(96)).repeat(65));
    assert_eq!(text, expected);
}

#[test]
fn encode_then_parse_round_trips() {
    let (g1, g2) = format_kzg_settings(&example_input()).unwrap();
    let bytes = encode_setup_text(&g1, &g2, 2);
    let text = String::from_utf8(bytes).unwrap();
    let (g1_again, g2_again) = format_kzg_settings(&text).unwrap();
    assert_eq!(*g1, *g1_again);
    assert_eq!(*g2, *g2_again);
}

#[test]
fn parse_setup_bytes_matches_str_parser() {
    let input = example_input();
    let from_bytes = parse_setup_bytes(input.as_bytes()).unwrap();
    let from_str = format_kzg_settings(&input).unwrap();
    assert_eq!(*from_bytes.0, *from_str.0);
    assert_eq!(*from_bytes.1, *from_str.1);
}

#[test]
fn from_flat_bytes_cuts_chunks_in_order() {
    let mut blob = Vec::new();
    for i in 0..NUM_G1_POINTS {
        blob.extend(std::iter::repeat((i % 251) as u8).take(BYTES_PER_G1_POINT));
    }
    let g1 = G1Points::from_flat_bytes(&blob);
    assert_eq!(g1.0.len(), NUM_G1_POINTS);
    assert_eq!(g1.0[0], vec![0u8; BYTES_PER_G1_POINT]);
    assert_eq!(g1.0[1], vec![1u8; BYTES_PER_G1_POINT]);
    assert_eq!(g1.0[4095], vec![(4095 % 251) as u8; BYTES_PER_G1_POINT]);

    let mut blob2 = Vec::new();
    for i in 0..NUM_G2_POINTS {
        blob2.extend(std::iter::repeat(i as u8).take(BYTES_PER_G2_POINT));
    }
    let g2 = G2Points::from_flat_bytes(&blob2);
    assert_eq!(g2.0.len(), NUM_G2_POINTS);
    assert_eq!(g2.0[64], vec![64u8; BYTES_PER_G2_POINT]);
}

#[test]
fn error_messages_match_their_variants() {
    assert_eq!(
        KzgErrors::FileFormatError.message(),
        "File is not properly formatted"
    );
    assert_eq!(KzgErrors::ParseError.message(), "Not able to parse to usize");
    assert_eq!(
        KzgErrors::MismatchedNumberOfPoints.message(),
        "Number of points does not match what is expected"
    );
    assert_eq!(KzgErrors::IOError.message(), "Problems related to I/O");
}
