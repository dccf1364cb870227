use opsin::cube::is_white;
use opsin::error::ParseError;
use opsin::lut3d::{Lut3D, Triplet};

fn bits(v: [f32; 3]) -> Triplet {
    Triplet { r: v[0].to_bits(), g: v[1].to_bits(), b: v[2].to_bits() }
}

fn data_lines(count: usize) -> String {
    let mut text = String::new();
    for i in 0..count {
        text.push_str(&format!("{} {} {}\n", i as f32 / 100.0, 0.5, 1.0 - i as f32 / 200.0));
    }
    text
}

#[test]
fn a_plain_cube_is_read() {
    let text = "TITLE \"test\"\n# a comment\nLUT_3D_SIZE 2\nDOMAIN_MIN 0.0 0.1 0.2\nDOMAIN_MAX 1.0 0.9 0.8\n\n0 0 0\n1 0 0\n0 1 0\n1 1 0\n0 0 1\n1 0 1\n0 1 1\n1 1 1\n";
    let lut = Lut3D::from_cube(text).unwrap();
    assert_eq!(lut.size(), 2);
    assert_eq!(lut.samples().len(), 8);
    assert_eq!(lut.domain_min(), bits([0.0, 0.1, 0.2]));
    assert_eq!(lut.domain_max(), bits([1.0, 0.9, 0.8]));
    assert_eq!(lut.samples()[1], bits([1.0, 0.0, 0.0]));
    assert_eq!(lut.samples()[2], bits([0.0, 1.0, 0.0]));
    assert_eq!(lut.samples()[4], bits([0.0, 0.0, 1.0]));
    assert_eq!(lut.sample_at(1, 0, 0), bits([1.0, 0.0, 0.0]));
    assert_eq!(lut.sample_at(0, 1, 0), bits([0.0, 1.0, 0.0]));
    assert_eq!(lut.sample_at(0, 0, 1), bits([0.0, 0.0, 1.0]));
}

#[test]
fn the_domain_defaults_to_the_unit_cube() {
    let lut = Lut3D::from_cube("LUT_3D_SIZE 1\n0.25 0.5 0.75").unwrap();
    assert_eq!(lut.domain_min(), bits([0.0; 3]));
    assert_eq!(lut.domain_max(), bits([1.0; 3]));
    assert_eq!(lut.samples()[0], bits([0.25, 0.5, 0.75]));
}

#[test]
fn every_size_with_its_cube_of_lines_is_read() {
    for n in 1usize..=9 {
        let text = format!("LUT_3D_SIZE {}\n{}", n, data_lines(n * n * n));
        let lut = Lut3D::from_cube(&text).unwrap();
        assert_eq!(lut.size(), n);
        assert_eq!(lut.samples().len(), n * n * n);
        for (i, t) in lut.samples().iter().enumerate() {
            assert_eq!(*t, bits([i as f32 / 100.0, 0.5, 1.0 - i as f32 / 200.0]));
        }
    }
}

#[test]
fn a_missing_line_is_a_size_mismatch() {
    let text = format!("LUT_3D_SIZE 3\n{}", data_lines(26));
    assert!(matches!(
        Lut3D::from_cube(&text),
        Err(ParseError::SizeMismatch { size: 3, found: 26 })
    ));
    let text = format!("LUT_3D_SIZE 3\n{}", data_lines(28));
    assert!(matches!(
        Lut3D::from_cube(&text),
        Err(ParseError::SizeMismatch { size: 3, found: 28 })
    ));
    let text = format!("LUT_3D_SIZE 3\n{}", data_lines(27));
    assert!(Lut3D::from_cube(&text).is_ok());
}

#[test]
fn a_token_that_is_no_number_is_reported() {
    let text = "LUT_3D_SIZE 1\n0.1 abc 0.3\n";
    match Lut3D::from_cube(text) {
        Err(ParseError::MalformedNumber { line, token }) => {
            assert_eq!(line, 2);
            assert_eq!(token, "abc");
        }
        other => panic!("{:?}", other.map(|_| ())),
    }
}

#[test]
fn the_first_malformed_token_in_file_order_is_reported() {
    let text = "# c\n\nLUT_3D_SIZE 2\n0 0 0\n  0.5\t1..2 x7 \n0 zz 0\n";
    match Lut3D::from_cube(text) {
        Err(ParseError::MalformedNumber { line, token }) => {
            assert_eq!(line, 5);
            assert_eq!(token, "1..2");
        }
        other => panic!("{:?}", other.map(|_| ())),
    }
}

#[test]
fn a_malformed_token_comes_before_the_count_and_the_size() {
    // no size line at all, and a bad token: the token is what is reported
    match Lut3D::from_cube("0 0 nope\n") {
        Err(ParseError::MalformedNumber { line, token }) => {
            assert_eq!(line, 1);
            assert_eq!(token, "nope");
        }
        other => panic!("{:?}", other.map(|_| ())),
    }
}

#[test]
fn malformed_domain_values_are_reported() {
    match Lut3D::from_cube("LUT_3D_SIZE 1\nDOMAIN_MIN 0 0,5 0\n0 0 0\n") {
        Err(ParseError::MalformedNumber { line, token }) => {
            assert_eq!(line, 2);
            assert_eq!(token, "0,5");
        }
        other => panic!("{:?}", other.map(|_| ())),
    }
    match Lut3D::from_cube("LUT_3D_SIZE 1\n0 0 0\nDOMAIN_MAX 1 1 1 1e\n") {
        Err(ParseError::MalformedNumber { line, token }) => {
            assert_eq!(line, 3);
            assert_eq!(token, "1e");
        }
        other => panic!("{:?}", other.map(|_| ())),
    }
}

#[test]
fn a_missing_or_zero_size_is_reported() {
    assert!(matches!(Lut3D::from_cube(""), Err(ParseError::MissingSize)));
    assert!(matches!(Lut3D::from_cube("0 0 0\n"), Err(ParseError::MissingSize)));
    assert!(matches!(Lut3D::from_cube("LUT_3D_SIZE 0\n"), Err(ParseError::MissingSize)));
    assert!(matches!(Lut3D::from_cube("LUT_3D_SIZE\n0 0 0\n"), Err(ParseError::MissingSize)));
    assert!(matches!(Lut3D::from_cube("LUT_3D_SIZE two\n0 0 0\n"), Err(ParseError::MissingSize)));
    assert!(matches!(Lut3D::from_cube("LUT_3D_SIZE -1\n0 0 0\n"), Err(ParseError::MissingSize)));
    assert!(matches!(Lut3D::from_cube("LUT_3D_SIZE 1.0\n0 0 0\n"), Err(ParseError::MissingSize)));
    assert!(matches!(
        Lut3D::from_cube("LUT_3D_SIZE 99999999999999999999999999\n0 0 0\n"),
        Err(ParseError::MissingSize)
    ));
}

#[test]
fn the_size_is_read_as_the_standard_library_reads_it() {
    for token in ["1", "+1", "01", "001", "+001"] {
        let text = format!("LUT_3D_SIZE {}\n0 0 0\n", token);
        assert!(Lut3D::from_cube(&text).is_ok(), "{}", token);
        assert_eq!(token.parse::<usize>().ok(), Some(1));
    }
    for token in ["+", "-", "1+", "++1", "1_0", "0x1", "١", "1e0", ""] {
        let text = format!("LUT_3D_SIZE {}\n0 0 0\n", token);
        assert!(matches!(Lut3D::from_cube(&text), Err(ParseError::MissingSize)), "{}", token);
        assert!(token.parse::<usize>().is_err());
    }
    let max = format!("LUT_3D_SIZE {}\n0 0 0\n", usize::MAX);
    assert!(matches!(
        Lut3D::from_cube(&max),
        Err(ParseError::SizeMismatch { size: usize::MAX, found: 1 })
    ));
}

#[test]
fn the_last_size_line_counts() {
    let text = "LUT_3D_SIZE 5\nLUT_3D_SIZE 1\n0 0 0\n";
    assert_eq!(Lut3D::from_cube(text).unwrap().size(), 1);
    let text = "LUT_3D_SIZE 1\n0 0 0\nLUT_3D_SIZE oops\n";
    assert!(matches!(Lut3D::from_cube(text), Err(ParseError::MissingSize)));
    let text = "LUT_3D_SIZE 1\n0 0 0\nLUT_3D_SIZE\n";
    assert_eq!(Lut3D::from_cube(text).unwrap().size(), 1);
}

#[test]
fn lines_are_matched_by_their_beginning() {
    let text = "LUT_3D_SIZE_NOW 1 9\nDOMAIN_MINIMUM 0.5 0.5 0.5\nDOMAIN_MAXX 2 2 2\nTITLES x y\n#0 0 zz\n0 0 0\n";
    let lut = Lut3D::from_cube(text).unwrap();
    assert_eq!(lut.size(), 1);
    assert_eq!(lut.domain_min(), bits([0.5; 3]));
    assert_eq!(lut.domain_max(), bits([2.0; 3]));
    // the words are matched in upper case only
    assert!(matches!(
        Lut3D::from_cube("lut_3d_size 1\n0 0 0\n"),
        Err(ParseError::MalformedNumber { line: 1, .. })
    ));
}

#[test]
fn lines_without_three_numbers_add_nothing() {
    let text = "LUT_3D_SIZE 1\n0.5\n0.5 0.5\n1 2 3 4\n0.25 0.5 0.75\nDOMAIN_MIN 0.1 0.2\nDOMAIN_MAX 1 2 3 4\nDOMAIN_MIN\n";
    let lut = Lut3D::from_cube(text).unwrap();
    assert_eq!(lut.samples().len(), 1);
    assert_eq!(lut.samples()[0], bits([0.25, 0.5, 0.75]));
    assert_eq!(lut.domain_min(), bits([0.0; 3]));
    assert_eq!(lut.domain_max(), bits([1.0; 3]));
}

#[test]
fn white_space_of_every_kind_separates_tokens() {
    let text = "\u{feff}";
    assert!(matches!(
        Lut3D::from_cube(text),
        Err(ParseError::MalformedNumber { line: 1, .. })
    ));
    let text = "  LUT_3D_SIZE\u{a0}1\r\n\t0.1\u{2003}0.2\u{3000}0.3 \r\n\u{85}\u{2028}\r\n\r";
    let lut = Lut3D::from_cube(text).unwrap();
    assert_eq!(lut.size(), 1);
    assert_eq!(lut.samples()[0], bits([0.1, 0.2, 0.3]));
    let text = "LUT_3D_SIZE 1\u{b}\u{c}\n0\u{1680}0\u{202f}0\u{205f}";
    assert!(Lut3D::from_cube(text).is_ok());
}

#[test]
fn white_space_is_what_the_standard_library_calls_so() {
    for code in 0u32..=0x10ffff {
        if let Some(c) = char::from_u32(code) {
            assert_eq!(is_white(c), c.is_whitespace(), "{:#x}", code);
        }
    }
}

#[test]
fn special_numbers_are_samples_too() {
    let text = "LUT_3D_SIZE 1\ninf -Infinity NaN\n";
    let lut = Lut3D::from_cube(text).unwrap();
    let t = lut.samples()[0];
    assert_eq!(t.r, f32::INFINITY.to_bits());
    assert_eq!(t.g, f32::NEG_INFINITY.to_bits());
    assert!(f32::from_bits(t.b).is_nan());
    assert_eq!(lut.apply_lut(0, 0, 0), [255, 0, 0]);
    // an infinite sample times a weight of zero is no number
    assert_eq!(lut.apply_lut_trilinear(9, 9, 9), [0, 0, 0]);
}

#[test]
fn samples_are_the_numbers_that_the_standard_library_reads() {
    let mut text = String::from("LUT_3D_SIZE 4\n");
    let mut expected = Vec::new();
    let mut state: u64 = 9;
    for _ in 0..64 {
        let mut v = [0f32; 3];
        let mut line = String::new();
        for c in v.iter_mut() {
            state = state.wrapping_mul(6364136223846793005).wrapping_add(1442695040888963407);
            let token = format!("{}.{:06}", (state >> 60) % 2, (state >> 20) % 1_000_000);
            *c = token.parse::<f32>().unwrap();
            line.push_str(&token);
            line.push(' ');
        }
        expected.push(bits(v));
        text.push_str(&line);
        text.push('\n');
    }
    let lut = Lut3D::from_cube(&text).unwrap();
    assert_eq!(lut.samples(), &expected);
}
