use opsin::decimal::parse_number;

fn same(ours: Option<u32>, theirs: Result<f32, std::num::ParseFloatError>) -> bool {
    match (ours, theirs) {
        (None, Err(_)) => true,
        (Some(bits), Ok(x)) => {
            if x.is_nan() {
                (bits & 0x7fff_ffff) > 0x7f80_0000
            } else {
                bits == x.to_bits()
            }
        }
        _ => false,
    }
}

fn check(text: &str) {
    assert!(same(parse_number(text), text.parse::<f32>()), "{:?}", text);
}

struct Dice {
    state: u64,
}

impl Dice {
    fn next(&mut self) -> u64 {
        self.state = self.state.wrapping_mul(6364136223846793005).wrapping_add(1442695040888963407);
        let x = self.state;
        (x ^ (x >> 29)).wrapping_mul(0x9E3779B97F4A7C15) ^ (x >> 32)
    }

    fn below(&mut self, n: u64) -> u64 {
        self.next() % n
    }
}

#[test]
fn plain_numbers_are_read() {
    assert_eq!(parse_number("0"), Some(0));
    assert_eq!(parse_number("1"), Some(0x3f80_0000));
    assert_eq!(parse_number("1.0"), Some(0x3f80_0000));
    assert_eq!(parse_number("-1"), Some(0xbf80_0000));
    assert_eq!(parse_number("0.5"), Some(0x3f00_0000));
    assert_eq!(parse_number("255"), Some(0x437f_0000));
    assert_eq!(parse_number("0.1"), Some(0x3dcc_cccd));
    assert_eq!(parse_number("-0"), Some(0x8000_0000));
    assert_eq!(parse_number("1e2"), Some(100f32.to_bits()));
    assert_eq!(parse_number("1E-2"), Some(0.01f32.to_bits()));
    assert_eq!(parse_number("+.5e+1"), Some(5f32.to_bits()));
    assert_eq!(parse_number("5."), Some(5f32.to_bits()));
    assert_eq!(parse_number("3.4028235e38"), Some(0x7f7f_ffff));
    assert_eq!(parse_number("3.4028236e38"), Some(0x7f80_0000));
    assert_eq!(parse_number("1e-45"), Some(1));
    assert_eq!(parse_number("7e-46"), Some(0));
    assert_eq!(parse_number("7.1e-46"), Some(1));
}

#[test]
fn the_grammar_is_that_of_the_standard_library() {
    for text in [
        "", "+", "-", ".", "+.", "-.", "e", "e5", ".e5", "1e", "1e+", "1e-", "1e+-5", "1.5.2",
        "1,5", "0x10", "1_000", "1f", " 1", "1 ", "--1", "+-1", "1e5.5", "1e5e5", "1.e5", "1.e",
        ".5", "5.", "05", "0005.5000", "1E5", "1e05", "1e+05", "1e-05", "inf", "-inf", "+inf",
        "INF", "Inf", "infinity", "-Infinity", "INFINITY", "infinit", "infinityy", "in", "nan",
        "NaN", "-nan", "+NAN", "nann", "na", "n", "i", "nan(1)", "1inf", "inf1", "++inf", "١",
        "1e١", "½", "1.0\u{0}", "\u{feff}1", "e", "E", "-e", "1e0", "0e0", "0e9999999999",
        "0.0e-9999999999", "1e9999999999", "1e-9999999999", "1e99999999999999999999999999999999",
        "1e-99999999999999999999999999999999", "0e99999999999999999999999999999999999999999",
        "100000000000000000000000000000000000000000000000000000000000e-60",
        "0.000000000000000000000000000000000000000000000000000000000001e60",
        "340282346638528859811704183484516925440", "340282356779733661637539395458142568447",
        "340282356779733661637539395458142568448", "340282356779733661637539395458142568449",
        "16777216", "16777217", "16777218", "16777219", "16777217.0000000000000000000000001",
        "16777216.9999999999999999999999", "0.000000000000000000000000000000000000000000001",
        "1.17549435e-38", "1.17549428e-38", "1.4e-45", "0.7e-45", "0.70064923216240853546e-45",
        "0.70064923216240853547e-45", "1.401298464324817e-45", "2.1019476964872256e-45",
    ] {
        check(text);
    }
}

#[test]
fn long_runs_of_digits_are_read_exactly() {
    let mut zeros = String::from("0.");
    for _ in 0..400 {
        zeros.push('0');
    }
    check(&format!("{}1", zeros));
    check(&format!("{}1e400", zeros));
    check(&format!("{}1e401", zeros));
    check(&format!("{}1e439", zeros));
    check(&format!("{}1e440", zeros));
    check(&format!("{}7e355", zeros));
    let mut nines = String::new();
    for _ in 0..300 {
        nines.push('9');
    }
    check(&nines);
    check(&format!("{}e-300", nines));
    check(&format!("{}e-262", nines));
    check(&format!("{}e-261", nines));
    check(&format!("{}e-340", nines));
    check(&format!("{}e-345", nines));
    check(&format!("{}e-346", nines));
    check(&format!("0.{}", nines));
    check(&format!("1.{}", nines));
    check(&format!("16777217.{}", nines));
    check(&format!("16777216.5{}", zeros));
    check(&format!("16777217.0{}1", zeros));
    check(&format!("16777217.0{}", zeros));
}

#[test]
fn random_short_numbers_match() {
    let mut dice = Dice { state: 42 };
    for _ in 0..60_000 {
        let int_digits = dice.below(4);
        let frac_digits = dice.below(10);
        let mut text = String::new();
        match dice.below(4) {
            0 => text.push('-'),
            1 => text.push('+'),
            _ => {}
        }
        for _ in 0..int_digits {
            text.push((b'0' + dice.below(10) as u8) as char);
        }
        if frac_digits > 0 || dice.below(3) == 0 {
            text.push('.');
        }
        for _ in 0..frac_digits {
            text.push((b'0' + dice.below(10) as u8) as char);
        }
        if dice.below(3) == 0 {
            text.push(if dice.below(2) == 0 { 'e' } else { 'E' });
            match dice.below(3) {
                0 => text.push('-'),
                1 => text.push('+'),
                _ => {}
            }
            text.push_str(&format!("{}", dice.below(60)));
        }
        check(&text);
    }
}

#[test]
fn every_pattern_prints_and_reads_back() {
    let mut dice = Dice { state: 43 };
    for _ in 0..60_000 {
        let bits = dice.next() as u32;
        let x = f32::from_bits(bits);
        if x.is_nan() {
            continue;
        }
        let shortest = format!("{}", x);
        assert_eq!(parse_number(&shortest), Some(bits), "{}", shortest);
        let scientific = format!("{:e}", x);
        assert_eq!(parse_number(&scientific), Some(bits), "{}", scientific);
        let long = format!("{:.60e}", x);
        assert_eq!(parse_number(&long), Some(bits), "{}", long);
    }
}

#[test]
fn halfway_cases_round_to_even() {
    let mut dice = Dice { state: 44 };
    for round in 0..20_000 {
        let mut bits = (dice.next() as u32) & 0x7fff_ffff;
        if round % 4 == 0 {
            bits &= 0x00ff_ffff;
        }
        if bits >= 0x7f7f_ffff {
            continue;
        }
        let low = f32::from_bits(bits) as f64;
        let high = f32::from_bits(bits + 1) as f64;
        let mid = (low + high) / 2.0;
        let exact = format!("{:.170e}", mid);
        check(&exact);
        // a little above and a little below the midpoint
        let (digits, exponent) = exact.split_once('e').unwrap();
        let above = format!("{}1e{}", digits, exponent);
        check(&above);
        assert_eq!(parse_number(&above), Some(bits + 1), "{}", above);
        let below = format!("{}e{}", decrement(digits), exponent);
        check(&below);
        assert_eq!(parse_number(&below), Some(bits), "{}", below);
        let even = if bits % 2 == 0 { bits } else { bits + 1 };
        assert_eq!(parse_number(&exact), Some(even), "{}", exact);
    }
}

/// The decimal digits with one unit taken off the last place, and nines added.
fn decrement(digits: &str) -> String {
    let mut bytes: Vec<u8> = digits.bytes().collect();
    let mut i = bytes.len();
    loop {
        i -= 1;
        if bytes[i] == b'.' {
            continue;
        }
        if bytes[i] == b'0' {
            bytes[i] = b'9';
        } else {
            bytes[i] -= 1;
            break;
        }
    }
    let mut out = String::from_utf8(bytes).unwrap();
    out.push_str("999");
    out
}
