use opsin::arith::{from_u64, is_less, minus, over, plus, times};
use opsin::convert::{clamp_to_unit, nearest_whole_capped, whole_part_capped};
use opsin::lut3d::channel;

/// A small deterministic generator of bit patterns.
struct Patterns {
    state: u64,
}

impl Patterns {
    fn new(seed: u64) -> Self {
        Patterns { state: seed }
    }

    fn next_u64(&mut self) -> u64 {
        self.state = self.state.wrapping_mul(6364136223846793005).wrapping_add(1442695040888963407);
        let x = self.state;
        (x ^ (x >> 29)).wrapping_mul(0x9E3779B97F4A7C15) ^ (x >> 32)
    }

    /// A pattern drawn so that special exponents and fractions are frequent.
    fn next_bits(&mut self) -> u32 {
        let x = self.next_u64();
        let kind = (x >> 60) as u32;
        let raw = x as u32;
        match kind {
            0 => raw & 0x807f_ffff,
            1 => (raw & 0x807f_ffff) | 0x0080_0000,
            2 => (raw & 0x807f_ffff) | 0x7f00_0000,
            3 => (raw & 0x8000_0000) | 0x7f80_0000,
            4 => raw & 0x8000_0000,
            5 => (raw & 0xff80_0000) | 0x007f_ffff,
            6 => raw & 0xff80_0000,
            7 => (raw & 0x8000_ffff) | 0x3f80_0000,
            8 => (raw & 0x83ff_ffff) | 0x3c00_0000,
            _ => raw,
        }
    }
}

fn same(ours: u32, theirs: f32) -> bool {
    if theirs.is_nan() {
        (ours & 0x7fff_ffff) > 0x7f80_0000
    } else {
        ours == theirs.to_bits()
    }
}

#[test]
fn products_match_hardware() {
    let mut g = Patterns::new(1);
    for _ in 0..400_000 {
        let a = g.next_bits();
        let b = g.next_bits();
        let want = f32::from_bits(a) * f32::from_bits(b);
        assert!(same(times(a, b), want), "{:#x} * {:#x}", a, b);
    }
}

#[test]
fn quotients_match_hardware() {
    let mut g = Patterns::new(2);
    for _ in 0..400_000 {
        let a = g.next_bits();
        let b = g.next_bits();
        let want = f32::from_bits(a) / f32::from_bits(b);
        assert!(same(over(a, b), want), "{:#x} / {:#x}", a, b);
    }
}

#[test]
fn sums_match_hardware() {
    let mut g = Patterns::new(3);
    for _ in 0..400_000 {
        let a = g.next_bits();
        let b = g.next_bits();
        let want = f32::from_bits(a) + f32::from_bits(b);
        assert!(same(plus(a, b), want), "{:#x} + {:#x}", a, b);
    }
}

#[test]
fn sums_of_near_patterns_match_hardware() {
    let mut g = Patterns::new(4);
    for _ in 0..400_000 {
        let a = g.next_bits();
        let delta = (g.next_u64() % 0x0400_0000) as u32;
        let b = a.wrapping_add(delta) ^ 0x8000_0000;
        let want = f32::from_bits(a) + f32::from_bits(b);
        assert!(same(plus(a, b), want), "{:#x} + {:#x}", a, b);
    }
}

#[test]
fn differences_match_hardware() {
    let mut g = Patterns::new(5);
    for _ in 0..400_000 {
        let a = g.next_bits();
        let b = g.next_bits();
        let want = f32::from_bits(a) - f32::from_bits(b);
        assert!(same(minus(a, b), want), "{:#x} - {:#x}", a, b);
    }
}

#[test]
fn order_matches_hardware() {
    let mut g = Patterns::new(6);
    for _ in 0..400_000 {
        let a = g.next_bits();
        let b = g.next_bits();
        assert_eq!(is_less(a, b), f32::from_bits(a) < f32::from_bits(b), "{:#x} < {:#x}", a, b);
    }
}

#[test]
fn whole_numbers_convert_as_hardware_does() {
    for v in 0u64..70_000 {
        assert_eq!(from_u64(v), (v as f32).to_bits());
    }
    let mut g = Patterns::new(7);
    for _ in 0..200_000 {
        let v = g.next_u64() >> (g.next_u64() % 64);
        assert_eq!(from_u64(v), (v as f32).to_bits(), "{}", v);
    }
    assert_eq!(from_u64(u64::MAX), (u64::MAX as f32).to_bits());
    assert_eq!(from_u64(16_777_217), 16_777_216f32.to_bits());
    assert_eq!(from_u64(16_777_219), 16_777_220f32.to_bits());
}

#[test]
fn signed_zeros_follow_the_standard() {
    let pz = 0u32;
    let nz = 0x8000_0000u32;
    assert_eq!(plus(pz, nz), pz);
    assert_eq!(plus(nz, nz), nz);
    assert_eq!(plus(nz, pz), pz);
    assert_eq!(minus(pz, pz), pz);
    assert_eq!(minus(nz, pz), nz);
    let one = 1f32.to_bits();
    assert_eq!(minus(one, one), pz);
    assert_eq!(times(nz, one), nz);
    assert_eq!(over(one, nz), f32::NEG_INFINITY.to_bits());
    assert_eq!(over(one, pz), f32::INFINITY.to_bits());
}

#[test]
fn whole_parts_are_what_a_cast_gives() {
    let mut g = Patterns::new(8);
    for _ in 0..400_000 {
        let a = g.next_bits();
        let x = f32::from_bits(a);
        assert_eq!(whole_part_capped(a, u64::MAX), x.floor() as u64, "{:#x}", a);
        assert_eq!(whole_part_capped(a, 255), (x as u64).min(255), "{:#x}", a);
        assert_eq!(nearest_whole_capped(a, u64::MAX), x.round() as u64, "{:#x}", a);
        assert_eq!(nearest_whole_capped(a, 32), (x.round() as u64).min(32), "{:#x}", a);
    }
    for (x, floor, round) in [
        (0.0f32, 0u64, 0u64),
        (0.49999997, 0, 0),
        (0.5, 0, 1),
        (1.5, 1, 2),
        (2.5, 2, 3),
        (8388607.5, 8388607, 8388608),
        (16777216.0, 16777216, 16777216),
        (-0.5, 0, 0),
        (-3.5, 0, 0),
        (1e30, u64::MAX, u64::MAX),
    ] {
        assert_eq!(whole_part_capped(x.to_bits(), u64::MAX), floor);
        assert_eq!(nearest_whole_capped(x.to_bits(), u64::MAX), round);
    }
}

#[test]
fn clamping_and_bytes_are_what_hardware_gives() {
    let mut g = Patterns::new(9);
    for _ in 0..400_000 {
        let a = g.next_bits();
        let x = f32::from_bits(a);
        let clamped = if x < 0.0 {
            0.0
        } else if x > 1.0 {
            1.0
        } else {
            x
        };
        assert!(same(clamp_to_unit(a), clamped), "{:#x}", a);
        assert_eq!(channel(a), (clamped * 255.0) as u8, "{:#x}", a);
    }
    assert_eq!(clamp_to_unit(0x8000_0000), 0x8000_0000);
    assert_eq!(channel(1f32.to_bits()), 255);
    assert_eq!(channel(0.999f32.to_bits()), 254);
    assert_eq!(channel(f32::NAN.to_bits()), 0);
}
