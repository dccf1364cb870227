use opsin::lut3d::{Interpolation, Lut3D, Triplet};

/// The same computation in hardware floating point.
struct Reference {
    size: usize,
    data: Vec<[f32; 3]>,
    domain_min: [f32; 3],
    domain_max: [f32; 3],
}

impl Reference {
    fn coordinate(&self, v: u8, axis: usize) -> f32 {
        let unit = v as f32 / 255.0;
        let n = (unit - self.domain_min[axis]) / (self.domain_max[axis] - self.domain_min[axis]);
        let n = if n < 0.0 {
            0.0
        } else if n > 1.0 {
            1.0
        } else {
            n
        };
        n * (self.size - 1) as f32
    }

    fn byte(c: f32) -> u8 {
        let c = if c < 0.0 {
            0.0
        } else if c > 1.0 {
            1.0
        } else {
            c
        };
        (c * 255.0) as u8
    }

    fn nearest(&self, r: u8, g: u8, b: u8) -> [u8; 3] {
        let f = (self.size - 1) as f32;
        let pick = |x: f32| -> usize {
            let y = x.round();
            let y = if y < 0.0 {
                0.0
            } else if y > f {
                f
            } else {
                y
            };
            y as usize
        };
        let ri = pick(self.coordinate(r, 0));
        let gi = pick(self.coordinate(g, 1));
        let bi = pick(self.coordinate(b, 2));
        let out = self.data[ri + gi * self.size + bi * self.size * self.size];
        [Self::byte(out[0]), Self::byte(out[1]), Self::byte(out[2])]
    }

    fn trilinear(&self, r: u8, g: u8, b: u8) -> [u8; 3] {
        let rx = self.coordinate(r, 0);
        let gx = self.coordinate(g, 1);
        let bx = self.coordinate(b, 2);
        let r0 = rx.floor() as usize;
        let g0 = gx.floor() as usize;
        let b0 = bx.floor() as usize;
        let r1 = (r0 + 1).min(self.size - 1);
        let g1 = (g0 + 1).min(self.size - 1);
        let b1 = (b0 + 1).min(self.size - 1);
        let dr = rx - r0 as f32;
        let dg = gx - g0 as f32;
        let db = bx - b0 as f32;
        let idx = |r: usize, g: usize, b: usize| r + g * self.size + b * self.size * self.size;
        let lerp = |a: f32, b: f32, t: f32| a * (1.0 - t) + b * t;
        let lerp3 = |a: [f32; 3], b: [f32; 3], t: f32| {
            [lerp(a[0], b[0], t), lerp(a[1], b[1], t), lerp(a[2], b[2], t)]
        };
        let c00 = lerp3(self.data[idx(r0, g0, b0)], self.data[idx(r1, g0, b0)], dr);
        let c01 = lerp3(self.data[idx(r0, g0, b1)], self.data[idx(r1, g0, b1)], dr);
        let c10 = lerp3(self.data[idx(r0, g1, b0)], self.data[idx(r1, g1, b0)], dr);
        let c11 = lerp3(self.data[idx(r0, g1, b1)], self.data[idx(r1, g1, b1)], dr);
        let c0 = lerp3(c00, c10, dg);
        let c1 = lerp3(c01, c11, dg);
        let c = lerp3(c0, c1, db);
        [Self::byte(c[0]), Self::byte(c[1]), Self::byte(c[2])]
    }
}

struct Dice {
    state: u64,
}

impl Dice {
    fn next(&mut self) -> u64 {
        self.state = self.state.wrapping_mul(6364136223846793005).wrapping_add(1442695040888963407);
        let x = self.state;
        (x ^ (x >> 29)).wrapping_mul(0x9E3779B97F4A7C15) ^ (x >> 32)
    }

    /// A number between -0.25 and 1.25.
    fn sample(&mut self) -> f32 {
        (self.next() % 1_500_001) as f32 / 1_000_000.0 - 0.25
    }
}

fn triplet(v: [f32; 3]) -> Triplet {
    Triplet { r: v[0].to_bits(), g: v[1].to_bits(), b: v[2].to_bits() }
}

fn build(size: usize, seed: u64, domain_min: [f32; 3], domain_max: [f32; 3]) -> (Lut3D, Reference) {
    let mut dice = Dice { state: seed };
    let mut data = Vec::new();
    for _ in 0..size * size * size {
        data.push([dice.sample(), dice.sample(), dice.sample()]);
    }
    let samples: Vec<Triplet> = data.iter().map(|v| triplet(*v)).collect();
    let lut = Lut3D::from_parts(size, samples, triplet(domain_min), triplet(domain_max)).unwrap();
    (lut, Reference { size, data, domain_min, domain_max })
}

fn compare(lut: &Lut3D, reference: &Reference, seed: u64, rounds: usize) {
    let mut dice = Dice { state: seed };
    for _ in 0..rounds {
        let x = dice.next();
        let (r, g, b) = (x as u8, (x >> 8) as u8, (x >> 16) as u8);
        assert_eq!(lut.apply_lut(r, g, b), reference.nearest(r, g, b), "nearest {} {} {}", r, g, b);
        assert_eq!(
            lut.apply_lut_trilinear(r, g, b),
            reference.trilinear(r, g, b),
            "trilinear {} {} {}",
            r,
            g,
            b
        );
    }
}

#[test]
fn random_cubes_match_hardware_floats() {
    for (i, size) in [1usize, 2, 3, 5, 9, 17, 33].iter().enumerate() {
        let (lut, reference) = build(*size, 100 + i as u64, [0.0; 3], [1.0; 3]);
        compare(&lut, &reference, 7 + i as u64, 20_000);
    }
}

#[test]
fn narrow_domains_match_hardware_floats() {
    let (lut, reference) = build(9, 5, [0.2, 0.1, 0.3], [0.8, 0.95, 0.7]);
    compare(&lut, &reference, 11, 40_000);
    let (lut, reference) = build(4, 6, [-0.5, 0.0, 0.25], [1.5, 0.5, 0.25]);
    compare(&lut, &reference, 12, 40_000);
    let (lut, reference) = build(4, 8, [0.0, 0.0, 0.0], [-0.0, f32::INFINITY, f32::NAN]);
    compare(&lut, &reference, 13, 40_000);
}

#[test]
fn every_channel_value_matches_on_the_diagonal() {
    let (lut, reference) = build(33, 21, [0.0; 3], [1.0; 3]);
    for v in 0..=255u8 {
        assert_eq!(lut.apply_lut(v, v, v), reference.nearest(v, v, v));
        assert_eq!(lut.apply_lut_trilinear(v, v, v), reference.trilinear(v, v, v));
        assert_eq!(lut.sample(Interpolation::Nearest, v, 0, 255), reference.nearest(v, 0, 255));
        assert_eq!(
            lut.sample(Interpolation::Trilinear, 255, v, 0),
            reference.trilinear(255, v, 0)
        );
    }
}

fn identity() -> Lut3D {
    let mut samples = Vec::new();
    for b in 0..2 {
        for g in 0..2 {
            for r in 0..2 {
                samples.push(triplet([r as f32, g as f32, b as f32]));
            }
        }
    }
    Lut3D::from_parts(2, samples, triplet([0.0; 3]), triplet([1.0; 3])).unwrap()
}

#[test]
fn identity_cube_keeps_mid_grey_within_one_unit() {
    let lut = identity();
    let out = lut.apply_lut_trilinear(128, 128, 128);
    for c in out {
        assert!((127..=129).contains(&c), "{:?}", out);
    }
    assert_eq!(out, [128, 128, 128]);
    assert_eq!(lut.apply_lut_trilinear(0, 0, 0), [0, 0, 0]);
    assert_eq!(lut.apply_lut_trilinear(255, 255, 255), [255, 255, 255]);
    assert_eq!(lut.apply_lut(128, 128, 128), [255, 255, 255]);
    assert_eq!(lut.apply_lut(127, 200, 3), [0, 255, 0]);
}

#[test]
fn identity_cube_keeps_every_grey_within_one_unit() {
    let lut = identity();
    for v in 0..=255u8 {
        let out = lut.apply_lut_trilinear(v, v, v);
        for c in out {
            assert!((c as i32 - v as i32).abs() <= 1, "{} -> {:?}", v, out);
        }
    }
}

#[test]
fn inputs_below_the_domain_clamp_to_its_lower_edge() {
    let (lut, _) = build(5, 77, [0.2; 3], [0.8; 3]);
    // 51 / 255 is exactly 0.2
    assert_eq!(lut.apply_lut_trilinear(0, 0, 0), lut.apply_lut_trilinear(51, 51, 51));
    assert_eq!(lut.apply_lut(0, 0, 0), lut.apply_lut(51, 51, 51));
    assert_eq!(lut.apply_lut_trilinear(17, 40, 3), lut.apply_lut_trilinear(51, 51, 51));
    // 204 / 255 is exactly 0.8
    assert_eq!(lut.apply_lut_trilinear(255, 255, 255), lut.apply_lut_trilinear(204, 204, 204));
    assert_eq!(lut.apply_lut(255, 230, 204), lut.apply_lut(204, 204, 204));
}

#[test]
fn red_index_varies_fastest() {
    let mut samples = Vec::new();
    for i in 0..8u32 {
        samples.push(triplet([i as f32 / 10.0, 0.0, 0.0]));
    }
    let lut = Lut3D::from_parts(2, samples, triplet([0.0; 3]), triplet([1.0; 3])).unwrap();
    // corner (r, g, b) is sample r + 2 g + 4 b
    assert_eq!(lut.apply_lut(255, 0, 0)[0], (0.1f32 * 255.0) as u8);
    assert_eq!(lut.apply_lut(0, 255, 0)[0], (0.2f32 * 255.0) as u8);
    assert_eq!(lut.apply_lut(0, 0, 255)[0], (0.4f32 * 255.0) as u8);
    assert_eq!(lut.apply_lut(255, 255, 255)[0], (0.7f32 * 255.0) as u8);
    assert_eq!(lut.apply_lut_trilinear(255, 0, 255)[0], (0.5f32 * 255.0) as u8);
}

#[test]
fn values_are_truncated_not_rounded() {
    let samples = vec![triplet([0.999, 0.5, 0.0039])];
    let lut = Lut3D::from_parts(1, samples, triplet([0.0; 3]), triplet([1.0; 3])).unwrap();
    // 0.999 * 255 = 254.745, 0.5 * 255 = 127.5, 0.0039 * 255 = 0.9945
    assert_eq!(lut.apply_lut(10, 20, 30), [254, 127, 0]);
    assert_eq!(lut.apply_lut_trilinear(10, 20, 30), [254, 127, 0]);
}

#[test]
fn from_parts_checks_the_count() {
    let t = triplet([0.0; 3]);
    assert!(Lut3D::from_parts(2, vec![t; 8], t, t).is_ok());
    assert!(matches!(
        Lut3D::from_parts(0, Vec::new(), t, t),
        Err(opsin::error::ParseError::MissingSize)
    ));
    assert!(matches!(
        Lut3D::from_parts(2, vec![t; 7], t, t),
        Err(opsin::error::ParseError::SizeMismatch { size: 2, found: 7 })
    ));
    assert!(matches!(
        Lut3D::from_parts(usize::MAX, vec![t; 1], t, t),
        Err(opsin::error::ParseError::SizeMismatch { size: usize::MAX, found: 1 })
    ));
}

#[test]
fn both_modes_agree_on_grid_points() {
    let mut met = 0;
    for size in [2usize, 4, 6, 16, 18, 52, 86] {
        let (lut, reference) = build(size, 300 + size as u64, [0.0; 3], [1.0; 3]);
        let mut on_grid = Vec::new();
        for v in 0..=255u8 {
            let x = reference.coordinate(v, 0);
            if x == x.floor() {
                on_grid.push(v);
            }
        }
        assert!(on_grid.len() >= 2);
        for &r in &on_grid {
            for &g in &on_grid {
                for &b in &on_grid {
                    if size > 16 && (r as usize + g as usize + b as usize) % 7 != 0 {
                        continue;
                    }
                    assert_eq!(
                        lut.apply_lut_trilinear(r, g, b),
                        lut.apply_lut(r, g, b),
                        "size {} at {} {} {}",
                        size,
                        r,
                        g,
                        b
                    );
                    met += 1;
                }
            }
        }
    }
    assert!(met > 1000);
}

#[test]
fn an_infinite_neighbour_breaks_the_agreement() {
    let mut samples = vec![triplet([0.5, 0.5, 0.5]); 8];
    samples[1] = triplet([f32::INFINITY, 0.5, 0.5]);
    let lut = Lut3D::from_parts(2, samples, triplet([0.0; 3]), triplet([1.0; 3])).unwrap();
    assert_eq!(lut.apply_lut(0, 0, 0), [127, 127, 127]);
    assert_eq!(lut.apply_lut_trilinear(0, 0, 0), [0, 127, 127]);
}
