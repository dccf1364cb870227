use opsin::error::TableError;
use opsin::lut3d::{Interpolation, Lut3D, Triplet};
use opsin::table::{pack, PrecomputedTable, COLOURS, TABLE_LEN};

fn triplet(v: [f32; 3]) -> Triplet {
    Triplet { r: v[0].to_bits(), g: v[1].to_bits(), b: v[2].to_bits() }
}

fn cube(size: usize) -> Lut3D {
    let mut samples = Vec::new();
    let mut state: u64 = 77;
    for _ in 0..size * size * size {
        let mut v = [0f32; 3];
        for c in v.iter_mut() {
            state = state.wrapping_mul(6364136223846793005).wrapping_add(1442695040888963407);
            *c = ((state >> 33) % 1001) as f32 / 1000.0;
        }
        samples.push(triplet(v));
    }
    Lut3D::from_parts(size, samples, triplet([0.0; 3]), triplet([1.0; 3])).unwrap()
}

#[test]
fn the_table_has_three_bytes_for_each_colour() {
    assert_eq!(COLOURS, 256 * 256 * 256);
    assert_eq!(TABLE_LEN, 256 * 256 * 256 * 3);
}

#[test]
fn colours_pack_with_red_in_the_high_byte() {
    assert_eq!(pack(0, 0, 0), 0);
    assert_eq!(pack(0, 0, 1), 1);
    assert_eq!(pack(0, 1, 0), 256);
    assert_eq!(pack(1, 0, 0), 65536);
    assert_eq!(pack(255, 255, 255), COLOURS - 1);
    assert_eq!(pack(0x12, 0x34, 0x56), 0x123456);
    for r in [0u8, 1, 63, 64, 128, 255] {
        for g in [0u8, 7, 200, 255] {
            for b in [0u8, 1, 254, 255] {
                let want = ((r as usize) << 16) | ((g as usize) << 8) | (b as usize);
                assert_eq!(pack(r, g, b), want);
                assert!(pack(r, g, b) * 3 + 2 < TABLE_LEN);
            }
        }
    }
}

#[test]
fn a_chunk_holds_the_samples_of_its_colours() {
    let lut = cube(5);
    for mode in [Interpolation::Nearest, Interpolation::Trilinear] {
        for first in [0usize, 255, 65_000, 8_000_000, COLOURS - 3000] {
            let chunk = lut.generate_chunk(mode, first, 3000);
            assert_eq!(chunk.len(), 9000);
            for k in 0..3000 {
                let c = first + k;
                let (r, g, b) = ((c >> 16) as u8, (c >> 8) as u8, c as u8);
                assert_eq!(&chunk[3 * k..3 * k + 3], &lut.sample(mode, r, g, b));
            }
        }
    }
    assert!(lut.generate_chunk(Interpolation::Trilinear, COLOURS, 0).is_empty());
}

#[test]
fn chunks_are_the_same_whenever_they_are_made() {
    let lut = cube(4);
    let once = lut.generate_chunk(Interpolation::Trilinear, 123_456, 5000);
    let twice = lut.generate_chunk(Interpolation::Trilinear, 123_456, 5000);
    assert_eq!(once, twice);
    let other = cube(4);
    assert_eq!(other.generate_chunk(Interpolation::Trilinear, 123_456, 5000), once);
    let whole = lut.generate_chunk(Interpolation::Nearest, 1000, 600);
    let mut parts = lut.generate_chunk(Interpolation::Nearest, 1000, 250);
    parts.extend(lut.generate_chunk(Interpolation::Nearest, 1250, 350));
    assert_eq!(whole, parts);
}

#[test]
fn a_cached_table_is_handed_back_unexamined() {
    let lut = cube(2);
    let cached = vec![1u8, 2, 3, 4, 5];
    let map = lut.load_or_generate_map(Interpolation::Trilinear, Some(cached.clone()));
    assert_eq!(map.table, cached);
    assert!(!map.generated);
}

#[test]
fn a_buffer_of_the_wrong_length_is_no_table() {
    assert!(matches!(
        PrecomputedTable::new(Vec::new()),
        Err(TableError::CorruptTable { len: 0 })
    ));
    assert!(matches!(
        PrecomputedTable::new(vec![0u8; TABLE_LEN - 1]),
        Err(TableError::CorruptTable { len }) if len == TABLE_LEN - 1
    ));
    assert!(matches!(
        PrecomputedTable::new(vec![0u8; TABLE_LEN + 1]),
        Err(TableError::CorruptTable { len }) if len == TABLE_LEN + 1
    ));
    assert!(PrecomputedTable::new(vec![0u8; TABLE_LEN]).is_ok());
}

fn marked_table() -> Vec<u8> {
    let mut bytes = vec![0u8; TABLE_LEN];
    for (i, b) in bytes.iter_mut().enumerate() {
        *b = (i % 251) as u8;
    }
    bytes
}

#[test]
fn lookups_read_the_three_bytes_at_the_packed_offset() {
    let bytes = marked_table();
    for (r, g, b) in [(0u8, 0u8, 0u8), (255, 255, 255), (64, 0, 0), (1, 2, 3), (200, 100, 50)] {
        let at = (((r as usize) << 16) | ((g as usize) << 8) | (b as usize)) * 3;
        let want = [bytes[at], bytes[at + 1], bytes[at + 2]];
        assert_eq!(Lut3D::apply_precomputed(&bytes, r, g, b), want);
    }
    let table = PrecomputedTable::new(bytes.clone()).unwrap();
    assert_eq!(table.as_bytes(), &bytes);
    assert_eq!(table.apply(255, 255, 255), [
        bytes[TABLE_LEN - 3],
        bytes[TABLE_LEN - 2],
        bytes[TABLE_LEN - 1]
    ]);
    assert_eq!(table.apply(9, 8, 7), Lut3D::apply_precomputed(&bytes, 9, 8, 7));
}

#[test]
fn pixels_are_replaced_one_by_one() {
    let table = PrecomputedTable::new(marked_table()).unwrap();
    let before: Vec<u8> = vec![0, 0, 0, 255, 255, 255, 1, 2, 3, 90, 80, 70];
    let mut pixels = before.clone();
    table.apply_to_pixels(&mut pixels);
    assert_eq!(pixels.len(), before.len());
    for k in 0..4 {
        let want = table.apply(before[3 * k], before[3 * k + 1], before[3 * k + 2]);
        assert_eq!(&pixels[3 * k..3 * k + 3], &want);
    }
    let mut none: Vec<u8> = Vec::new();
    table.apply_to_pixels(&mut none);
    assert!(none.is_empty());
}

#[test]
fn a_table_assembled_from_chunks_answers_as_the_cube_does() {
    let lut = cube(3);
    let mut bytes = vec![0u8; TABLE_LEN];
    let first = 0x40_0000 - 2000;
    let chunk = lut.generate_chunk(Interpolation::Trilinear, first, 4000);
    bytes[3 * first..3 * (first + 4000)].copy_from_slice(&chunk);
    let table = PrecomputedTable::new(bytes).unwrap();
    for c in first..first + 4000 {
        let (r, g, b) = ((c >> 16) as u8, (c >> 8) as u8, c as u8);
        assert_eq!(table.apply(r, g, b), lut.apply_lut_trilinear(r, g, b));
    }
}

#[test]
fn a_missing_cache_is_filled_with_the_whole_table() {
    let lut = cube(4);
    let map = lut.load_or_generate_map(Interpolation::Nearest, None);
    assert!(map.generated);
    assert_eq!(map.table.len(), TABLE_LEN);
    let table = PrecomputedTable::new(map.table).unwrap();
    let mut state: u64 = 5;
    for _ in 0..200_000 {
        state = state.wrapping_mul(6364136223846793005).wrapping_add(1442695040888963407);
        let (r, g, b) = ((state >> 40) as u8, (state >> 48) as u8, (state >> 56) as u8);
        assert_eq!(table.apply(r, g, b), lut.apply_lut(r, g, b));
    }
    assert_eq!(table.apply(0, 0, 0), lut.apply_lut(0, 0, 0));
    assert_eq!(table.apply(255, 255, 255), lut.apply_lut(255, 255, 255));
    let again = lut.generate_map(Interpolation::Nearest);
    assert_eq!(table.as_bytes(), &again);
}
