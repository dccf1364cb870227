//! The precomputed table: the output colour for each of the 2^24 input
//! colours, three bytes each, at the offset that the input colour packs to.

use crate::error::TableError;
use crate::lut3d::{
    coordinate, nearest_corner, sample_of, AxisPoint, Grid, Interpolation, Lut3D,
};
use vstd::prelude::*;

verus! {

/// The number of input colours: 256 for each of three channels.
pub const COLOURS: usize = 16_777_216;

/// The number of bytes of a table: three for each input colour.
pub const TABLE_LEN: usize = 50_331_648;

/// The place of the input colour `(r, g, b)` among all input colours:
/// red in the high byte, green in the middle, blue in the low byte.
pub open spec fn packed(r: u8, g: u8, b: u8) -> int {
    r * 65536 + g * 256 + b
}

/// The red channel of the input colour at place `c`.
pub open spec fn red_at(c: int) -> u8 {
    (c / 65536) as u8
}

/// The green channel of the input colour at place `c`.
pub open spec fn green_at(c: int) -> u8 {
    ((c / 256) % 256) as u8
}

/// The blue channel of the input colour at place `c`.
pub open spec fn blue_at(c: int) -> u8 {
    (c % 256) as u8
}

/// The table of a grid: at each input colour's offset, the three bytes that
/// sampling the grid in the given mode gives for that colour.
pub open spec fn table_of(grid: Grid, mode: Interpolation) -> Seq<u8> {
    Seq::new(
        TABLE_LEN as nat,
        |i: int| sample_of(grid, mode, red_at(i / 3), green_at(i / 3), blue_at(i / 3))[i % 3],
    )
}

/// The three bytes that a table holds for the input colour `(r, g, b)`.
pub open spec fn entry(table: Seq<u8>, r: u8, g: u8, b: u8) -> Seq<u8> {
    table.subrange(3 * packed(r, g, b), 3 * packed(r, g, b) + 3)
}

/// The place of an input colour among all input colours.
pub fn pack(r: u8, g: u8, b: u8) -> (c: usize)
    ensures
        c == packed(r, g, b),
        c == ((r as u32) << 16 | (g as u32) << 8 | (b as u32)),
        c < COLOURS,
        red_at(c as int) == r,
        green_at(c as int) == g,
        blue_at(c as int) == b,
{
    let r32: u32 = r as u32;
    let g32: u32 = g as u32;
    let b32: u32 = b as u32;
    assert((r32 << 16 | g32 << 8 | b32) == r32 * 65536 + g32 * 256 + b32) by (bit_vector)
        requires
            r32 < 256,
            g32 < 256,
            b32 < 256,
    ;
    ((r32 << 16) | (g32 << 8) | b32) as usize
}


/// The sequence holds, for each of the 256 channel values, its place on an
/// axis with the domain from `lo` to `hi` in a grid of edge length `size`.
pub open spec fn places_on_axis(points: Seq<AxisPoint>, lo: u32, hi: u32, size: nat) -> bool {
    &&& points.len() == 256
    &&& forall|v: u8|
        {
            &&& (#[trigger] points[v as int]).locates(coordinate(v, lo, hi, size), size)
            &&& points[v as int].low < size
            &&& points[v as int].high < size
        }
}

/// The sequence holds, for each of the 256 channel values, the grid index
/// nearest to it on an axis with the domain from `lo` to `hi`.
pub open spec fn corners_on_axis(corners: Seq<usize>, lo: u32, hi: u32, size: nat) -> bool {
    &&& corners.len() == 256
    &&& forall|v: u8|
        {
            &&& #[trigger] corners[v as int] == nearest_corner(coordinate(v, lo, hi, size), size)
            &&& corners[v as int] < size
        }
}

/// A table together with the word whether it was computed just now, and so
/// has yet to be stored, or was handed in.
pub struct LoadedMap {
    pub table: Vec<u8>,
    pub generated: bool,
}

/// The byte at place `j` of the three bytes that a table holds for the
/// colour at place `c`.
pub proof fn lemma_table_entry(grid: Grid, mode: Interpolation, c: int, j: int)
    requires
        0 <= c < COLOURS,
        0 <= j < 3,
    ensures
        red_at(c) * 65536 + green_at(c) * 256 + blue_at(c) == c,
        table_of(grid, mode)[3 * c + j] == sample_of(
            grid,
            mode,
            red_at(c),
            green_at(c),
            blue_at(c),
        )[j],
{
    assert((3 * c + j) / 3 == c && (3 * c + j) % 3 == j);
}

impl Lut3D {
    /// Looks the colour `(r, g, b)` up in a precomputed table.
    pub fn apply_precomputed(table: &[u8], r: u8, g: u8, b: u8) -> (out: [u8; 3])
        requires
            table@.len() == TABLE_LEN,
        ensures
            out@ == entry(table@, r, g, b),
    {
        let idx: usize = pack(r, g, b) * 3;
        let out: [u8; 3] = [table[idx], table[idx + 1], table[idx + 2]];
        assert(out@ =~= entry(table@, r, g, b));
        out
    }

    /// The places of all 256 channel values on an axis with the domain from
    /// `lo` to `hi`.
    fn axis_points(&self, lo: u32, hi: u32) -> (points: Vec<AxisPoint>)
        ensures
            places_on_axis(points@, lo, hi, self@.size),
    {
        let mut points: Vec<AxisPoint> = Vec::with_capacity(256);
        let mut i: usize = 0;
        while i < 256
            invariant
                i <= 256,
                points@.len() == i,
                forall|v: u8|
                    v < i ==> {
                        &&& (#[trigger] points@[v as int]).locates(
                            coordinate(v, lo, hi, self@.size),
                            self@.size,
                        )
                        &&& points@[v as int].low < self@.size
                        &&& points@[v as int].high < self@.size
                    },
            decreases 256 - i,
        {
            points.push(self.locate_on(i as u8, lo, hi));
            i += 1;
        }
        points
    }

    /// The grid indices nearest to all 256 channel values on an axis with
    /// the domain from `lo` to `hi`.
    fn axis_corners(&self, lo: u32, hi: u32) -> (corners: Vec<usize>)
        ensures
            corners_on_axis(corners@, lo, hi, self@.size),
    {
        let mut corners: Vec<usize> = Vec::with_capacity(256);
        let mut i: usize = 0;
        while i < 256
            invariant
                i <= 256,
                corners@.len() == i,
                forall|v: u8|
                    v < i ==> {
                        &&& #[trigger] corners@[v as int] == nearest_corner(
                            coordinate(v, lo, hi, self@.size),
                            self@.size,
                        )
                        &&& corners@[v as int] < self@.size
                    },
            decreases 256 - i,
        {
            corners.push(self.nearest_on(i as u8, lo, hi));
            i += 1;
        }
        corners
    }

    /// The table entry of the input colour at place `c`, read off the
    /// nearest grid indices of its three channel values.
    fn nearest_entry(
        &self,
        reds: &Vec<usize>,
        greens: &Vec<usize>,
        blues: &Vec<usize>,
        c: usize,
    ) -> (px: [u8; 3])
        requires
            c < COLOURS,
            corners_on_axis(reds@, self@.domain_min.r, self@.domain_max.r, self@.size),
            corners_on_axis(greens@, self@.domain_min.g, self@.domain_max.g, self@.size),
            corners_on_axis(blues@, self@.domain_min.b, self@.domain_max.b, self@.size),
        ensures
            px@ == sample_of(
                self@,
                Interpolation::Nearest,
                red_at(c as int),
                green_at(c as int),
                blue_at(c as int),
            ),
    {
        let r: usize = c / 65536;
        let g: usize = (c / 256) % 256;
        let b: usize = c % 256;
        let ghost rv: u8 = r as u8;
        let ghost gv: u8 = g as u8;
        let ghost bv: u8 = b as u8;
        assert(reds@[rv as int] < self@.size);
        assert(greens@[gv as int] < self@.size);
        assert(blues@[bv as int] < self@.size);
        self.bytes_at(reds[r], greens[g], blues[b])
    }

    /// The table entry of the input colour at place `c`, blended at the
    /// places of its three channel values.
    fn trilinear_entry(
        &self,
        reds: &Vec<AxisPoint>,
        greens: &Vec<AxisPoint>,
        blues: &Vec<AxisPoint>,
        c: usize,
    ) -> (px: [u8; 3])
        requires
            c < COLOURS,
            places_on_axis(reds@, self@.domain_min.r, self@.domain_max.r, self@.size),
            places_on_axis(greens@, self@.domain_min.g, self@.domain_max.g, self@.size),
            places_on_axis(blues@, self@.domain_min.b, self@.domain_max.b, self@.size),
        ensures
            px@ == sample_of(
                self@,
                Interpolation::Trilinear,
                red_at(c as int),
                green_at(c as int),
                blue_at(c as int),
            ),
    {
        let r: usize = c / 65536;
        let g: usize = (c / 256) % 256;
        let b: usize = c % 256;
        let ghost rv: u8 = r as u8;
        let ghost gv: u8 = g as u8;
        let ghost bv: u8 = b as u8;
        assert(reds@[rv as int].low < self@.size);
        assert(greens@[gv as int].low < self@.size);
        assert(blues@[bv as int].low < self@.size);
        self.blend_at(&reds[r], &greens[g], &blues[b])
    }

    /// The part of the nearest-sample table for `count` colours from place `first` on.
    fn nearest_chunk(&self, first: usize, count: usize) -> (out: Vec<u8>)
        requires
            first + count <= COLOURS,
        ensures
            out@ == table_of(self@, Interpolation::Nearest).subrange(
                3 * first,
                3 * (first + count),
            ),
    {
        let lo = self.domain_min();
        let hi = self.domain_max();
        let reds: Vec<usize> = self.axis_corners(lo.r, hi.r);
        let greens: Vec<usize> = self.axis_corners(lo.g, hi.g);
        let blues: Vec<usize> = self.axis_corners(lo.b, hi.b);
        let ghost whole: Seq<u8> = table_of(self@, Interpolation::Nearest);
        let mut out: Vec<u8> = Vec::with_capacity(count * 3);
        let mut c: usize = first;
        let end: usize = first + count;
        while c < end
            invariant
                first <= c <= end <= COLOURS,
                whole == table_of(self@, Interpolation::Nearest),
                out@.len() == 3 * (c - first),
                forall|i: int| 0 <= i < out@.len() ==> out@[i] == whole[3 * first + i],
                corners_on_axis(reds@, self@.domain_min.r, self@.domain_max.r, self@.size),
                corners_on_axis(greens@, self@.domain_min.g, self@.domain_max.g, self@.size),
                corners_on_axis(blues@, self@.domain_min.b, self@.domain_max.b, self@.size),
            decreases end - c,
        {
            let px: [u8; 3] = self.nearest_entry(&reds, &greens, &blues, c);
            proof {
                lemma_table_entry(self@, Interpolation::Nearest, c as int, 0);
                lemma_table_entry(self@, Interpolation::Nearest, c as int, 1);
                lemma_table_entry(self@, Interpolation::Nearest, c as int, 2);
            }
            out.push(px[0]);
            out.push(px[1]);
            out.push(px[2]);
            c += 1;
        }
        assert(out@ =~= whole.subrange(3 * first, 3 * (first + count)));
        out
    }

    /// The part of the blended table for `count` colours from place `first` on.
    fn trilinear_chunk(&self, first: usize, count: usize) -> (out: Vec<u8>)
        requires
            first + count <= COLOURS,
        ensures
            out@ == table_of(self@, Interpolation::Trilinear).subrange(
                3 * first,
                3 * (first + count),
            ),
    {
        let lo = self.domain_min();
        let hi = self.domain_max();
        let reds: Vec<AxisPoint> = self.axis_points(lo.r, hi.r);
        let greens: Vec<AxisPoint> = self.axis_points(lo.g, hi.g);
        let blues: Vec<AxisPoint> = self.axis_points(lo.b, hi.b);
        let ghost whole: Seq<u8> = table_of(self@, Interpolation::Trilinear);
        let mut out: Vec<u8> = Vec::with_capacity(count * 3);
        let mut c: usize = first;
        let end: usize = first + count;
        while c < end
            invariant
                first <= c <= end <= COLOURS,
                whole == table_of(self@, Interpolation::Trilinear),
                out@.len() == 3 * (c - first),
                forall|i: int| 0 <= i < out@.len() ==> out@[i] == whole[3 * first + i],
                places_on_axis(reds@, self@.domain_min.r, self@.domain_max.r, self@.size),
                places_on_axis(greens@, self@.domain_min.g, self@.domain_max.g, self@.size),
                places_on_axis(blues@, self@.domain_min.b, self@.domain_max.b, self@.size),
            decreases end - c,
        {
            let px: [u8; 3] = self.trilinear_entry(&reds, &greens, &blues, c);
            proof {
                lemma_table_entry(self@, Interpolation::Trilinear, c as int, 0);
                lemma_table_entry(self@, Interpolation::Trilinear, c as int, 1);
                lemma_table_entry(self@, Interpolation::Trilinear, c as int, 2);
            }
            out.push(px[0]);
            out.push(px[1]);
            out.push(px[2]);
            c += 1;
        }
        assert(out@ =~= whole.subrange(3 * first, 3 * (first + count)));
        out
    }

    /// Computes the part of the table that belongs to `count` input colours
    /// from place `first` on.
    pub fn generate_chunk(&self, mode: Interpolation, first: usize, count: usize) -> (out: Vec<u8>)
        requires
            first + count <= COLOURS,
        ensures
            out@ == table_of(self@, mode).subrange(3 * first, 3 * (first + count)),
    {
        match mode {
            Interpolation::Nearest => self.nearest_chunk(first, count),
            Interpolation::Trilinear => self.trilinear_chunk(first, count),
        }
    }

    /// Computes the whole table: one sample for each input colour.
    pub fn generate_map(&self, mode: Interpolation) -> (out: Vec<u8>)
        ensures
            out@ == table_of(self@, mode),
            out@.len() == TABLE_LEN,
    {
        let out: Vec<u8> = self.generate_chunk(mode, 0, COLOURS);
        assert(out@ =~= table_of(self@, mode));
        out
    }

    /// Hands back the cached table where there is one, byte for byte and
    /// unexamined, and computes the table where there is none.
    pub fn load_or_generate_map(&self, mode: Interpolation, cached: Option<Vec<u8>>) -> (map:
        LoadedMap)
        ensures
            match cached {
                Some(bytes) => map.table@ == bytes@ && !map.generated,
                None => map.table@ == table_of(self@, mode) && map.generated,
            },
    {
        match cached {
            Some(bytes) => LoadedMap { table: bytes, generated: false },
            None => LoadedMap { table: self.generate_map(mode), generated: true },
        }
    }
}


/// A byte buffer that has been checked to hold a whole table.
pub struct PrecomputedTable {
    bytes: Vec<u8>,
}

impl View for PrecomputedTable {
    type V = Seq<u8>;

    closed spec fn view(&self) -> Seq<u8> {
        self.bytes@
    }
}

/// The pixels of `before`, three bytes each, each looked up in `table`.
pub open spec fn pixels_through(table: Seq<u8>, before: Seq<u8>) -> Seq<u8> {
    Seq::new(
        before.len(),
        |i: int|
            entry(table, before[i - i % 3], before[i - i % 3 + 1], before[i - i % 3 + 2])[i % 3],
    )
}

impl PrecomputedTable {
    #[verifier::type_invariant]
    spec fn inv(self) -> bool {
        self.bytes@.len() == TABLE_LEN
    }

    /// Takes a buffer in as a table, where it has the length of one.
    pub fn new(bytes: Vec<u8>) -> (r: Result<PrecomputedTable, TableError>)
        ensures
            r is Ok <==> bytes@.len() == TABLE_LEN,
            match r {
                Ok(table) => table@ == bytes@,
                Err(e) => e == (TableError::CorruptTable { len: bytes.len() }),
            },
    {
        let len: usize = bytes.len();
        if len != TABLE_LEN {
            return Err(TableError::CorruptTable { len });
        }
        Ok(PrecomputedTable { bytes })
    }

    /// The bytes of the table.
    pub fn as_bytes(&self) -> (bytes: &Vec<u8>)
        ensures
            bytes@ == self@,
            bytes@.len() == TABLE_LEN,
    {
        proof {
            use_type_invariant(self);
        }
        &self.bytes
    }

    /// Looks the colour `(r, g, b)` up.
    pub fn apply(&self, r: u8, g: u8, b: u8) -> (out: [u8; 3])
        ensures
            out@ == entry(self@, r, g, b),
    {
        proof {
            use_type_invariant(self);
        }
        Lut3D::apply_precomputed(self.bytes.as_slice(), r, g, b)
    }

    /// Replaces each pixel of an RGB buffer, three bytes a pixel, by what the
    /// table holds for it.
    pub fn apply_to_pixels(&self, pixels: &mut Vec<u8>)
        requires
            old(pixels)@.len() % 3 == 0,
        ensures
            final(pixels)@ == pixels_through(self@, old(pixels)@),
    {
        let len: usize = pixels.len();
        let ghost before: Seq<u8> = pixels@;
        let mut i: usize = 0;
        while i < len
            invariant
                i <= len,
                i % 3 == 0,
                len % 3 == 0,
                pixels@.len() == len,
                before.len() == len,
                forall|j: int| 0 <= j < i ==> pixels@[j] == pixels_through(self@, before)[j],
                forall|j: int| i <= j < len ==> pixels@[j] == before[j],
            decreases len - i,
        {
            let px: [u8; 3] = self.apply(pixels[i], pixels[i + 1], pixels[i + 2]);
            proof {
                assert((i + 1) % 3 == 1 && (i + 2) % 3 == 2);
            }
            pixels.set(i, px[0]);
            pixels.set(i + 1, px[1]);
            pixels.set(i + 2, px[2]);
            i += 3;
        }
        assert(pixels@ =~= pixels_through(self@, before));
    }
}

} // verus!
