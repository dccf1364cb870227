//! The sampled colour cube and the two ways of reading a colour through it.

use crate::arith::{
    difference, from_nat, from_u64, minus, over, plus, product, quotient, sum, times,
};
use crate::convert::{
    at_most, clamp_to_unit, clamp_unit, lemma_clamp_unit_range, lemma_from_nat_exact, lemma_one,
    nearest_whole, nearest_whole_capped, whole_part, whole_part_capped,
};
use crate::ieee::{
    is_nan, is_negative, lemma_nearest_bounds, lemma_rounding_exists, lemma_scaled_increases,
    magnitude, nearest, round_nearest, scaled, BYTE_MAX, INFINITY, ONE,
};
use crate::error::{ParseError, ParseFault};
use vstd::arithmetic::div_mod::*;
use vstd::arithmetic::power2::*;
use vstd::prelude::*;

verus! {

/// Three single precision patterns, one for each colour channel.
#[derive(Clone, Copy, Debug, PartialEq, Eq)]
pub struct Triplet {
    pub r: u32,
    pub g: u32,
    pub b: u32,
}

/// How a colour between the samples of the cube is found.
#[derive(Clone, Copy, Debug, PartialEq, Eq)]
pub enum Interpolation {
    /// The sample nearest to the colour.
    Nearest,
    /// A blend of the eight samples around the colour.
    Trilinear,
}

/// What a cube holds, as mathematics: the edge length, the samples in
/// file order (red index fastest) and the two corners of the domain.
pub ghost struct Grid {
    pub size: nat,
    pub samples: Seq<Triplet>,
    pub domain_min: Triplet,
    pub domain_max: Triplet,
}

impl Grid {
    /// The cube has a sample for each of its `size`^3 points, and the edge
    /// length is small enough to be counted exactly in single precision.
    pub open spec fn wf(self) -> bool {
        &&& 1 <= self.size < 0x100_0000
        &&& self.samples.len() == self.size * self.size * self.size
    }

    /// The place of the sample at grid point `(r, g, b)`.
    pub open spec fn index(self, r: nat, g: nat, b: nat) -> nat {
        r + g * self.size + b * self.size * self.size
    }

    /// The sample at grid point `(r, g, b)`.
    pub open spec fn at(self, r: nat, g: nat, b: nat) -> Triplet {
        self.samples[self.index(r, g, b) as int]
    }
}

/// The 8-bit channel value as a number between zero and one.
pub open spec fn unit_of(v: u8) -> u32 {
    quotient(from_nat(v as nat), BYTE_MAX)
}

/// The channel value placed in the domain from `lo` to `hi`: zero at `lo`
/// and below, one at `hi` and above.
pub open spec fn normalized(v: u8, lo: u32, hi: u32) -> u32 {
    clamp_unit(quotient(difference(unit_of(v), lo), difference(hi, lo)))
}

/// The channel value in grid coordinates, from zero to `size - 1`.
pub open spec fn coordinate(v: u8, lo: u32, hi: u32, size: nat) -> u32 {
    product(normalized(v, lo, hi), from_nat((size - 1) as nat))
}

/// A sample component as an 8-bit channel value: clamped to the unit
/// interval, scaled by 255 and cut to its whole part.
pub open spec fn to_byte(c: u32) -> u8 {
    at_most(whole_part(product(clamp_unit(c), BYTE_MAX)), 255) as u8
}

/// The grid index nearest to a coordinate.
pub open spec fn nearest_corner(x: u32, size: nat) -> nat {
    at_most(nearest_whole(x), (size - 1) as nat)
}

/// The grid index at or below a coordinate.
pub open spec fn low_corner(x: u32) -> nat {
    whole_part(x)
}

/// The grid index above the low corner, kept inside the grid.
pub open spec fn high_corner(x: u32, size: nat) -> nat {
    at_most(low_corner(x) + 1, (size - 1) as nat)
}

/// How far a coordinate lies above its low corner.
pub open spec fn weight(x: u32) -> u32 {
    difference(x, from_nat(low_corner(x)))
}

/// The blend of `a` and `b` in which `b` weighs `t`.
pub open spec fn lerp(a: u32, b: u32, t: u32) -> u32 {
    sum(product(a, difference(ONE, t)), product(b, t))
}

/// The blend of two samples, channel by channel.
pub open spec fn lerp3(a: Triplet, b: Triplet, t: u32) -> Triplet {
    Triplet { r: lerp(a.r, b.r, t), g: lerp(a.g, b.g, t), b: lerp(a.b, b.b, t) }
}

/// A sample as three 8-bit channel values.
pub open spec fn bytes_of(t: Triplet) -> Seq<u8> {
    seq![to_byte(t.r), to_byte(t.g), to_byte(t.b)]
}

/// The colour that nearest-neighbour sampling gives for `(r, g, b)`.
pub open spec fn sample_nearest(grid: Grid, r: u8, g: u8, b: u8) -> Seq<u8> {
    let ri = nearest_corner(
        coordinate(r, grid.domain_min.r, grid.domain_max.r, grid.size),
        grid.size,
    );
    let gi = nearest_corner(
        coordinate(g, grid.domain_min.g, grid.domain_max.g, grid.size),
        grid.size,
    );
    let bi = nearest_corner(
        coordinate(b, grid.domain_min.b, grid.domain_max.b, grid.size),
        grid.size,
    );
    bytes_of(grid.at(ri, gi, bi))
}

/// The blend of the eight samples at the corners `r0`/`r1`, `g0`/`g1` and
/// `b0`/`b1`: along the red axis first with weight `dr`, then along the green
/// with `dg`, then along the blue with `db`.
#[verifier::opaque]
pub open spec fn blend_corners(
    grid: Grid,
    r0: nat,
    r1: nat,
    g0: nat,
    g1: nat,
    b0: nat,
    b1: nat,
    dr: u32,
    dg: u32,
    db: u32,
) -> Triplet {
    let c00 = lerp3(grid.at(r0, g0, b0), grid.at(r1, g0, b0), dr);
    let c01 = lerp3(grid.at(r0, g0, b1), grid.at(r1, g0, b1), dr);
    let c10 = lerp3(grid.at(r0, g1, b0), grid.at(r1, g1, b0), dr);
    let c11 = lerp3(grid.at(r0, g1, b1), grid.at(r1, g1, b1), dr);
    let c0 = lerp3(c00, c10, dg);
    let c1 = lerp3(c01, c11, dg);
    lerp3(c0, c1, db)
}

/// The blend of the eight samples around the coordinates `(rx, gx, bx)`.
pub open spec fn blend(grid: Grid, rx: u32, gx: u32, bx: u32) -> Triplet {
    blend_corners(
        grid,
        low_corner(rx),
        high_corner(rx, grid.size),
        low_corner(gx),
        high_corner(gx, grid.size),
        low_corner(bx),
        high_corner(bx, grid.size),
        weight(rx),
        weight(gx),
        weight(bx),
    )
}

/// The colour that trilinear sampling gives for `(r, g, b)`.
pub open spec fn sample_trilinear(grid: Grid, r: u8, g: u8, b: u8) -> Seq<u8> {
    bytes_of(
        blend(
            grid,
            coordinate(r, grid.domain_min.r, grid.domain_max.r, grid.size),
            coordinate(g, grid.domain_min.g, grid.domain_max.g, grid.size),
            coordinate(b, grid.domain_min.b, grid.domain_max.b, grid.size),
        ),
    )
}

/// The colour that sampling in the given mode gives for `(r, g, b)`.
pub open spec fn sample_of(grid: Grid, mode: Interpolation, r: u8, g: u8, b: u8) -> Seq<u8> {
    match mode {
        Interpolation::Nearest => sample_nearest(grid, r, g, b),
        Interpolation::Trilinear => sample_trilinear(grid, r, g, b),
    }
}

/// A sample has three bytes.
pub proof fn lemma_sample_len(grid: Grid, mode: Interpolation, r: u8, g: u8, b: u8)
    ensures
        sample_of(grid, mode, r, g, b).len() == 3,
{
}

/// A coordinate never leaves the grid: its whole part is at most `size - 1`.
pub proof fn lemma_coordinate_in_grid(v: u8, lo: u32, hi: u32, size: nat)
    requires
        1 <= size < 0x100_0000,
    ensures
        low_corner(coordinate(v, lo, hi, size)) <= size - 1,
{
    let n: u32 = normalized(v, lo, hi);
    let f: u32 = from_nat((size - 1) as nat);
    let x: u32 = product(n, f);
    lemma_clamp_unit_range(quotient(difference(unit_of(v), lo), difference(hi, lo)));
    lemma_from_nat_exact((size - 1) as nat);
    lemma_one();
    lemma_pow2_pos(149);
    if !is_nan(x) && !is_negative(x) {
        assert(!is_nan(n));
        assert(magnitude(f) == f);
        let num: nat = scaled(magnitude(n)) * scaled(f);
        let m: u32 = round_nearest(num, pow2(149));
        lemma_product_rounds(n, f);
        assert(magnitude(x) == m);
        if magnitude(n) < ONE {
            lemma_scaled_increases(magnitude(n), ONE);
        }
        assert(num <= scaled(f) * pow2(149)) by (nonlinear_arith)
            requires
                num == scaled(magnitude(n)) * scaled(f),
                scaled(magnitude(n)) <= pow2(149),
        ;
        lemma_nearest_bounds(num, pow2(149), m, f);
        if m < f {
            lemma_scaled_increases(m, f);
        }
        lemma_div_is_ordered(scaled(m) as int, scaled(f) as int, pow2(149) as int);
    }
}

/// The magnitude of a product of finite numbers is nearest to the exact
/// product.
pub proof fn lemma_product_rounds(a: u32, b: u32)
    requires
        magnitude(a) < INFINITY,
        magnitude(b) < INFINITY,
    ensures
        nearest(
            scaled(magnitude(a)) * scaled(magnitude(b)),
            pow2(149),
            magnitude(product(a, b)),
        ),
        magnitude(product(a, b)) == round_nearest(
            scaled(magnitude(a)) * scaled(magnitude(b)),
            pow2(149),
        ),
        is_negative(product(a, b)) == (is_negative(a) != is_negative(b)),
{
    lemma_pow2_pos(149);
    lemma_rounding_exists(scaled(magnitude(a)) * scaled(magnitude(b)), pow2(149));
}


/// A 3D look-up table: a cube of colour samples with the domain that input
/// colours are placed in before the cube is read.
pub struct Lut3D {
    size: usize,
    data: Vec<Triplet>,
    domain_min: Triplet,
    domain_max: Triplet,
}

impl View for Lut3D {
    type V = Grid;

    closed spec fn view(&self) -> Grid {
        Grid {
            size: self.size as nat,
            samples: self.data@,
            domain_min: self.domain_min,
            domain_max: self.domain_max,
        }
    }
}

/// The cube of an edge length that fits the address space is below 2^24.
proof fn lemma_size_bound(size: nat, len: nat)
    requires
        len == size * size * size,
        len <= usize::MAX,
    ensures
        size < 0x40_0000,
        size * size <= len || size == 0,
{
    if size >= 0x40_0000 {
        assert(size * size * size >= 0x40_0000 * 0x40_0000 * 0x40_0000) by (nonlinear_arith)
            requires
                size >= 0x40_0000,
        ;
    }
    if size > 0 {
        assert(size * size <= size * size * size) by (nonlinear_arith)
            requires
                size >= 1,
        ;
    }
}

/// A grid point lies inside the sample sequence.
pub proof fn lemma_index_in_range(grid: Grid, r: nat, g: nat, b: nat)
    requires
        grid.wf(),
        r < grid.size,
        g < grid.size,
        b < grid.size,
    ensures
        grid.index(r, g, b) < grid.samples.len(),
        g * grid.size <= grid.index(r, g, b),
        b * grid.size * grid.size <= grid.index(r, g, b),
        b * grid.size <= grid.index(r, g, b),
{
    let n: nat = grid.size;
    assert(r + g * n + b * n * n < n * n * n && b * n <= b * n * n) by (nonlinear_arith)
        requires
            r < n,
            g < n,
            b < n,
    ;
}

impl Lut3D {
    #[verifier::type_invariant]
    spec fn inv(self) -> bool {
        &&& self.size >= 1
        &&& self.data@.len() == self.size * self.size * self.size
    }

    /// Builds a table from its parts. The edge length must be at least one
    /// and the samples must fill the cube.
    pub fn from_parts(
        size: usize,
        samples: Vec<Triplet>,
        domain_min: Triplet,
        domain_max: Triplet,
    ) -> (r: Result<Lut3D, ParseError>)
        ensures
            match r {
                Ok(lut) => {
                    &&& lut@ == (Grid {
                        size: size as nat,
                        samples: samples@,
                        domain_min,
                        domain_max,
                    })
                    &&& lut@.wf()
                },
                Err(e) => grid_fault(size as nat, samples@.len()) == Some(e@),
            },
            r is Ok <==> grid_fault(size as nat, samples@.len()) is None,
    {
        if size == 0 {
            return Err(ParseError::MissingSize);
        }
        let found: usize = samples.len();
        if size > 0x40_0000 {
            proof {
                assert(size * size * size > 0x1_0000_0000_0000_0000) by (nonlinear_arith)
                    requires
                        size > 0x40_0000,
                ;
            }
            return Err(ParseError::SizeMismatch { size, found });
        }
        let edge: u128 = size as u128;
        proof {
            assert(edge * edge <= 0x40_0000 * 0x40_0000 && edge * edge * edge <= 0x40_0000
                * 0x40_0000 * 0x40_0000) by (nonlinear_arith)
                requires
                    edge <= 0x40_0000,
            ;
        }
        if edge * edge * edge != found as u128 {
            return Err(ParseError::SizeMismatch { size, found });
        }
        let lut = Lut3D { size, data: samples, domain_min, domain_max };
        proof {
            lemma_size_bound(size as nat, found as nat);
        }
        Ok(lut)
    }

    /// The edge length of the cube.
    pub fn size(&self) -> (n: usize)
        ensures
            n == self@.size,
            self@.wf(),
    {
        proof {
            use_type_invariant(self);
            lemma_size_bound(self.size as nat, self.data.len() as nat);
        }
        self.size
    }

    /// The samples, in file order.
    pub fn samples(&self) -> (samples: &Vec<Triplet>)
        ensures
            samples@ == self@.samples,
    {
        &self.data
    }

    /// The lower corner of the domain.
    pub fn domain_min(&self) -> (t: Triplet)
        ensures
            t == self@.domain_min,
    {
        self.domain_min
    }

    /// The upper corner of the domain.
    pub fn domain_max(&self) -> (t: Triplet)
        ensures
            t == self@.domain_max,
    {
        self.domain_max
    }

    /// The sample at grid point `(r, g, b)`.
    pub fn sample_at(&self, r: usize, g: usize, b: usize) -> (t: Triplet)
        requires
            r < self@.size,
            g < self@.size,
            b < self@.size,
        ensures
            t == self@.at(r as nat, g as nat, b as nat),
    {
        proof {
            use_type_invariant(self);
            lemma_size_bound(self.size as nat, self.data.len() as nat);
            lemma_index_in_range(self@, r as nat, g as nat, b as nat);
            assert(b * self.size * self.size == (b * self.size) * self.size) by (nonlinear_arith);
        }
        self.data[r + g * self.size + b * self.size * self.size]
    }

    /// The grid coordinate of a channel value on an axis with the domain
    /// from `lo` to `hi`.
    fn axis(&self, v: u8, lo: u32, hi: u32) -> (x: u32)
        ensures
            x == coordinate(v, lo, hi, self@.size),
    {
        proof {
            use_type_invariant(self);
        }
        let unit: u32 = over(from_u64(v as u64), BYTE_MAX);
        let n: u32 = clamp_to_unit(over(minus(unit, lo), minus(hi, lo)));
        times(n, from_u64((self.size - 1) as u64))
    }

    /// Reads the colour `(r, g, b)` through the table by taking the sample
    /// nearest to it.
    pub fn apply_lut(&self, r: u8, g: u8, b: u8) -> (out: [u8; 3])
        ensures
            out@ == sample_nearest(self@, r, g, b),
    {
        proof {
            use_type_invariant(self);
            lemma_size_bound(self.size as nat, self.data.len() as nat);
        }
        let ri: usize = self.nearest_on(r, self.domain_min.r, self.domain_max.r);
        let gi: usize = self.nearest_on(g, self.domain_min.g, self.domain_max.g);
        let bi: usize = self.nearest_on(b, self.domain_min.b, self.domain_max.b);
        self.bytes_at(ri, gi, bi)
    }

    /// The place of the channel value `v` on an axis with the domain from
    /// `lo` to `hi`.
    pub fn locate_on(&self, v: u8, lo: u32, hi: u32) -> (p: AxisPoint)
        ensures
            p.locates(coordinate(v, lo, hi, self@.size), self@.size),
            p.low < self@.size,
            p.high < self@.size,
    {
        proof {
            use_type_invariant(self);
            lemma_size_bound(self.size as nat, self.data.len() as nat);
            lemma_coordinate_in_grid(v, lo, hi, self.size as nat);
        }
        locate(self.axis(v, lo, hi), self.size - 1)
    }

    /// The grid index nearest to the channel value `v` on an axis with the
    /// domain from `lo` to `hi`.
    pub fn nearest_on(&self, v: u8, lo: u32, hi: u32) -> (i: usize)
        ensures
            i == nearest_corner(coordinate(v, lo, hi, self@.size), self@.size),
            i < self@.size,
    {
        proof {
            use_type_invariant(self);
        }
        nearest_whole_capped(self.axis(v, lo, hi), (self.size - 1) as u64) as usize
    }

    /// The sample at a grid point as three 8-bit channel values.
    pub fn bytes_at(&self, r: usize, g: usize, b: usize) -> (out: [u8; 3])
        requires
            r < self@.size,
            g < self@.size,
            b < self@.size,
        ensures
            out@ == bytes_of(self@.at(r as nat, g as nat, b as nat)),
    {
        to_bytes(self.sample_at(r, g, b))
    }

    /// Blends the eight samples around a place in the grid.
    pub fn blend_at(&self, pr: &AxisPoint, pg: &AxisPoint, pb: &AxisPoint) -> (out: [u8; 3])
        requires
            pr.low < self@.size && pr.high < self@.size,
            pg.low < self@.size && pg.high < self@.size,
            pb.low < self@.size && pb.high < self@.size,
            pr.rest == difference(ONE, pr.weight),
            pg.rest == difference(ONE, pg.weight),
            pb.rest == difference(ONE, pb.weight),
        ensures
            out@ == bytes_of(
                blend_corners(
                    self@,
                    pr.low as nat,
                    pr.high as nat,
                    pg.low as nat,
                    pg.high as nat,
                    pb.low as nat,
                    pb.high as nat,
                    pr.weight,
                    pg.weight,
                    pb.weight,
                ),
            ),
    {
        reveal(blend_corners);
        let c00: Triplet = mix3(
            self.sample_at(pr.low, pg.low, pb.low),
            self.sample_at(pr.high, pg.low, pb.low),
            pr.weight,
            pr.rest,
        );
        let c01: Triplet = mix3(
            self.sample_at(pr.low, pg.low, pb.high),
            self.sample_at(pr.high, pg.low, pb.high),
            pr.weight,
            pr.rest,
        );
        let c10: Triplet = mix3(
            self.sample_at(pr.low, pg.high, pb.low),
            self.sample_at(pr.high, pg.high, pb.low),
            pr.weight,
            pr.rest,
        );
        let c11: Triplet = mix3(
            self.sample_at(pr.low, pg.high, pb.high),
            self.sample_at(pr.high, pg.high, pb.high),
            pr.weight,
            pr.rest,
        );
        let c0: Triplet = mix3(c00, c10, pg.weight, pg.rest);
        let c1: Triplet = mix3(c01, c11, pg.weight, pg.rest);
        to_bytes(mix3(c0, c1, pb.weight, pb.rest))
    }

    /// Reads the colour `(r, g, b)` through the table by blending the eight
    /// samples around it.
    pub fn apply_lut_trilinear(&self, r: u8, g: u8, b: u8) -> (out: [u8; 3])
        ensures
            out@ == sample_trilinear(self@, r, g, b),
    {
        let pr: AxisPoint = self.locate_on(r, self.domain_min.r, self.domain_max.r);
        let pg: AxisPoint = self.locate_on(g, self.domain_min.g, self.domain_max.g);
        let pb: AxisPoint = self.locate_on(b, self.domain_min.b, self.domain_max.b);
        self.blend_at(&pr, &pg, &pb)
    }

    /// Reads the colour `(r, g, b)` through the table in the given mode.
    pub fn sample(&self, mode: Interpolation, r: u8, g: u8, b: u8) -> (out: [u8; 3])
        ensures
            out@ == sample_of(self@, mode, r, g, b),
    {
        match mode {
            Interpolation::Nearest => self.apply_lut(r, g, b),
            Interpolation::Trilinear => self.apply_lut_trilinear(r, g, b),
        }
    }
}

/// Where a coordinate lies on one axis of the grid: the corners on either
/// side of it, its weight towards the high corner and one minus that weight.
#[derive(Clone, Copy, Debug)]
pub struct AxisPoint {
    pub low: usize,
    pub high: usize,
    pub weight: u32,
    pub rest: u32,
}

impl AxisPoint {
    /// The point is the place of the coordinate `x` on an axis of a grid of
    /// edge length `size`.
    pub open spec fn locates(self, x: u32, size: nat) -> bool {
        &&& self.low == low_corner(x)
        &&& self.high == high_corner(x, size)
        &&& self.weight == weight(x)
        &&& self.rest == difference(ONE, weight(x))
    }
}

/// Finds the place of the coordinate `x` on an axis whose last index is `top`.
pub fn locate(x: u32, top: usize) -> (p: AxisPoint)
    requires
        low_corner(x) <= top,
    ensures
        p.locates(x, (top + 1) as nat),
        p.low <= top,
        p.high <= top,
{
    let low: usize = whole_part_capped(x, top as u64) as usize;
    let high: usize = if low < top {
        low + 1
    } else {
        top
    };
    let weight: u32 = minus(x, from_u64(low as u64));
    AxisPoint { low, high, weight, rest: minus(ONE, weight) }
}

/// Blends `a` and `b`, of which `b` weighs `t` and `a` weighs `rest`.
fn mix(a: u32, b: u32, t: u32, rest: u32) -> (c: u32)
    requires
        rest == difference(ONE, t),
    ensures
        c == lerp(a, b, t),
{
    plus(times(a, rest), times(b, t))
}

/// Blends two samples, channel by channel.
fn mix3(a: Triplet, b: Triplet, t: u32, rest: u32) -> (c: Triplet)
    requires
        rest == difference(ONE, t),
    ensures
        c == lerp3(a, b, t),
{
    Triplet { r: mix(a.r, b.r, t, rest), g: mix(a.g, b.g, t, rest), b: mix(a.b, b.b, t, rest) }
}

/// The fault, if any, that keeps `found` samples from being a cube of edge
/// length `size`.
pub open spec fn grid_fault(size: nat, found: nat) -> Option<ParseFault> {
    if size == 0 {
        Some(ParseFault::MissingSize)
    } else if found != size * size * size {
        Some(ParseFault::SizeMismatch { size, found })
    } else {
        None
    }
}

/// A sample component as an 8-bit channel value.
pub fn channel(c: u32) -> (v: u8)
    ensures
        v == to_byte(c),
{
    whole_part_capped(times(clamp_to_unit(c), BYTE_MAX), 255) as u8
}

/// A sample as three 8-bit channel values.
pub fn to_bytes(t: Triplet) -> (out: [u8; 3])
    ensures
        out@ == bytes_of(t),
{
    let out: [u8; 3] = [channel(t.r), channel(t.g), channel(t.b)];
    assert(out@ =~= bytes_of(t));
    out
}

} // verus!
