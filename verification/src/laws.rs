//! What holds of the library as a whole, stated over the same functions as
//! the contracts of its parts.

use crate::arith::{difference, from_nat, less, negated, product, quotient, sum};
use crate::convert::{
    is_whole, lemma_clamp_unit_range, lemma_from_nat_exact, lemma_one,
    lemma_whole_rounds_to_itself,
};
use crate::cube::{absorb_all, lines, parsed};
use crate::convert::clamp_unit;
use crate::ieee::{
    is_finite, is_nan, is_negative, is_zero, lemma_nearest_bounds, lemma_nearest_exact,
    lemma_rounding_exists, lemma_rounding_is_monotone, lemma_scaled_parts, magnitude, round_nearest, scaled, signed, BYTE_MAX,
    INFINITY, ONE,
};
use crate::lut3d::{
    blend, blend_corners, bytes_of, coordinate, high_corner, lemma_coordinate_in_grid, lerp,
    lemma_sample_len, low_corner, nearest_corner, normalized, sample_nearest, sample_of,
    sample_trilinear, to_byte, unit_of, weight, Grid, Interpolation, Triplet,
};
use crate::pack::lemma_below_half_rounds;
use crate::table::{
    blue_at, entry, green_at, lemma_table_entry, packed, red_at, table_of, TABLE_LEN,
};
use vstd::arithmetic::power2::*;
use vstd::prelude::*;

verus! {

/// The table is a faithful cache of sampling: what it holds for a colour
/// is what sampling the grid gives for that colour.
pub proof fn law_table_is_faithful(grid: Grid, mode: Interpolation, r: u8, g: u8, b: u8)
    ensures
        entry(table_of(grid, mode), r, g, b) == sample_of(grid, mode, r, g, b),
{
    let c: int = packed(r, g, b);
    assert(red_at(c) == r && green_at(c) == g && blue_at(c) == b);
    lemma_sample_len(grid, mode, r, g, b);
    lemma_table_entry(grid, mode, c, 0);
    lemma_table_entry(grid, mode, c, 1);
    lemma_table_entry(grid, mode, c, 2);
    assert(entry(table_of(grid, mode), r, g, b) =~= sample_of(grid, mode, r, g, b));
}

/// A lookup stays inside the table: the three bytes of every colour lie
/// within its length.
pub proof fn law_lookup_in_bounds(r: u8, g: u8, b: u8)
    ensures
        0 <= 3 * packed(r, g, b),
        3 * packed(r, g, b) + 3 <= TABLE_LEN,
{
}

/// Making the table is deterministic: equal grids have equal tables.
pub proof fn law_generation_is_deterministic(a: Grid, b: Grid, mode: Interpolation)
    requires
        a == b,
    ensures
        table_of(a, mode) == table_of(b, mode),
{
}

/// A description whose lines give an edge length of at least one and as
/// many samples as the cube of it has is read, and read as that cube.
pub proof fn law_complete_cubes_parse(text: Seq<char>)
    requires
        absorb_all(lines(text)) matches Ok(draft) && draft.size >= 1 && draft.samples.len()
            == draft.size * draft.size * draft.size,
    ensures
        parsed(text) matches Ok(grid) && grid.samples.len() == grid.size * grid.size * grid.size
            && Ok::<Grid, crate::error::ParseFault>(grid) == absorb_all(lines(text)),
{
}


/// Two numbers that no output can tell apart: the same pattern, two NaNs,
/// or two zeros.
pub open spec fn alike(x: u32, y: u32) -> bool {
    x == y || (is_nan(x) && is_nan(y)) || (is_zero(x) && is_zero(y))
}

/// Whether all three channels hold finite numbers.
pub open spec fn finite3(t: Triplet) -> bool {
    is_finite(t.r) && is_finite(t.g) && is_finite(t.b)
}

/// A number times one is itself.
pub proof fn lemma_times_one(a: u32)
    ensures
        !is_nan(a) ==> product(a, ONE) == a,
        is_nan(a) ==> is_nan(product(a, ONE)),
{
    lemma_one();
    lemma_pow2_pos(149);
    if is_finite(a) {
        lemma_nearest_exact(pow2(149), magnitude(a));
    }
}

/// A finite number times zero is zero.
pub proof fn lemma_times_zero(b: u32, w: u32)
    requires
        is_finite(b),
        is_zero(w),
    ensures
        is_zero(product(b, w)),
{
    lemma_pow2_pos(149);
    lemma_scaled_parts(0);
    assert(scaled(magnitude(b)) * 0 == 0);
    lemma_below_half_rounds(0, pow2(149));
}

/// A number plus zero is itself, but that a zero may change its sign.
pub proof fn lemma_plus_zero(a: u32, z: u32)
    requires
        is_zero(z),
    ensures
        alike(sum(a, z), a),
{
    lemma_scaled_parts(0);
    lemma_scaled_parts(magnitude(a));
    if is_finite(a) && !is_zero(a) {
        lemma_nearest_exact(1, magnitude(a));
        assert(scaled(magnitude(a)) * 1 == scaled(magnitude(a)));
    }
}

/// One less zero is one.
pub proof fn lemma_one_minus_zero(w: u32)
    requires
        is_zero(w),
    ensures
        difference(ONE, w) == ONE,
{
    lemma_one();
    lemma_pow2_pos(149);
    lemma_plus_zero(ONE, negated(w));
}

/// A blend in which the second number weighs nothing is the first, where
/// the second is finite.
pub proof fn lemma_lerp_at_zero(a: u32, b: u32, w: u32)
    requires
        is_finite(b),
        is_zero(w),
    ensures
        alike(lerp(a, b, w), a),
{
    lemma_one_minus_zero(w);
    lemma_times_one(a);
    lemma_times_zero(b, w);
    lemma_plus_zero(product(a, ONE), product(b, w));
}

/// The blend of eight numbers at three weights, as `blend_corners` makes it
/// for each channel.
pub open spec fn blend_channel(c: Seq<u32>, dr: u32, dg: u32, db: u32) -> u32 {
    let c00 = lerp(c[0], c[1], dr);
    let c01 = lerp(c[4], c[5], dr);
    let c10 = lerp(c[2], c[3], dr);
    let c11 = lerp(c[6], c[7], dr);
    let c0 = lerp(c00, c10, dg);
    let c1 = lerp(c01, c11, dg);
    lerp(c0, c1, db)
}

/// With all three weights zero, and the seven other corners finite, the
/// blend is the first corner.
pub proof fn lemma_blend_at_corner(c: Seq<u32>, dr: u32, dg: u32, db: u32)
    requires
        c.len() == 8,
        is_zero(dr),
        is_zero(dg),
        is_zero(db),
        forall|k: int| 1 <= k < 8 ==> is_finite(#[trigger] c[k]),
    ensures
        alike(blend_channel(c, dr, dg, db), c[0]),
{
    let c00 = lerp(c[0], c[1], dr);
    let c01 = lerp(c[4], c[5], dr);
    let c10 = lerp(c[2], c[3], dr);
    let c11 = lerp(c[6], c[7], dr);
    let c0 = lerp(c00, c10, dg);
    let c1 = lerp(c01, c11, dg);
    assert(is_finite(c[1]) && is_finite(c[2]) && is_finite(c[3]) && is_finite(c[4]) && is_finite(
        c[5],
    ) && is_finite(c[6]) && is_finite(c[7]));
    lemma_lerp_at_zero(c[0], c[1], dr);
    lemma_lerp_at_zero(c[4], c[5], dr);
    lemma_lerp_at_zero(c[2], c[3], dr);
    lemma_lerp_at_zero(c[6], c[7], dr);
    lemma_lerp_at_zero(c00, c10, dg);
    lemma_lerp_at_zero(c01, c11, dg);
    lemma_lerp_at_zero(c0, c1, db);
}

/// Numbers that are alike become the same byte.
pub proof fn lemma_alike_bytes(x: u32, y: u32)
    requires
        alike(x, y),
    ensures
        to_byte(x) == to_byte(y),
{
    lemma_one();
    lemma_pow2_pos(149);
    lemma_scaled_parts(0);
    if is_zero(x) && is_zero(y) {
        assert(scaled(0) * scaled(magnitude(BYTE_MAX)) == 0);
        lemma_below_half_rounds(0, pow2(149));
        assert(0nat / pow2(149) == 0) by {
            vstd::arithmetic::div_mod::lemma_div_basics(pow2(149) as int);
        }
    }
}

/// On a coordinate that is a whole number, the nearest corner is the low
/// corner, and the weight towards the high corner is zero.
pub proof fn lemma_axis_on_grid_point(v: u8, lo: u32, hi: u32, size: nat)
    requires
        1 <= size < 0x100_0000,
        is_whole(coordinate(v, lo, hi, size)),
    ensures
        nearest_corner(coordinate(v, lo, hi, size), size) == low_corner(
            coordinate(v, lo, hi, size),
        ),
        low_corner(coordinate(v, lo, hi, size)) <= size - 1,
        is_zero(weight(coordinate(v, lo, hi, size))),
{
    let n: u32 = normalized(v, lo, hi);
    let f: u32 = from_nat((size - 1) as nat);
    let x: u32 = coordinate(v, lo, hi, size);
    let w: nat = pow2(149);
    lemma_clamp_unit_range(quotient(difference(unit_of(v), lo), difference(hi, lo)));
    lemma_from_nat_exact((size - 1) as nat);
    lemma_coordinate_in_grid(v, lo, hi, size);
    lemma_pow2_pos(149);
    lemma_scaled_parts(0);
    lemma_scaled_parts(magnitude(n));
    lemma_from_nat_exact(0);
    assert(!is_nan(n));
    crate::lut3d::lemma_product_rounds(n, f);
    if is_negative(x) {
        // the coordinate is a negative zero, and so is its weight
        assert(is_negative(n));
        assert(magnitude(n) == 0);
        assert(scaled(magnitude(n)) * scaled(magnitude(f)) == 0) by (nonlinear_arith)
            requires
                scaled(magnitude(n)) == 0,
        ;
        lemma_below_half_rounds(0, w);
        assert(magnitude(x) == 0);
        assert(scaled(from_nat(0)) == 0) by (nonlinear_arith)
            requires
                scaled(from_nat(0)) == 0 * w,
        ;
        lemma_scaled_parts(from_nat(0));
        assert(from_nat(0) == 0);
    } else {
        let m: u32 = magnitude(x);
        let k: nat = scaled(m) / w;
        vstd::arithmetic::div_mod::lemma_fundamental_div_mod(scaled(m) as int, w as int);
        assert(scaled(m) == k * w) by (nonlinear_arith)
            requires
                scaled(m) == w * k + 0,
        ;
        lemma_whole_rounds_to_itself(x, k);
        lemma_from_nat_exact(k);
        // two magnitudes of one size are one magnitude
        let y: u32 = from_nat(k);
        if m < y {
            crate::ieee::lemma_scaled_increases(m, y);
        }
        if y < m {
            crate::ieee::lemma_scaled_increases(y, m);
        }
        assert(x == y);
    }
}

/// The eight samples around the coordinates `(rx, gx, bx)`, the low corner
/// first, then with the red index, the green index and the blue index
/// counting up in turn.
pub open spec fn corners_around(grid: Grid, rx: u32, gx: u32, bx: u32) -> Seq<Triplet> {
    let r0 = low_corner(rx);
    let r1 = high_corner(rx, grid.size);
    let g0 = low_corner(gx);
    let g1 = high_corner(gx, grid.size);
    let b0 = low_corner(bx);
    let b1 = high_corner(bx, grid.size);
    seq![
        grid.at(r0, g0, b0),
        grid.at(r1, g0, b0),
        grid.at(r0, g1, b0),
        grid.at(r1, g1, b0),
        grid.at(r0, g0, b1),
        grid.at(r1, g0, b1),
        grid.at(r0, g1, b1),
        grid.at(r1, g1, b1),
    ]
}

/// The red channel of each triplet.
pub open spec fn reds(ts: Seq<Triplet>) -> Seq<u32> {
    Seq::new(ts.len(), |k: int| ts[k].r)
}

/// The green channel of each triplet.
pub open spec fn greens(ts: Seq<Triplet>) -> Seq<u32> {
    Seq::new(ts.len(), |k: int| ts[k].g)
}

/// The blue channel of each triplet.
pub open spec fn blues(ts: Seq<Triplet>) -> Seq<u32> {
    Seq::new(ts.len(), |k: int| ts[k].b)
}

/// The blend of the samples around a place is the blend of each channel.
pub proof fn lemma_blend_by_channel(grid: Grid, rx: u32, gx: u32, bx: u32)
    ensures
        corners_around(grid, rx, gx, bx).len() == 8,
        blend(grid, rx, gx, bx) == (Triplet {
            r: blend_channel(
                reds(corners_around(grid, rx, gx, bx)),
                weight(rx),
                weight(gx),
                weight(bx),
            ),
            g: blend_channel(
                greens(corners_around(grid, rx, gx, bx)),
                weight(rx),
                weight(gx),
                weight(bx),
            ),
            b: blend_channel(
                blues(corners_around(grid, rx, gx, bx)),
                weight(rx),
                weight(gx),
                weight(bx),
            ),
        }),
{
    reveal(blend_corners);
}

/// On a grid point, both ways of sampling give the same colour: where each
/// coordinate of the colour is a whole number, and the seven corners that
/// the blend takes with a weight of zero hold finite numbers, blending
/// gives what the nearest sample gives.
pub proof fn law_modes_agree_on_grid_points(grid: Grid, r: u8, g: u8, b: u8)
    requires
        grid.wf(),
        is_whole(coordinate(r, grid.domain_min.r, grid.domain_max.r, grid.size)),
        is_whole(coordinate(g, grid.domain_min.g, grid.domain_max.g, grid.size)),
        is_whole(coordinate(b, grid.domain_min.b, grid.domain_max.b, grid.size)),
        forall|k: int|
            1 <= k < 8 ==> finite3(
                #[trigger] corners_around(
                    grid,
                    coordinate(r, grid.domain_min.r, grid.domain_max.r, grid.size),
                    coordinate(g, grid.domain_min.g, grid.domain_max.g, grid.size),
                    coordinate(b, grid.domain_min.b, grid.domain_max.b, grid.size),
                )[k],
            ),
    ensures
        sample_trilinear(grid, r, g, b) == sample_nearest(grid, r, g, b),
{
    let rx = coordinate(r, grid.domain_min.r, grid.domain_max.r, grid.size);
    let gx = coordinate(g, grid.domain_min.g, grid.domain_max.g, grid.size);
    let bx = coordinate(b, grid.domain_min.b, grid.domain_max.b, grid.size);
    lemma_axis_on_grid_point(r, grid.domain_min.r, grid.domain_max.r, grid.size);
    lemma_axis_on_grid_point(g, grid.domain_min.g, grid.domain_max.g, grid.size);
    lemma_axis_on_grid_point(b, grid.domain_min.b, grid.domain_max.b, grid.size);
    let around: Seq<Triplet> = corners_around(grid, rx, gx, bx);
    let near: Triplet = grid.at(low_corner(rx), low_corner(gx), low_corner(bx));
    let mixed: Triplet = blend(grid, rx, gx, bx);
    lemma_blend_by_channel(grid, rx, gx, bx);
    assert(around[0] == near);
    assert forall|k: int| 1 <= k < 8 implies is_finite(#[trigger] reds(around)[k]) && is_finite(
        #[trigger] greens(around)[k],
    ) && is_finite(#[trigger] blues(around)[k]) by {
        assert(finite3(around[k]));
    }
    lemma_blend_at_corner(reds(around), weight(rx), weight(gx), weight(bx));
    lemma_blend_at_corner(greens(around), weight(rx), weight(gx), weight(bx));
    lemma_blend_at_corner(blues(around), weight(rx), weight(gx), weight(bx));
    lemma_alike_bytes(mixed.r, near.r);
    lemma_alike_bytes(mixed.g, near.g);
    lemma_alike_bytes(mixed.b, near.b);
    lemma_same_bytes(mixed, near);
    lemma_samples_unfold(grid, r, g, b);
}

/// Triplets whose channels become the same bytes become the same colour.
proof fn lemma_same_bytes(x: Triplet, y: Triplet)
    requires
        to_byte(x.r) == to_byte(y.r),
        to_byte(x.g) == to_byte(y.g),
        to_byte(x.b) == to_byte(y.b),
    ensures
        bytes_of(x) == bytes_of(y),
{
    assert(bytes_of(x) =~= bytes_of(y));
}

/// What the two ways of sampling read from.
proof fn lemma_samples_unfold(grid: Grid, r: u8, g: u8, b: u8)
    ensures
        sample_trilinear(grid, r, g, b) == bytes_of(
            blend(
                grid,
                coordinate(r, grid.domain_min.r, grid.domain_max.r, grid.size),
                coordinate(g, grid.domain_min.g, grid.domain_max.g, grid.size),
                coordinate(b, grid.domain_min.b, grid.domain_max.b, grid.size),
            ),
        ),
        sample_nearest(grid, r, g, b) == bytes_of(
            grid.at(
                nearest_corner(
                    coordinate(r, grid.domain_min.r, grid.domain_max.r, grid.size),
                    grid.size,
                ),
                nearest_corner(
                    coordinate(g, grid.domain_min.g, grid.domain_max.g, grid.size),
                    grid.size,
                ),
                nearest_corner(
                    coordinate(b, grid.domain_min.b, grid.domain_max.b, grid.size),
                    grid.size,
                ),
            ),
        ),
{
}


/// Zero times a finite number is zero.
pub proof fn lemma_zero_times(w: u32, b: u32)
    requires
        is_zero(w),
        is_finite(b),
    ensures
        is_zero(product(w, b)),
{
    lemma_pow2_pos(149);
    lemma_scaled_parts(0);
    assert(0 * scaled(magnitude(b)) == 0);
    lemma_below_half_rounds(0, pow2(149));
}

/// Products of numbers that are alike are alike.
pub proof fn lemma_product_alike(x: u32, x2: u32, y: u32, y2: u32)
    requires
        alike(x, x2),
        alike(y, y2),
    ensures
        alike(product(x, y), product(x2, y2)),
{
    if is_nan(x) || is_nan(y) {
    } else if is_zero(x) {
        if is_finite(y) {
            lemma_zero_times(x, y);
            lemma_zero_times(x2, y2);
        }
    } else if is_zero(y) {
        if is_finite(x) {
            lemma_times_zero(x, y);
            lemma_times_zero(x2, y2);
        }
    }
}

/// Sums of numbers that are alike are alike.
pub proof fn lemma_sum_alike(x: u32, x2: u32, y: u32, y2: u32)
    requires
        alike(x, x2),
        alike(y, y2),
    ensures
        alike(sum(x, y), sum(x2, y2)),
{
    lemma_scaled_parts(0);
    lemma_scaled_parts(magnitude(x));
    lemma_scaled_parts(magnitude(y));
    if is_nan(x) || is_nan(y) {
    } else if is_zero(x) && is_zero(y) {
    } else if is_zero(x) {
        lemma_plus_zero(y, x);
        lemma_plus_zero(y2, x2);
        lemma_sum_commutes(x, y);
        lemma_sum_commutes(x2, y2);
    } else if is_zero(y) {
        lemma_plus_zero(x, y);
        lemma_plus_zero(x2, y2);
    }
}

/// A sum does not depend on the order of its terms.
pub proof fn lemma_sum_commutes(x: u32, y: u32)
    ensures
        sum(x, y) == sum(y, x),
{
}

/// The opposites of numbers that are alike are alike.
pub proof fn lemma_negated_alike(x: u32, x2: u32)
    requires
        alike(x, x2),
    ensures
        alike(negated(x), negated(x2)),
{
}

/// Blends of numbers that are alike, at weights that are alike, are alike.
pub proof fn lemma_lerp_alike(a: u32, a2: u32, b: u32, b2: u32, w: u32, w2: u32)
    requires
        alike(a, a2),
        alike(b, b2),
        alike(w, w2),
    ensures
        alike(lerp(a, b, w), lerp(a2, b2, w2)),
{
    lemma_negated_alike(w, w2);
    lemma_sum_alike(ONE, ONE, negated(w), negated(w2));
    lemma_product_alike(a, a2, difference(ONE, w), difference(ONE, w2));
    lemma_product_alike(b, b2, w, w2);
    lemma_sum_alike(
        product(a, difference(ONE, w)),
        product(a2, difference(ONE, w2)),
        product(b, w),
        product(b2, w2),
    );
}

/// The blend of eight numbers does not tell weights apart that are alike.
pub proof fn lemma_blend_channel_alike(
    c: Seq<u32>,
    dr: u32,
    dg: u32,
    db: u32,
    dr2: u32,
    dg2: u32,
    db2: u32,
)
    requires
        alike(dr, dr2),
        alike(dg, dg2),
        alike(db, db2),
    ensures
        alike(blend_channel(c, dr, dg, db), blend_channel(c, dr2, dg2, db2)),
{
    lemma_lerp_alike(c[0], c[0], c[1], c[1], dr, dr2);
    lemma_lerp_alike(c[4], c[4], c[5], c[5], dr, dr2);
    lemma_lerp_alike(c[2], c[2], c[3], c[3], dr, dr2);
    lemma_lerp_alike(c[6], c[6], c[7], c[7], dr, dr2);
    let c00 = lerp(c[0], c[1], dr);
    let c01 = lerp(c[4], c[5], dr);
    let c10 = lerp(c[2], c[3], dr);
    let c11 = lerp(c[6], c[7], dr);
    let d00 = lerp(c[0], c[1], dr2);
    let d01 = lerp(c[4], c[5], dr2);
    let d10 = lerp(c[2], c[3], dr2);
    let d11 = lerp(c[6], c[7], dr2);
    lemma_lerp_alike(c00, d00, c10, d10, dg, dg2);
    lemma_lerp_alike(c01, d01, c11, d11, dg, dg2);
    lemma_lerp_alike(
        lerp(c00, c10, dg),
        lerp(d00, d10, dg2),
        lerp(c01, c11, dg),
        lerp(d01, d11, dg2),
        db,
        db2,
    );
}

/// Coordinates that are alike have the same corners, and weights that are
/// alike.
pub proof fn lemma_axis_alike(x: u32, y: u32, size: nat)
    requires
        alike(x, y),
    ensures
        low_corner(x) == low_corner(y),
        high_corner(x, size) == high_corner(y, size),
        nearest_corner(x, size) == nearest_corner(y, size),
        alike(weight(x), weight(y)),
{
    lemma_scaled_parts(0);
    lemma_pow2_pos(149);
    lemma_pow2_pos(150);
    if is_zero(x) && is_zero(y) {
        vstd::arithmetic::div_mod::lemma_div_basics(pow2(149) as int);
        lemma_pow2_unfold(150);
        vstd::arithmetic::div_mod::lemma_basic_div(pow2(149) as int, pow2(150) as int);
    }
    let c: u32 = negated(from_nat(low_corner(x)));
    lemma_sum_alike(x, y, c, c);
}

/// Colours whose coordinates are alike on every axis, as those of two
/// colours at or below the lower edge of the domain are, are sampled to
/// the same colour.
pub proof fn law_alike_coordinates_same_colour(
    grid: Grid,
    mode: Interpolation,
    r: u8,
    g: u8,
    b: u8,
    r2: u8,
    g2: u8,
    b2: u8,
)
    requires
        alike(
            coordinate(r, grid.domain_min.r, grid.domain_max.r, grid.size),
            coordinate(r2, grid.domain_min.r, grid.domain_max.r, grid.size),
        ),
        alike(
            coordinate(g, grid.domain_min.g, grid.domain_max.g, grid.size),
            coordinate(g2, grid.domain_min.g, grid.domain_max.g, grid.size),
        ),
        alike(
            coordinate(b, grid.domain_min.b, grid.domain_max.b, grid.size),
            coordinate(b2, grid.domain_min.b, grid.domain_max.b, grid.size),
        ),
    ensures
        sample_of(grid, mode, r, g, b) == sample_of(grid, mode, r2, g2, b2),
{
    let rx = coordinate(r, grid.domain_min.r, grid.domain_max.r, grid.size);
    let gx = coordinate(g, grid.domain_min.g, grid.domain_max.g, grid.size);
    let bx = coordinate(b, grid.domain_min.b, grid.domain_max.b, grid.size);
    let ry = coordinate(r2, grid.domain_min.r, grid.domain_max.r, grid.size);
    let gy = coordinate(g2, grid.domain_min.g, grid.domain_max.g, grid.size);
    let by = coordinate(b2, grid.domain_min.b, grid.domain_max.b, grid.size);
    lemma_axis_alike(rx, ry, grid.size);
    lemma_axis_alike(gx, gy, grid.size);
    lemma_axis_alike(bx, by, grid.size);
    lemma_samples_unfold(grid, r, g, b);
    lemma_samples_unfold(grid, r2, g2, b2);
    lemma_blend_by_channel(grid, rx, gx, bx);
    lemma_blend_by_channel(grid, ry, gy, by);
    let around: Seq<Triplet> = corners_around(grid, rx, gx, bx);
    assert(corners_around(grid, ry, gy, by) == around);
    lemma_blend_channel_alike(
        reds(around),
        weight(rx),
        weight(gx),
        weight(bx),
        weight(ry),
        weight(gy),
        weight(by),
    );
    lemma_blend_channel_alike(
        greens(around),
        weight(rx),
        weight(gx),
        weight(bx),
        weight(ry),
        weight(gy),
        weight(by),
    );
    lemma_blend_channel_alike(
        blues(around),
        weight(rx),
        weight(gx),
        weight(bx),
        weight(ry),
        weight(gy),
        weight(by),
    );
    let one: Triplet = blend(grid, rx, gx, bx);
    let two: Triplet = blend(grid, ry, gy, by);
    lemma_alike_bytes(one.r, two.r);
    lemma_alike_bytes(one.g, two.g);
    lemma_alike_bytes(one.b, two.b);
    lemma_same_bytes(one, two);
}


/// A channel value as a number is never negative and never a NaN.
pub proof fn lemma_unit_of_sign(v: u8)
    ensures
        !is_negative(unit_of(v)),
        !is_nan(unit_of(v)),
        signed(unit_of(v)) >= 0,
{
    lemma_from_nat_exact(v as nat);
    lemma_pow2_pos(149);
    lemma_scaled_parts(BYTE_MAX);
    let n: nat = scaled(magnitude(from_nat(v as nat))) * pow2(149);
    lemma_rounding_exists(n, scaled(BYTE_MAX));
}

/// A colour at or below the lower edge of the domain lies at the lower
/// edge of the grid: its coordinate is zero.
pub proof fn law_at_or_below_domain(v: u8, lo: u32, hi: u32, size: nat)
    requires
        1 <= size < 0x100_0000,
        less(lo, hi),
        !less(lo, unit_of(v)),
    ensures
        is_zero(coordinate(v, lo, hi, size)),
{
    let u: u32 = unit_of(v);
    let a: u32 = difference(u, lo);
    let d: u32 = difference(hi, lo);
    let q: u32 = quotient(a, d);
    let n: u32 = clamp_unit(q);
    lemma_unit_of_sign(v);
    lemma_scaled_parts(0);
    lemma_scaled_parts(1);
    lemma_scaled_parts(magnitude(lo));
    lemma_scaled_parts(magnitude(u));
    lemma_scaled_parts(magnitude(hi));
    lemma_scaled_parts(INFINITY);
    lemma_pow2_pos(149);
    lemma_one();
    // the lower edge is finite, and so is the channel value below it
    assert(is_finite(lo)) by {
        if magnitude(hi) < INFINITY {
            crate::ieee::lemma_scaled_increases(magnitude(hi), INFINITY);
        }
        if magnitude(u) < INFINITY {
            crate::ieee::lemma_scaled_increases(magnitude(u), INFINITY);
        }
    }
    assert(is_finite(u)) by {
        crate::ieee::lemma_scaled_increases(magnitude(lo), INFINITY);
    }
    // the distance to the lower edge is zero or negative
    let t: int = signed(u) + signed(negated(lo));
    assert(t <= 0);
    if t < 0 {
        lemma_rounding_exists((-t) as nat, 1);
        lemma_nearest_bounds((-t) as nat, 1, round_nearest((-t) as nat, 1), 1);
        lemma_nearest_bounds((-t) as nat, 1, round_nearest((-t) as nat, 1), magnitude(lo));
        assert(scaled(1) * 1 == 1);
        assert(scaled(magnitude(lo)) * 1 == scaled(magnitude(lo)));
        assert(is_negative(a) && magnitude(a) >= 1);
        assert(is_finite(a));
    } else {
        assert(a == 0);
    }
    // the width of the domain is positive
    if is_finite(hi) {
        let w: int = signed(hi) + signed(negated(lo));
        assert(w > 0);
        lemma_rounding_exists(w as nat, 1);
        lemma_nearest_bounds(w as nat, 1, round_nearest(w as nat, 1), 1);
        assert(scaled(1) * 1 == 1);
    }
    assert(!is_negative(d) && magnitude(d) >= 1 && !is_nan(d));
    // so the quotient is zero or negative, and clamps to zero
    if is_finite(d) && !is_nan(a) {
        let num: nat = scaled(magnitude(a)) * pow2(149);
        lemma_scaled_parts(magnitude(d));
        lemma_rounding_exists(num, scaled(magnitude(d)));
        if magnitude(a) == 0 {
            assert(0 * pow2(149) == 0);
            lemma_below_half_rounds(0, scaled(magnitude(d)));
        }
    }
    lemma_scaled_parts(magnitude(q));
    assert(!is_nan(a));
    assert(!is_nan(q));
    assert(signed(q) <= 0) by {
        if magnitude(a) == 0 {
            assert(is_zero(q));
        } else {
            assert(is_negative(q));
        }
    }
    assert(signed(ONE) > 0);
    assert(!less(ONE, q));
    if !less(q, 0) {
        assert(signed(q) == 0);
        assert(is_zero(q));
    }
    assert(is_zero(n));
    lemma_from_nat_exact((size - 1) as nat);
    lemma_zero_times(n, from_nat((size - 1) as nat));
}


/// A channel value as a number is at most one.
pub proof fn lemma_unit_of_bound(v: u8)
    ensures
        magnitude(unit_of(v)) <= ONE,
        is_finite(unit_of(v)),
{
    lemma_unit_of_sign(v);
    lemma_from_nat_exact(v as nat);
    lemma_from_nat_exact(255);
    lemma_pow2_pos(149);
    lemma_one();
    lemma_scaled_parts(BYTE_MAX);
    let full: nat = scaled(BYTE_MAX);
    let n: nat = scaled(magnitude(from_nat(v as nat))) * pow2(149);
    // 255 is the pattern BYTE_MAX
    assert(scaled(BYTE_MAX) == 255 * pow2(149)) by {
        vstd::arithmetic::power2::lemma2_to64();
        crate::ieee::lemma_scaled_pack(133, 0xff_0000);
        lemma_pow2_adds(16, 133);
        assert(0xff_0000 * pow2(133) == 255 * (0x1_0000 * pow2(133))) by (nonlinear_arith);
    }
    lemma_rounding_exists(n, full);
    assert(n <= scaled(ONE) * full) by (nonlinear_arith)
        requires
            n == (v * pow2(149)) * pow2(149),
            full == 255 * pow2(149),
            scaled(ONE) == pow2(149),
            v <= 255,
    ;
    lemma_nearest_bounds(n, full, round_nearest(n, full), ONE);
}

/// A colour at or above the upper edge of the domain lies at the upper
/// edge of the grid: its coordinate is the last grid index. The width of
/// the domain has to be a finite number.
pub proof fn law_at_or_above_domain(v: u8, lo: u32, hi: u32, size: nat)
    requires
        1 <= size < 0x100_0000,
        less(lo, hi),
        is_finite(difference(hi, lo)),
        !less(unit_of(v), hi),
    ensures
        coordinate(v, lo, hi, size) == from_nat((size - 1) as nat),
{
    let u: u32 = unit_of(v);
    let a: u32 = difference(u, lo);
    let d: u32 = difference(hi, lo);
    let q: u32 = quotient(a, d);
    let f: u32 = from_nat((size - 1) as nat);
    lemma_unit_of_sign(v);
    lemma_unit_of_bound(v);
    lemma_scaled_parts(0);
    lemma_scaled_parts(1);
    lemma_scaled_parts(magnitude(lo));
    lemma_scaled_parts(magnitude(u));
    lemma_scaled_parts(magnitude(hi));
    lemma_scaled_parts(INFINITY);
    lemma_pow2_pos(149);
    lemma_one();
    assert(is_finite(hi)) by {
        if magnitude(u) < INFINITY {
            crate::ieee::lemma_scaled_increases(magnitude(u), INFINITY);
        }
    }
    assert(is_finite(lo));
    // the width of the domain and the distance to its lower edge
    let wide: int = signed(hi) + signed(negated(lo));
    let far: int = signed(u) + signed(negated(lo));
    assert(0 < wide <= far);
    lemma_rounding_exists(wide as nat, 1);
    lemma_rounding_exists(far as nat, 1);
    lemma_nearest_bounds(wide as nat, 1, round_nearest(wide as nat, 1), 1);
    assert(scaled(1) * 1 == 1);
    lemma_rounding_is_monotone(wide as nat, far as nat, 1);
    assert(!is_negative(d) && !is_negative(a) && 1 <= magnitude(d) <= magnitude(a));
    // the quotient is at least one
    if is_finite(a) {
        let num: nat = scaled(magnitude(a)) * pow2(149);
        let den: nat = scaled(magnitude(d));
        lemma_scaled_parts(magnitude(d));
        lemma_scaled_parts(magnitude(a));
        if magnitude(d) < magnitude(a) {
            crate::ieee::lemma_scaled_increases(magnitude(d), magnitude(a));
        }
        lemma_rounding_exists(num, den);
        assert(num >= scaled(ONE) * den) by (nonlinear_arith)
            requires
                num == scaled(magnitude(a)) * pow2(149),
                scaled(ONE) == pow2(149),
                den <= scaled(magnitude(a)),
        ;
        lemma_nearest_bounds(num, den, round_nearest(num, den), ONE);
        assert(!is_negative(q) && magnitude(q) >= ONE);
    } else {
        assert(q == INFINITY);
    }
    lemma_scaled_parts(magnitude(q));
    if magnitude(q) > ONE {
        crate::ieee::lemma_scaled_increases(ONE, magnitude(q));
    }
    assert(clamp_unit(q) == ONE);
    // one times the last grid index is the last grid index
    lemma_from_nat_exact((size - 1) as nat);
    lemma_nearest_exact(pow2(149), f);
    assert(scaled(ONE) * scaled(f) == scaled(f) * pow2(149)) by (nonlinear_arith)
        requires
            scaled(ONE) == pow2(149),
    ;
}

/// Two colours that lie at or below the lower edge of the domain on every
/// axis are sampled to the same colour.
pub proof fn law_below_domain_same_colour(
    grid: Grid,
    mode: Interpolation,
    r: u8,
    g: u8,
    b: u8,
    r2: u8,
    g2: u8,
    b2: u8,
)
    requires
        grid.wf(),
        less(grid.domain_min.r, grid.domain_max.r),
        less(grid.domain_min.g, grid.domain_max.g),
        less(grid.domain_min.b, grid.domain_max.b),
        !less(grid.domain_min.r, unit_of(r)) && !less(grid.domain_min.r, unit_of(r2)),
        !less(grid.domain_min.g, unit_of(g)) && !less(grid.domain_min.g, unit_of(g2)),
        !less(grid.domain_min.b, unit_of(b)) && !less(grid.domain_min.b, unit_of(b2)),
    ensures
        sample_of(grid, mode, r, g, b) == sample_of(grid, mode, r2, g2, b2),
{
    law_at_or_below_domain(r, grid.domain_min.r, grid.domain_max.r, grid.size);
    law_at_or_below_domain(g, grid.domain_min.g, grid.domain_max.g, grid.size);
    law_at_or_below_domain(b, grid.domain_min.b, grid.domain_max.b, grid.size);
    law_at_or_below_domain(r2, grid.domain_min.r, grid.domain_max.r, grid.size);
    law_at_or_below_domain(g2, grid.domain_min.g, grid.domain_max.g, grid.size);
    law_at_or_below_domain(b2, grid.domain_min.b, grid.domain_max.b, grid.size);
    law_alike_coordinates_same_colour(grid, mode, r, g, b, r2, g2, b2);
}

} // verus!
