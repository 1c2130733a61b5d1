//! The fixed partition of the RGB cube into axis-aligned quantization ranges.
//!
//! For a bucket width `s` (clamped to `[1, 64]`), each axis is cut at the
//! start values `0, s, 2*s, ...` while the start is at most `255`; the
//! Cartesian product of the three axes yields the range list, in row-major
//! order of the `(r, g, b)` start triples. Every range carries its
//! component-wise midpoint as the representative color.

use vstd::arithmetic::div_mod::{
    lemma_div_denominator, lemma_div_is_ordered, lemma_div_pos_is_pos, lemma_fundamental_div_mod,
    lemma_fundamental_div_mod_converse, lemma_mod_bound,
};
use vstd::arithmetic::mul::{lemma_mul_inequality, lemma_mul_is_commutative};
use vstd::prelude::*;

use crate::color::Color;

verus! {

/// Bucket width used by the palette extractor: 16 divides 256 evenly, so the
/// cube splits into 16 * 16 * 16 ranges with no truncation at the top.
pub const COLOR_RANGE_INTERVAL: u8 = 16;

/// An axis-aligned box of the RGB cube, inclusive on both corners, together
/// with its precomputed midpoint representative.
#[derive(Clone, Copy, Debug, PartialEq, Eq, Structural)]
pub struct ColorRange {
    pub lower: Color,
    pub upper: Color,
    pub representative: Color,
}

/// The defensive clamp applied to every requested bucket width.
pub open spec fn spec_clamp_step(step: u8) -> u8 {
    if step < 1 {
        1
    } else if step > 64 {
        64
    } else {
        step
    }
}

/// How many bucket start values `0, s, 2*s, ...` are at most 255.
pub open spec fn num_starts(s: int) -> int {
    255int / s + 1
}

/// Total number of ranges generated for bucket width `s`.
pub open spec fn spec_num_ranges(s: int) -> int {
    num_starts(s) * num_starts(s) * num_starts(s)
}

/// Start value of the `i`-th bucket along one axis.
pub open spec fn axis_lower(s: int, i: int) -> int {
    i * s
}

/// End value of the `i`-th bucket along one axis, saturated at 255.
pub open spec fn axis_upper(s: int, i: int) -> int {
    if i * s + (s - 1) <= 255 {
        i * s + (s - 1)
    } else {
        255
    }
}

/// Midpoint of the `i`-th bucket along one axis (integer division).
pub open spec fn axis_rep(s: int, i: int) -> int {
    (axis_lower(s, i) + axis_upper(s, i)) / 2
}

/// The range generated for the start triple `(i*s, j*s, k*s)`.
pub open spec fn spec_range_at(s: int, i: int, j: int, k: int) -> ColorRange {
    ColorRange {
        lower: Color {
            r: axis_lower(s, i) as u8,
            g: axis_lower(s, j) as u8,
            b: axis_lower(s, k) as u8,
        },
        upper: Color {
            r: axis_upper(s, i) as u8,
            g: axis_upper(s, j) as u8,
            b: axis_upper(s, k) as u8,
        },
        representative: Color {
            r: axis_rep(s, i) as u8,
            g: axis_rep(s, j) as u8,
            b: axis_rep(s, k) as u8,
        },
    }
}

/// Position of the range for bucket triple `(i, j, k)` in the generated list.
pub open spec fn flat_index(s: int, i: int, j: int, k: int) -> int {
    (i * num_starts(s) + j) * num_starts(s) + k
}

/// Bucket triple components recovered from a list position.
pub open spec fn unflat_i(s: int, t: int) -> int {
    t / (num_starts(s) * num_starts(s))
}

pub open spec fn unflat_j(s: int, t: int) -> int {
    (t / num_starts(s)) % num_starts(s)
}

pub open spec fn unflat_k(s: int, t: int) -> int {
    t % num_starts(s)
}

/// The range standing at position `t` of the generated list.
pub open spec fn spec_range_flat(s: int, t: int) -> ColorRange {
    spec_range_at(s, unflat_i(s, t), unflat_j(s, t), unflat_k(s, t))
}

/// Whether a color lies inside a range, inclusive per channel.
pub open spec fn spec_in_range(c: Color, range: ColorRange) -> bool {
    &&& range.lower.r <= c.r <= range.upper.r
    &&& range.lower.g <= c.g <= range.upper.g
    &&& range.lower.b <= c.b <= range.upper.b
}

/// Position of the unique range that contains `c` at bucket width `s`.
pub open spec fn spec_classify(s: int, c: Color) -> int {
    flat_index(s, c.r as int / s, c.g as int / s, c.b as int / s)
}

/// The bucket start `i * s` stays within one byte.
proof fn lemma_axis_start_le_255(s: int, i: int)
    requires
        1 <= s,
        0 <= i < num_starts(s),
    ensures
        0 <= i * s <= 255,
{
    lemma_fundamental_div_mod(255, s);
    lemma_mod_bound(255, s);
    lemma_mul_inequality(i, 255int / s, s);
    lemma_mul_is_commutative(255int / s, s);
    assert(0 * s == 0) by (nonlinear_arith);
    lemma_mul_inequality(0, i, s);
}

/// The three axis values of a bucket are ordered and fit in one byte.
proof fn lemma_axis_bounds(s: int, i: int)
    requires
        1 <= s,
        0 <= i < num_starts(s),
    ensures
        0 <= axis_lower(s, i) <= axis_rep(s, i) <= axis_upper(s, i) <= 255,
{
    lemma_axis_start_le_255(s, i);
    let lo = axis_lower(s, i);
    let up = axis_upper(s, i);
    assert(lo <= up <= 255);
    assert((lo + lo) / 2 <= (lo + up) / 2 <= (up + up) / 2) by {
        lemma_div_is_ordered(lo + lo, lo + up, 2);
        lemma_div_is_ordered(lo + up, up + up, 2);
    }
    assert((lo + lo) / 2 == lo && (up + up) / 2 == up) by {
        lemma_fundamental_div_mod_converse(lo + lo, 2, lo, 0);
        lemma_fundamental_div_mod_converse(up + up, 2, up, 0);
    }
}

/// A byte value `v` lies in the `i`-th bucket exactly when `i == v / s`.
proof fn lemma_axis_membership(s: int, i: int, v: int)
    requires
        1 <= s,
        0 <= i < num_starts(s),
        0 <= v <= 255,
    ensures
        (axis_lower(s, i) <= v <= axis_upper(s, i)) <==> i == v / s,
{
    lemma_axis_start_le_255(s, i);
    if axis_lower(s, i) <= v <= axis_upper(s, i) {
        lemma_fundamental_div_mod_converse(v, s, i, v - i * s);
    }
    if i == v / s {
        lemma_fundamental_div_mod(v, s);
        lemma_mod_bound(v, s);
        lemma_mul_is_commutative(s, i);
    }
}

/// Each channel's quotient `v / s` is a valid bucket number.
proof fn lemma_channel_bucket(s: int, v: int)
    requires
        1 <= s,
        0 <= v <= 255,
    ensures
        0 <= v / s < num_starts(s),
{
    lemma_div_pos_is_pos(v, s);
    lemma_div_is_ordered(v, 255, s);
}

/// A valid bucket triple maps to a valid list position.
proof fn lemma_flat_bounds(s: int, i: int, j: int, k: int)
    requires
        1 <= s,
        0 <= i < num_starts(s),
        0 <= j < num_starts(s),
        0 <= k < num_starts(s),
    ensures
        0 <= flat_index(s, i, j, k) < spec_num_ranges(s),
{
    let n = num_starts(s);
    assert(0 <= (i * n + j) * n + k < n * n * n) by (nonlinear_arith)
        requires
            0 <= i < n,
            0 <= j < n,
            0 <= k < n,
    ;
}

/// Flattening then unflattening recovers the bucket triple.
proof fn lemma_flatten(s: int, i: int, j: int, k: int)
    requires
        1 <= s,
        0 <= i < num_starts(s),
        0 <= j < num_starts(s),
        0 <= k < num_starts(s),
    ensures
        0 <= flat_index(s, i, j, k) < spec_num_ranges(s),
        unflat_i(s, flat_index(s, i, j, k)) == i,
        unflat_j(s, flat_index(s, i, j, k)) == j,
        unflat_k(s, flat_index(s, i, j, k)) == k,
{
    let n = num_starts(s);
    let q = i * n + j;
    let t = q * n + k;
    lemma_flat_bounds(s, i, j, k);
    lemma_fundamental_div_mod_converse(t, n, q, k);
    lemma_fundamental_div_mod_converse(q, n, i, j);
    lemma_div_denominator(t, n, n);
}

/// Every list position decomposes into a valid bucket triple.
proof fn lemma_unflatten(s: int, t: int)
    requires
        1 <= s,
        0 <= t < spec_num_ranges(s),
    ensures
        0 <= unflat_i(s, t) < num_starts(s),
        0 <= unflat_j(s, t) < num_starts(s),
        0 <= unflat_k(s, t) < num_starts(s),
        flat_index(s, unflat_i(s, t), unflat_j(s, t), unflat_k(s, t)) == t,
{
    let n = num_starts(s);
    lemma_div_pos_is_pos(255, s);
    lemma_mod_bound(t, n);
    lemma_fundamental_div_mod(t, n);
    let q = t / n;
    lemma_div_pos_is_pos(t, n);
    lemma_mod_bound(q, n);
    lemma_fundamental_div_mod(q, n);
    lemma_div_pos_is_pos(q, n);
    lemma_div_denominator(t, n, n);
    lemma_mul_is_commutative(n, q);
    lemma_mul_is_commutative(n, q / n);
    assert(unflat_i(s, t) == q / n);
    assert(t == q * n + (t % n));
    assert(q == (q / n) * n + (q % n));
    assert(flat_index(s, q / n, q % n, t % n) == ((q / n) * n + (q % n)) * n + (t % n));
    assert(((q / n) * n + (q % n)) * n == q * n) by (nonlinear_arith)
        requires
            q == (q / n) * n + (q % n),
    ;
    assert(n * n * n - 1 == (n * n - 1) * n + (n - 1)) by (nonlinear_arith);
    lemma_div_is_ordered(t, n * n * n - 1, n);
    lemma_fundamental_div_mod_converse(n * n * n - 1, n, n * n - 1, n - 1);
    assert(n * n - 1 == (n - 1) * n + (n - 1)) by (nonlinear_arith);
    lemma_div_is_ordered(q, n * n - 1, n);
    lemma_fundamental_div_mod_converse(n * n - 1, n, n - 1, n - 1);
}

/// A color lies in the range of bucket triple `(i, j, k)` exactly when each
/// channel's quotient picks that bucket.
proof fn lemma_range_at_membership(s: int, i: int, j: int, k: int, c: Color)
    requires
        1 <= s,
        0 <= i < num_starts(s),
        0 <= j < num_starts(s),
        0 <= k < num_starts(s),
    ensures
        spec_in_range(c, spec_range_at(s, i, j, k)) <==> (i == c.r as int / s && j == c.g as int
            / s && k == c.b as int / s),
{
    lemma_axis_bounds(s, i);
    lemma_axis_bounds(s, j);
    lemma_axis_bounds(s, k);
    lemma_axis_membership(s, i, c.r as int);
    lemma_axis_membership(s, j, c.g as int);
    lemma_axis_membership(s, k, c.b as int);
}

/// Every color's classification position is a valid position of the list.
pub proof fn lemma_classify_in_bounds(s: int, c: Color)
    requires
        1 <= s <= 64,
    ensures
        0 <= spec_classify(s, c) < spec_num_ranges(s),
{
    lemma_channel_bucket(s, c.r as int);
    lemma_channel_bucket(s, c.g as int);
    lemma_channel_bucket(s, c.b as int);
    lemma_flat_bounds(s, c.r as int / s, c.g as int / s, c.b as int / s);
}

/// Coverage: at every bucket width, each color lies in the range standing at
/// its classification position, so the ranges jointly cover the cube.
pub proof fn lemma_ranges_cover(s: int, c: Color)
    requires
        1 <= s <= 64,
    ensures
        0 <= spec_classify(s, c) < spec_num_ranges(s),
        spec_in_range(c, spec_range_flat(s, spec_classify(s, c))),
{
    let ri = c.r as int / s;
    let gi = c.g as int / s;
    let bi = c.b as int / s;
    lemma_classify_in_bounds(s, c);
    lemma_channel_bucket(s, c.r as int);
    lemma_channel_bucket(s, c.g as int);
    lemma_channel_bucket(s, c.b as int);
    lemma_flatten(s, ri, gi, bi);
    lemma_range_at_membership(s, ri, gi, bi, c);
}

/// Disjointness: a color lies in no range other than the one standing at its
/// classification position, so the ranges are pairwise non-overlapping.
pub proof fn lemma_ranges_disjoint(s: int, c: Color, t: int)
    requires
        1 <= s <= 64,
        0 <= t < spec_num_ranges(s),
        t != spec_classify(s, c),
    ensures
        !spec_in_range(c, spec_range_flat(s, t)),
{
    lemma_unflatten(s, t);
    let i = unflat_i(s, t);
    let j = unflat_j(s, t);
    let k = unflat_k(s, t);
    lemma_range_at_membership(s, i, j, k, c);
    if spec_in_range(c, spec_range_flat(s, t)) {
        assert(i == c.r as int / s && j == c.g as int / s && k == c.b as int / s);
    }
}

/// Classification is total at the extractor's bucket width: every RGB
/// triple matches exactly one of the generated ranges, the one at its
/// classification position.
pub proof fn lemma_classification_total(c: Color)
    ensures
        0 <= spec_classify(COLOR_RANGE_INTERVAL as int, c) < spec_num_ranges(
            COLOR_RANGE_INTERVAL as int,
        ),
        spec_in_range(
            c,
            spec_range_flat(
                COLOR_RANGE_INTERVAL as int,
                spec_classify(COLOR_RANGE_INTERVAL as int, c),
            ),
        ),
        forall|t: int|
            0 <= t < spec_num_ranges(COLOR_RANGE_INTERVAL as int) && t != spec_classify(
                COLOR_RANGE_INTERVAL as int,
                c,
            ) ==> !spec_in_range(c, spec_range_flat(COLOR_RANGE_INTERVAL as int, t)),
{
    let s = COLOR_RANGE_INTERVAL as int;
    lemma_ranges_cover(s, c);
    assert forall|t: int|
        0 <= t < spec_num_ranges(s) && t != spec_classify(s, c) implies !spec_in_range(
        c,
        spec_range_flat(s, t),
    ) by {
        lemma_ranges_disjoint(s, c, t);
    }
}

/// Each range's representative lies within its own box on every channel.
pub proof fn lemma_representative_in_box(s: int, t: int)
    requires
        1 <= s <= 64,
        0 <= t < spec_num_ranges(s),
    ensures
        spec_in_range(spec_range_flat(s, t).representative, spec_range_flat(s, t)),
{
    lemma_unflatten(s, t);
    lemma_axis_bounds(s, unflat_i(s, t));
    lemma_axis_bounds(s, unflat_j(s, t));
    lemma_axis_bounds(s, unflat_k(s, t));
}

/// The extractor's bucket width passes the clamp unchanged and cuts the
/// cube into exactly 16 * 16 * 16 ranges.
pub proof fn lemma_num_ranges_sixteen()
    ensures
        spec_clamp_step(COLOR_RANGE_INTERVAL) == COLOR_RANGE_INTERVAL,
        num_starts(COLOR_RANGE_INTERVAL as int) == 16,
        spec_num_ranges(COLOR_RANGE_INTERVAL as int) == 4096,
{
    lemma_fundamental_div_mod_converse(255, 16, 15, 15);
    assert(num_starts(16) == 16);
    assert(spec_num_ranges(16) == 4096) by (nonlinear_arith)
        requires
            num_starts(16) == 16,
    ;
}

/// At bucket width 16 the partition is exact: 4096 ranges, each exactly 16
/// wide per axis, with no truncation at the top of the cube.
pub proof fn lemma_step_sixteen(t: int)
    requires
        0 <= t < spec_num_ranges(16),
    ensures
        spec_num_ranges(16) == 4096,
        spec_range_flat(16, t).upper.r == spec_range_flat(16, t).lower.r + 15,
        spec_range_flat(16, t).upper.g == spec_range_flat(16, t).lower.g + 15,
        spec_range_flat(16, t).upper.b == spec_range_flat(16, t).lower.b + 15,
{
    lemma_num_ranges_sixteen();
    lemma_unflatten(16, t);
    lemma_axis_bounds(16, unflat_i(16, t));
    lemma_axis_bounds(16, unflat_j(16, t));
    lemma_axis_bounds(16, unflat_k(16, t));
}

/// One axis of a bucket, computed as the original range builder does:
/// start, saturated end, and midpoint.
fn axis_interval(s: u8, i: usize) -> (r: (u8, u8, u8))
    requires
        1 <= s <= 64,
        (i as int) < num_starts(s as int),
    ensures
        r.0 as int == axis_lower(s as int, i as int),
        r.1 as int == axis_upper(s as int, i as int),
        r.2 as int == axis_rep(s as int, i as int),
{
    proof {
        lemma_axis_start_le_255(s as int, i as int);
    }
    let start: u16 = (i as u16) * (s as u16);
    let top: u16 = start + (s as u16) - 1;
    let upper: u16 = if top <= 255 {
        top
    } else {
        255
    };
    let rep: u16 = (start + upper) / 2;
    (start as u8, upper as u8, rep as u8)
}

/// Builds the full range list for the clamped bucket width, in row-major
/// order of the `(r, g, b)` start triples.
pub fn generate_color_ranges(step: u8) -> (ranges: Vec<ColorRange>)
    ensures
        ranges@.len() == spec_num_ranges(spec_clamp_step(step) as int),
        forall|t: int|
            0 <= t < ranges@.len() ==> ranges@[t] == spec_range_flat(
                spec_clamp_step(step) as int,
                t,
            ),
{
    let validated_step: u8 = if step < 1 {
        1
    } else if step > 64 {
        64
    } else {
        step
    };
    let s: u8 = validated_step;
    let n: usize = 255 / (s as usize) + 1;
    let ghost si: int = s as int;
    assert(n as int == num_starts(si));
    let mut ranges: Vec<ColorRange> = Vec::new();
    let mut i: usize = 0;
    while i < n
        invariant
            1 <= s <= 64,
            s == spec_clamp_step(step),
            n as int == num_starts(si),
            si == s as int,
            i <= n,
            ranges@.len() == flat_index(si, i as int, 0, 0),
            forall|t: int| 0 <= t < ranges@.len() ==> ranges@[t] == spec_range_flat(si, t),
        decreases n - i,
    {
        let mut j: usize = 0;
        while j < n
            invariant
                1 <= s <= 64,
                n as int == num_starts(si),
                si == s as int,
                i < n,
                j <= n,
                ranges@.len() == flat_index(si, i as int, j as int, 0),
                forall|t: int| 0 <= t < ranges@.len() ==> ranges@[t] == spec_range_flat(si, t),
            decreases n - j,
        {
            let mut k: usize = 0;
            while k < n
                invariant
                    1 <= s <= 64,
                    n as int == num_starts(si),
                    si == s as int,
                    i < n,
                    j < n,
                    k <= n,
                    ranges@.len() == flat_index(si, i as int, j as int, k as int),
                    forall|t: int| 0 <= t < ranges@.len() ==> ranges@[t] == spec_range_flat(si, t),
                decreases n - k,
            {
                let (lo_r, up_r, rep_r) = axis_interval(s, i);
                let (lo_g, up_g, rep_g) = axis_interval(s, j);
                let (lo_b, up_b, rep_b) = axis_interval(s, k);
                let range = ColorRange {
                    lower: Color { r: lo_r, g: lo_g, b: lo_b },
                    upper: Color { r: up_r, g: up_g, b: up_b },
                    representative: Color { r: rep_r, g: rep_g, b: rep_b },
                };
                proof {
                    lemma_flat_bounds(si, i as int, j as int, k as int);
                    lemma_flatten(si, i as int, j as int, k as int);
                    lemma_axis_bounds(si, i as int);
                    lemma_axis_bounds(si, j as int);
                    lemma_axis_bounds(si, k as int);
                    assert(range == spec_range_at(si, i as int, j as int, k as int));
                    assert(spec_range_flat(si, flat_index(si, i as int, j as int, k as int))
                        == range);
                }
                ranges.push(range);
                k = k + 1;
            }
            proof {
                let ni = n as int;
                assert((i as int * ni + j as int) * ni + ni == (i as int * ni + (j as int + 1))
                    * ni) by (nonlinear_arith);
            }
            j = j + 1;
        }
        proof {
            let ni = n as int;
            assert((i as int * ni + ni) * ni == ((i as int + 1) * ni) * ni) by (nonlinear_arith);
        }
        i = i + 1;
    }
    proof {
        let ni = n as int;
        assert((ni * ni) * ni == ni * ni * ni);
    }
    ranges
}

/// Whether a color sits inside a range, inclusive on both corners.
pub fn is_in_range(color: &Color, range: &ColorRange) -> (r: bool)
    ensures
        r == spec_in_range(*color, *range),
{
    color.r >= range.lower.r && color.r <= range.upper.r && color.g >= range.lower.g && color.g
        <= range.upper.g && color.b >= range.lower.b && color.b <= range.upper.b
}

/// Position of the first range of the list that contains the color.
pub fn find_range_index(color: &Color, ranges: &Vec<ColorRange>) -> (r: Option<usize>)
    ensures
        r matches Some(t) ==> (t as int) < ranges@.len() && spec_in_range(*color, ranges@[t as int])
            && (forall|u: int| 0 <= u < t as int ==> !spec_in_range(*color, ranges@[u])),
        r is None ==> forall|u: int| 0 <= u < ranges@.len() ==> !spec_in_range(*color, ranges@[u]),
{
    let mut t: usize = 0;
    while t < ranges.len()
        invariant
            t <= ranges@.len(),
            forall|u: int| 0 <= u < t as int ==> !spec_in_range(*color, ranges@[u]),
        decreases ranges@.len() - t,
    {
        if is_in_range(color, &ranges[t]) {
            return Some(t);
        }
        t = t + 1;
    }
    None
}

/// The first range of the list that contains the color, if any; this is the
/// classification step run for every sampled pixel.
pub fn find_representative_color(color: &Color, ranges: &Vec<ColorRange>) -> (r: Option<
    ColorRange,
>)
    ensures
        r matches Some(rg) ==> exists|t: int|
            0 <= t < ranges@.len() && ranges@[t] == rg && spec_in_range(*color, rg) && (forall|
                u: int,
            | 0 <= u < t ==> !spec_in_range(*color, ranges@[u])),
        r is None ==> forall|u: int| 0 <= u < ranges@.len() ==> !spec_in_range(*color, ranges@[u]),
{
    match find_range_index(color, ranges) {
        Some(t) => Some(ranges[t]),
        None => None,
    }
}

} // verus!
