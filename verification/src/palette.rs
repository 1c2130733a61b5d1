//! Palette extraction: pixel sampling, per-range tallying, and selection of
//! the most frequent ranges as hex strings.
//!
//! Pixels are sampled on a fixed stride of 3 in both axes, classified into
//! the fixed bucket-width-16 partition of the RGB cube, and tallied per
//! range position. Occupied positions are ordered by count descending with
//! ties broken by ascending position (the position order is the
//! lexicographic order of the ranges' lower corners), which makes the
//! selection deterministic; the first `top_n` representatives are rendered
//! as `#RRGGBB` strings.

use vstd::arithmetic::div_mod::{
    lemma_div_is_ordered, lemma_div_pos_is_pos, lemma_fundamental_div_mod,
    lemma_fundamental_div_mod_converse, lemma_mod_bound,
};
use vstd::prelude::*;
use vstd::relations::{sorted_by, total_ordering};
use vstd::seq_lib::{lemma_sorted_unique, to_multiset_insert};

use crate::color::{Color, PixelGrid};
use crate::hex::{rgba_to_hex, spec_hex};
use crate::ranges::{
    find_range_index, generate_color_ranges, lemma_classify_in_bounds, lemma_ranges_cover,
    lemma_ranges_disjoint, spec_classify, spec_in_range, spec_num_ranges, spec_range_flat,
    COLOR_RANGE_INTERVAL,
};

verus! {

/// Spatial sampling stride: only every third pixel column and row is read.
/// This subsampling is part of the output contract, not a tunable.
pub const SAMPLE_STRIDE: u32 = 3;

/// How many pixel columns are sampled from an image of width `w`.
pub open spec fn sample_cols(w: int) -> int {
    (w + 2) / 3
}

/// How many pixel rows are sampled from an image of height `h`.
pub open spec fn sample_rows(h: int) -> int {
    (h + 2) / 3
}

/// Total number of sampled coordinates.
pub open spec fn sample_total(w: int, h: int) -> int {
    sample_cols(w) * sample_rows(h)
}

/// The color under the `t`-th sampled coordinate, taking samples row-major:
/// sample `t` reads the pixel at `x = 3 * (t % cols)`, `y = 3 * (t / cols)`.
pub open spec fn sample_color(w: int, px: Seq<Color>, t: int) -> Color {
    px[3 * (t / sample_cols(w)) * w + 3 * (t % sample_cols(w))]
}

/// How many of the first `t` samples are classified into range position `i`.
pub open spec fn count_upto(w: int, px: Seq<Color>, i: int, t: int) -> int
    decreases t,
{
    if t <= 0 {
        0
    } else {
        count_upto(w, px, i, t - 1) + if spec_classify(
            COLOR_RANGE_INTERVAL as int,
            sample_color(w, px, t - 1),
        ) == i {
            1int
        } else {
            0int
        }
    }
}

/// The final tally of range position `i` over the whole sampled image.
pub open spec fn spec_count(w: int, h: int, px: Seq<Color>, i: int) -> int {
    count_upto(w, px, i, sample_total(w, h))
}

/// The tallies of all range positions, as the tally vector the extractor
/// builds.
pub open spec fn spec_counts_seq(w: int, h: int, px: Seq<Color>) -> Seq<u64> {
    Seq::new(
        spec_num_ranges(COLOR_RANGE_INTERVAL as int) as nat,
        |i: int| spec_count(w, h, px, i) as u64,
    )
}

/// A tally never exceeds the number of samples taken.
proof fn lemma_count_upto_le(w: int, px: Seq<Color>, i: int, t: int)
    requires
        0 <= t,
    ensures
        0 <= count_upto(w, px, i, t) <= t,
    decreases t,
{
    if t > 0 {
        lemma_count_upto_le(w, px, i, t - 1);
    }
}

/// The `(position, count)` pairs of the range positions hit at least once,
/// in ascending position order.
pub open spec fn spec_occupied(counts: Seq<u64>) -> Seq<(usize, u64)>
    decreases counts.len(),
{
    if counts.len() == 0 {
        Seq::empty()
    } else {
        let prefix = spec_occupied(counts.drop_last());
        if counts.last() > 0 {
            prefix.push(((counts.len() - 1) as usize, counts.last()))
        } else {
            prefix
        }
    }
}

/// Every pair of the occupied list records a positive tally at its own
/// position, and every position with a positive tally is listed.
proof fn lemma_occupied_elems(counts: Seq<u64>)
    requires
        counts.len() <= usize::MAX,
    ensures
        spec_occupied(counts).len() <= counts.len(),
        forall|m: int|
            0 <= m < spec_occupied(counts).len() ==> (#[trigger] spec_occupied(counts)[m]).0
                < counts.len() && counts[spec_occupied(counts)[m].0 as int] == spec_occupied(
                counts,
            )[m].1 && spec_occupied(counts)[m].1 > 0,
        forall|i: int|
            0 <= i < counts.len() && counts[i] > 0 ==> spec_occupied(counts).contains(
                ((i as usize), counts[i]),
            ),
    decreases counts.len(),
{
    if counts.len() > 0 {
        lemma_occupied_elems(counts.drop_last());
        let prefix = spec_occupied(counts.drop_last());
        assert(forall|i: int|
            0 <= i < counts.len() - 1 ==> counts.drop_last()[i] == counts[i]);
        assert forall|i: int| 0 <= i < counts.len() && counts[i] > 0 implies spec_occupied(
            counts,
        ).contains(((i as usize), counts[i])) by {
            if i < counts.len() - 1 {
                assert(counts.drop_last()[i] == counts[i]);
                assert(prefix.contains(((i as usize), counts[i])));
                let m = choose|m: int| 0 <= m < prefix.len() && prefix[m] == ((i as usize), counts[i]);
                assert(spec_occupied(counts)[m] == ((i as usize), counts[i]));
            } else {
                assert(spec_occupied(counts).last() == ((i as usize), counts[i]));
            }
        }
    }
}

/// If no position has a positive tally, the occupied list is empty.
proof fn lemma_occupied_all_zero(counts: Seq<u64>)
    requires
        forall|i: int| 0 <= i < counts.len() ==> counts[i] == 0,
    ensures
        spec_occupied(counts) == Seq::<(usize, u64)>::empty(),
    decreases counts.len(),
{
    if counts.len() > 0 {
        assert(forall|i: int|
            0 <= i < counts.len() - 1 ==> counts.drop_last()[i] == counts[i]);
        lemma_occupied_all_zero(counts.drop_last());
    }
}

/// If exactly one position `k` has a positive tally, the occupied list is
/// that single pair.
proof fn lemma_occupied_unit(counts: Seq<u64>, k: int)
    requires
        0 <= k < counts.len(),
        counts[k] > 0,
        forall|i: int| 0 <= i < counts.len() && i != k ==> counts[i] == 0,
    ensures
        spec_occupied(counts) =~= seq![((k as usize), counts[k])],
    decreases counts.len(),
{
    assert(forall|i: int| 0 <= i < counts.len() - 1 ==> counts.drop_last()[i] == counts[i]);
    if k == counts.len() - 1 {
        lemma_occupied_all_zero(counts.drop_last());
    } else {
        lemma_occupied_unit(counts.drop_last(), k);
    }
}

/// How tallies are ordered for selection: by count descending, ties broken
/// by ascending range position.
pub open spec fn tally_le(a: (usize, u64), b: (usize, u64)) -> bool {
    a.1 > b.1 || (a.1 == b.1 && a.0 <= b.0)
}

/// The tally ordering as a relation value, shared by every statement about
/// the sorted tally list.
pub open spec fn tally_order() -> spec_fn((usize, u64), (usize, u64)) -> bool {
    |a: (usize, u64), b: (usize, u64)| tally_le(a, b)
}

/// The tally ordering is total, so a list sorted by it is unique among its
/// permutations: selection is deterministic.
pub proof fn lemma_tally_order_total()
    ensures
        total_ordering(tally_order()),
{
    let r = tally_order();
    assert forall|x: (usize, u64), y: (usize, u64)| #[trigger] r(x, y) && #[trigger] r(y, x)
        implies x == y by {
        assert(x.0 == y.0 && x.1 == y.1);
    }
    assert forall|x: (usize, u64), y: (usize, u64)| true implies #[trigger] r(x, y) || #[trigger] r(
        y,
        x,
    ) by {
        assert(tally_le(x, y) || tally_le(y, x));
    }
}

/// The occupied tallies of an image, sorted for selection.
pub open spec fn spec_sorted_tallies(w: int, h: int, px: Seq<Color>) -> Seq<(usize, u64)> {
    spec_occupied(spec_counts_seq(w, h, px)).sort_by(tally_order())
}

/// The full palette of an image: the representatives of the `top_n` most
/// frequent ranges, rendered as `#RRGGBB`, most frequent first.
pub open spec fn spec_palette(w: int, h: int, px: Seq<Color>, top_n: int) -> Seq<Seq<char>> {
    let sorted = spec_sorted_tallies(w, h, px);
    let m = if top_n < sorted.len() {
        top_n
    } else {
        sorted.len() as int
    };
    Seq::new(
        m as nat,
        |u: int| spec_hex(
            spec_range_flat(COLOR_RANGE_INTERVAL as int, sorted[u].0 as int).representative,
        ),
    )
}

/// The tally ordering, decided executably.
fn tally_le_exec(a: (usize, u64), b: (usize, u64)) -> (r: bool)
    ensures
        r == tally_le(a, b),
{
    a.1 > b.1 || (a.1 == b.1 && a.0 <= b.0)
}

/// Where a new tally belongs in an already sorted list: past every entry
/// that precedes it in the ordering.
fn insertion_point(out: &Vec<(usize, u64)>, p: (usize, u64)) -> (k: usize)
    requires
        sorted_by(out@, tally_order()),
    ensures
        k <= out@.len(),
        forall|u: int| 0 <= u < k ==> tally_le(out@[u], p),
        (k as int) < out@.len() ==> !tally_le(out@[k as int], p),
{
    let mut k: usize = 0;
    while k < out.len()
        invariant
            k <= out@.len(),
            forall|u: int| 0 <= u < k ==> tally_le(out@[u], p),
        decreases out@.len() - k,
    {
        if !tally_le_exec(out[k], p) {
            return k;
        }
        k = k + 1;
    }
    k
}

/// Sorts the occupied tallies by count descending, ties by ascending
/// position, by insertion into an already sorted list.
fn sort_tallies(pairs: &Vec<(usize, u64)>) -> (out: Vec<(usize, u64)>)
    ensures
        out@ == pairs@.sort_by(tally_order()),
{
    let mut out: Vec<(usize, u64)> = Vec::new();
    let mut m: usize = 0;
    proof {
        assert(out@ =~= pairs@.take(0));
    }
    while m < pairs.len()
        invariant
            m <= pairs@.len(),
            sorted_by(out@, tally_order()),
            out@.to_multiset() == pairs@.take(m as int).to_multiset(),
        decreases pairs@.len() - m,
    {
        let p = pairs[m];
        let k = insertion_point(&out, p);
        let ghost prev = out@;
        proof {
            lemma_tally_order_total();
            to_multiset_insert(prev, k as int, p);
            assert(pairs@.take(m as int + 1) =~= pairs@.take(m as int).push(pairs@[m as int]));
            pairs@.take(m as int).to_multiset_ensures();
        }
        out.insert(k, p);
        proof {
            prev.insert_ensures(k as int, p);
            let r = tally_order();
            assert forall|a: int, b: int| 0 <= a < b < out@.len() implies #[trigger] r(
                out@[a],
                out@[b],
            ) by {
                if b < k {
                    assert(out@[a] == prev[a] && out@[b] == prev[b]);
                } else if b == k {
                    assert(out@[a] == prev[a] && out@[b] == p);
                } else if a < k {
                    assert(out@[a] == prev[a] && out@[b] == prev[b - 1]);
                    if a < b - 1 {
                        assert(r(prev[a], prev[b - 1]));
                    }
                } else if a == k {
                    assert(out@[a] == p && out@[b] == prev[b - 1]);
                    assert(!tally_le(prev[k as int], p));
                    assert(tally_le(p, prev[k as int]));
                    if (k as int) < b - 1 {
                        assert(r(prev[k as int], prev[b - 1]));
                    }
                } else {
                    assert(out@[a] == prev[a - 1] && out@[b] == prev[b - 1]);
                }
            }
        }
        m = m + 1;
    }
    proof {
        assert(pairs@.take(pairs@.len() as int) =~= pairs@);
        lemma_tally_order_total();
        pairs@.lemma_sort_by_ensures(tally_order());
        lemma_sorted_unique(out@, pairs@.sort_by(tally_order()), tally_order());
    }
    out
}

/// Extracts the color palette of a decoded image: the representatives of
/// its `top_n` most frequent quantized colors, as uppercase `#RRGGBB`
/// strings, most frequent first; ties in frequency are broken by the
/// lexicographic order of the ranges' lower corners. A degenerate image
/// yields an empty palette; fewer occupied ranges than `top_n` yield a
/// shorter palette.
pub fn img_to_palette(img: &PixelGrid, top_n: u8) -> (r: Vec<String>)
    requires
        img.wf(),
    ensures
        r@.len() == spec_palette(
            img.width as int,
            img.height as int,
            img.pixels@,
            top_n as int,
        ).len(),
        forall|u: int|
            0 <= u < r@.len() ==> r@[u]@ == spec_palette(
                img.width as int,
                img.height as int,
                img.pixels@,
                top_n as int,
            )[u],
        r@.len() <= top_n as int,
{
    let ghost w: int = img.width as int;
    let ghost h: int = img.height as int;
    let ghost px: Seq<Color> = img.pixels@;
    let ghost step: int = COLOR_RANGE_INTERVAL as int;

    let palette_ranges = generate_color_ranges(COLOR_RANGE_INTERVAL);
    proof {
        crate::ranges::lemma_num_ranges_sixteen();
    }
    let num_ranges: usize = palette_ranges.len();

    let mut counts: Vec<u64> = Vec::new();
    while counts.len() < num_ranges
        invariant
            num_ranges == 4096,
            counts@.len() <= 4096,
            forall|i: int| 0 <= i < counts@.len() ==> counts@[i] == 0,
        decreases num_ranges - counts.len(),
    {
        counts.push(0);
    }

    let ghost sx: int = sample_cols(w);
    let ghost sy: int = sample_rows(h);
    proof {
        lemma_div_pos_is_pos(w + 2, 3);
        lemma_div_pos_is_pos(h + 2, 3);
        lemma_fundamental_div_mod_converse(0x100000001, 3, 0x55555555, 2);
        lemma_div_is_ordered(w + 2, 0x100000001, 3);
        lemma_div_is_ordered(h + 2, 0x100000001, 3);
        assert(forall|i: int| 0 <= i < 4096 ==> counts@[i] as int == count_upto(w, px, i, 0));
    }

    let mut y: u64 = 0;
    let ghost mut b: int = 0;
    while y < img.height as u64
        invariant
            img.wf(),
            w == img.width as int,
            h == img.height as int,
            px == img.pixels@,
            step == COLOR_RANGE_INTERVAL as int,
            sx == sample_cols(w),
            sy == sample_rows(h),
            0 <= sx <= 0x55555555,
            0 <= sy <= 0x55555555,
            0 <= b,
            y as int == 3 * b,
            y as int <= h + 2,
            counts@.len() == 4096,
            forall|i: int| 0 <= i < 4096 ==> counts@[i] as int == count_upto(w, px, i, b * sx),
            spec_num_ranges(step) == 4096,
            palette_ranges@.len() == 4096,
            forall|t: int| 0 <= t < 4096 ==> palette_ranges@[t] == spec_range_flat(step, t),
        decreases h + 2 - y,
    {
        proof {
            lemma_fundamental_div_mod(h + 2, 3);
            lemma_mod_bound(h + 2, 3);
            assert(b < sy);
        }
        let mut x: u64 = 0;
        let ghost mut a: int = 0;
        while x < img.width as u64
            invariant
                img.wf(),
                w == img.width as int,
                h == img.height as int,
                px == img.pixels@,
                step == COLOR_RANGE_INTERVAL as int,
                sx == sample_cols(w),
                sy == sample_rows(h),
                0 <= sx <= 0x55555555,
                0 <= sy <= 0x55555555,
                0 <= b < sy,
                y as int == 3 * b,
                (y as int) < h,
                0 <= a <= sx,
                x as int == 3 * a,
                x as int <= w + 2,
                counts@.len() == 4096,
                forall|i: int|
                    0 <= i < 4096 ==> counts@[i] as int == count_upto(w, px, i, b * sx + a),
                spec_num_ranges(step) == 4096,
                palette_ranges@.len() == 4096,
                forall|t: int| 0 <= t < 4096 ==> palette_ranges@[t] == spec_range_flat(step, t),
            decreases w + 2 - x,
        {
            proof {
                lemma_fundamental_div_mod(w + 2, 3);
                lemma_mod_bound(w + 2, 3);
                assert(a < sx);
            }
            let c = img.get_pixel(x as u32, y as u32);
            proof {
                lemma_ranges_cover(step, c);
                assert forall|t: int|
                    0 <= t < 4096 && t != spec_classify(step, c) implies !spec_in_range(
                    c,
                    palette_ranges@[t],
                ) by {
                    lemma_ranges_disjoint(step, c, t);
                }
            }
            let idx: usize = match find_range_index(&c, &palette_ranges) {
                Some(t) => t,
                None => {
                    proof {
                        assert(spec_in_range(c, palette_ranges@[spec_classify(step, c)]));
                    }
                    vstd::pervasive::unreached()
                },
            };
            proof {
                assert(idx as int == spec_classify(step, c));
                lemma_count_upto_le(w, px, idx as int, b * sx + a);
                assert(b * sx + a < sx * sy) by (nonlinear_arith)
                    requires
                        0 <= a < sx,
                        0 <= b < sy,
                ;
                assert(sx * sy <= 0x55555555 * 0x55555555) by (nonlinear_arith)
                    requires
                        0 <= sx <= 0x55555555,
                        0 <= sy <= 0x55555555,
                ;
            }
            let cur: u64 = counts[idx];
            counts.set(idx, cur + 1);
            proof {
                let t = b * sx + a;
                lemma_fundamental_div_mod_converse(t, sx, b, a);
                assert(c == px[y as int * w + x as int]);
                assert(sample_color(w, px, t) == c);
                assert forall|i: int|
                    0 <= i < 4096 implies counts@[i] as int == count_upto(w, px, i, t + 1) by {
                    assert(count_upto(w, px, i, t + 1) == count_upto(w, px, i, t) + if spec_classify(
                        step,
                        sample_color(w, px, t),
                    ) == i {
                        1int
                    } else {
                        0int
                    });
                }
                a = a + 1;
            }
            x = x + SAMPLE_STRIDE as u64;
        }
        proof {
            assert(3 * a >= w && 3 * a <= w + 2);
            lemma_fundamental_div_mod_converse(w + 2, 3, a, w + 2 - 3 * a);
            assert(a == sx);
            assert(b * sx + sx == (b + 1) * sx) by (nonlinear_arith);
            b = b + 1;
        }
        y = y + SAMPLE_STRIDE as u64;
    }
    proof {
        assert(3 * b >= h && 3 * b <= h + 2);
        lemma_fundamental_div_mod_converse(h + 2, 3, b, h + 2 - 3 * b);
        assert(b == sy);
        assert(sy * sx == sx * sy) by (nonlinear_arith);
        assert(forall|i: int|
            0 <= i < 4096 ==> counts@[i] as int == count_upto(w, px, i, sample_total(w, h)));
        assert(counts@ =~= spec_counts_seq(w, h, px));
    }

    let mut pairs: Vec<(usize, u64)> = Vec::new();
    let mut i2: usize = 0;
    proof {
        assert(counts@.take(0) =~= Seq::<u64>::empty());
    }
    while i2 < counts.len()
        invariant
            i2 <= counts@.len(),
            counts@.len() == 4096,
            pairs@ == spec_occupied(counts@.take(i2 as int)),
        decreases counts@.len() - i2,
    {
        let cnt: u64 = counts[i2];
        proof {
            assert(counts@.take(i2 as int + 1).drop_last() =~= counts@.take(i2 as int));
            assert(counts@.take(i2 as int + 1).last() == counts@[i2 as int]);
        }
        if cnt > 0 {
            pairs.push((i2, cnt));
        }
        i2 = i2 + 1;
    }
    proof {
        assert(counts@.take(counts@.len() as int) =~= counts@);
        assert(pairs@ == spec_occupied(spec_counts_seq(w, h, px)));
    }

    let sorted = sort_tallies(&pairs);
    proof {
        assert(sorted@ == spec_sorted_tallies(w, h, px));
        lemma_occupied_elems(spec_counts_seq(w, h, px));
        lemma_tally_order_total();
        spec_occupied(spec_counts_seq(w, h, px)).lemma_sort_by_ensures(tally_order());
        assert forall|v: int| 0 <= v < sorted@.len() implies (#[trigger] sorted@[v]).0 < 4096 by {
            let occ = spec_occupied(spec_counts_seq(w, h, px));
            let pr = sorted@[v];
            assert(sorted@.contains(pr));
            if !occ.contains(pr) {
                assert(!occ.sort_by(tally_order()).contains(pr));
            }
            let mm = choose|mm: int| 0 <= mm < occ.len() && occ[mm] == pr;
            assert(occ[mm].0 < spec_counts_seq(w, h, px).len());
        }
    }

    let limit: usize = if (top_n as usize) < sorted.len() {
        top_n as usize
    } else {
        sorted.len()
    };
    let ghost spal = spec_palette(w, h, px, top_n as int);
    proof {
        assert(limit as int == spal.len());
    }
    let mut palette: Vec<String> = Vec::new();
    let mut u: usize = 0;
    while u < limit
        invariant
            u <= limit,
            limit <= sorted@.len(),
            limit as int == spal.len(),
            spal == spec_palette(w, h, px, top_n as int),
            sorted@ == spec_sorted_tallies(w, h, px),
            step == COLOR_RANGE_INTERVAL as int,
            palette_ranges@.len() == 4096,
            forall|t: int| 0 <= t < 4096 ==> palette_ranges@[t] == spec_range_flat(step, t),
            forall|v: int| 0 <= v < sorted@.len() ==> (#[trigger] sorted@[v]).0 < 4096,
            palette@.len() == u,
            forall|v: int| 0 <= v < u ==> palette@[v]@ == spal[v],
        decreases limit - u,
    {
        let pos: usize = sorted[u].0;
        let rg = palette_ranges[pos];
        let text = rgba_to_hex(rg.representative);
        proof {
            assert(text@ == spal[u as int]);
        }
        palette.push(text);
        u = u + 1;
    }
    palette
}

/// Determinism: the palette is a function of the image content and the
/// requested size alone, so extracting twice from the same pixels yields
/// identical output.
pub proof fn lemma_extraction_deterministic(g1: PixelGrid, g2: PixelGrid, top_n: u8)
    requires
        g1.width == g2.width,
        g1.height == g2.height,
        g1.pixels@ == g2.pixels@,
    ensures
        spec_palette(g1.width as int, g1.height as int, g1.pixels@, top_n as int) == spec_palette(
            g2.width as int,
            g2.height as int,
            g2.pixels@,
            top_n as int,
        ),
{
}

/// Monotonicity: a larger request extends the palette of a smaller request
/// without changing the entries already returned.
pub proof fn lemma_palette_monotone(w: int, h: int, px: Seq<Color>, n1: int, n2: int)
    requires
        0 <= n1 <= n2,
    ensures
        spec_palette(w, h, px, n1).len() <= spec_palette(w, h, px, n2).len(),
        forall|u: int|
            0 <= u < spec_palette(w, h, px, n1).len() ==> spec_palette(w, h, px, n1)[u]
                == spec_palette(w, h, px, n2)[u],
{
}

/// An image with zero width or zero height yields an empty palette, for
/// every requested size.
pub proof fn lemma_empty_image(w: int, h: int, px: Seq<Color>, top_n: int)
    requires
        w == 0 || h == 0,
        0 <= top_n,
    ensures
        spec_palette(w, h, px, top_n) =~= Seq::<Seq<char>>::empty(),
{
    assert(sample_total(w, h) == 0) by (nonlinear_arith)
        requires
            sample_cols(w) == 0 || sample_rows(h) == 0,
    ;
    let counts = spec_counts_seq(w, h, px);
    assert(forall|i: int| 0 <= i < counts.len() ==> counts[i] == 0);
    lemma_occupied_all_zero(counts);
    let occ = spec_occupied(counts);
    lemma_tally_order_total();
    occ.lemma_sort_by_ensures(tally_order());
    occ.to_multiset_ensures();
    spec_sorted_tallies(w, h, px).to_multiset_ensures();
    assert(spec_sorted_tallies(w, h, px).len() == 0);
}

/// A one-by-one image yields a one-entry palette: the hex representative of
/// the single range containing its pixel, for every requested size of at
/// least one.
pub proof fn lemma_single_pixel(px: Seq<Color>, top_n: int)
    requires
        px.len() == 1,
        top_n >= 1,
    ensures
        spec_palette(1, 1, px, top_n) =~= seq![
            spec_hex(
                spec_range_flat(
                    COLOR_RANGE_INTERVAL as int,
                    spec_classify(COLOR_RANGE_INTERVAL as int, px[0]),
                ).representative,
            ),
        ],
{
    let step = COLOR_RANGE_INTERVAL as int;
    crate::ranges::lemma_num_ranges_sixteen();
    assert(sample_cols(1) == 1);
    assert(sample_rows(1) == 1);
    assert(sample_total(1, 1) == 1);
    assert(sample_color(1, px, 0) == px[0]);
    let k = spec_classify(step, px[0]);
    lemma_classify_in_bounds(step, px[0]);
    let counts = spec_counts_seq(1, 1, px);
    assert(counts.len() == 4096);
    assert(count_upto(1, px, k, 0) == 0);
    assert(count_upto(1, px, k, 1) == 1);
    assert(counts[k] == 1);
    assert forall|i: int| 0 <= i < 4096 && i != k implies counts[i] == 0 by {
        assert(count_upto(1, px, i, 0) == 0);
        assert(count_upto(1, px, i, 1) == 0);
    }
    lemma_occupied_unit(counts, k);
    let occ = spec_occupied(counts);
    let p0 = ((k as usize), 1u64);
    assert(occ =~= seq![p0]);
    lemma_tally_order_total();
    occ.lemma_sort_by_ensures(tally_order());
    let sorted = spec_sorted_tallies(1, 1, px);
    occ.to_multiset_ensures();
    sorted.to_multiset_ensures();
    assert(sorted.len() == 1);
    assert(occ[0] == p0);
    assert(occ.contains(p0));
    assert(sorted.to_multiset().count(p0) > 0);
    assert(sorted.contains(p0));
    assert(sorted[0] == p0);
    assert(spec_palette(1, 1, px, top_n).len() == 1);
    assert(spec_palette(1, 1, px, top_n)[0] == spec_hex(
        spec_range_flat(step, k).representative,
    ));
}

/// A request larger than the number of occupied ranges returns them all,
/// still sorted by descending count: the palette is exactly the sorted
/// occupied list, one entry per occupied range.
pub proof fn lemma_exhaustive_when_top_n_large(w: int, h: int, px: Seq<Color>, top_n: int)
    requires
        top_n >= spec_sorted_tallies(w, h, px).len(),
    ensures
        spec_palette(w, h, px, top_n).len() == spec_sorted_tallies(w, h, px).len(),
        sorted_by(spec_sorted_tallies(w, h, px), tally_order()),
        forall|i: int|
            0 <= i < spec_counts_seq(w, h, px).len() && #[trigger] spec_counts_seq(w, h, px)[i] > 0
                ==> exists|u: int|
                0 <= u < spec_sorted_tallies(w, h, px).len() && (#[trigger] spec_sorted_tallies(
                    w,
                    h,
                    px,
                )[u]).0 as int == i,
{
    lemma_tally_order_total();
    crate::ranges::lemma_num_ranges_sixteen();
    let counts = spec_counts_seq(w, h, px);
    assert(counts.len() == 4096);
    let occ = spec_occupied(counts);
    occ.lemma_sort_by_ensures(tally_order());
    lemma_occupied_elems(counts);
    let sorted = occ.sort_by(tally_order());
    occ.to_multiset_ensures();
    sorted.to_multiset_ensures();
    assert forall|i: int| 0 <= i < counts.len() && #[trigger] counts[i] > 0 implies exists|u: int|
        0 <= u < spec_sorted_tallies(w, h, px).len() && (#[trigger] spec_sorted_tallies(
            w,
            h,
            px,
        )[u]).0 as int == i by {
        let p = ((i as usize), counts[i]);
        assert(occ.contains(p));
        assert(sorted.to_multiset().count(p) > 0);
        assert(sorted.contains(p));
        let u = choose|u: int| 0 <= u < sorted.len() && sorted[u] == p;
        assert(spec_sorted_tallies(w, h, px)[u].0 as int == i);
    }
}

} // verus!
