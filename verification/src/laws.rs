use vstd::prelude::*;
use crate::glyph_dataset::GlyphDataset;
use crate::glyph_rays::{
    RaysView, first_set, last_end, lemma_first_before_last, lemma_first_set_bounds, lemma_last_end_bounds,
    overlay_ok, overlay_pixel_ok, centre_rows_ok, centre_cols_ok, ray_l2r, ray_r2l, ray_m2l, ray_m2r, ray_t2b, ray_b2t, ray_m2t,
    ray_m2b, row_of,
};
use crate::glyph_rays::{
    sub_glyph_ok, sub_offset_ok, byte_as_i8, spec_sub_glyph, sub_top, sub_bottom, trimmed_start, column_flags, seq_min, lemma_seq_min, rays_of, shape_ok,
};
use crate::glyph_rays::{
    spec_average, row_total, col_total, pixel_total, width_total, height_total, offset_total, row_entry, col_entry,
    pixel_entry, trunc_div,
};
use crate::glyph::Glyph;
use crate::glyph_dataset::{class_glyph, max_score, profiles_exact, glyph_fits, offset_close, valid_height, valid_top};
use crate::glyph_recognizer::{
    RayDeltaSums, RecogKind, Enc, spec_delta_sums, spec_paths, penalty_paths, paths_from, candidate_step, attach,
    spec_resolve, lemma_best_step_fits, best_among, top_close, glyph_score, flat, best_child, children_of,
    lemma_children_shorter, split_subtrees, add_child, own_score, flat_ok, children_flat_ok, best_step,
};

verus! {

/// In a consistent glyph, a row is empty exactly when its left ray crosses the whole width,
/// exactly when its right ray does; in a non-empty row the two rays leave room for a pixel.
pub proof fn law_row_rays(v: RaysView, y: int)
    requires
        v.consistent(),
        0 <= y < v.height,
    ensures
        (v.l2r[y] == v.width) == (v.r2l[y] == v.width),
        (v.l2r[y] as int) < v.width ==> v.l2r[y] + v.r2l[y] < v.width,
        (v.l2r[y] as int) < v.width <==> exists|x: int| 0 <= x < v.width && v.raw[x][y],
{
    let w = v.width as int;
    let row = row_of(v.raw, y, w);
    lemma_first_set_bounds(row, 0, w);
    lemma_last_end_bounds(row, 0, w);
    assert(v.l2r[y] == ray_l2r(v.raw, w, y) as u16);
    assert(v.r2l[y] == ray_r2l(v.raw, w, y) as u16);
    if first_set(row, 0, w) < w {
        lemma_first_before_last(row, 0, w);
        assert(row[first_set(row, 0, w)]);
    } else if last_end(row, 0, w) > 0 {
        assert(row[last_end(row, 0, w) - 1]);
    }
    if exists|x: int| 0 <= x < w && v.raw[x][y] {
        let x = choose|x: int| 0 <= x < w && v.raw[x][y];
        assert(row[x]);
    }
}

/// In a consistent glyph, a column is empty exactly when its top ray crosses the whole
/// height, exactly when its bottom ray does; in a non-empty column the two rays leave room
/// for a pixel.
pub proof fn law_column_rays(v: RaysView, x: int)
    requires
        v.consistent(),
        0 <= x < v.width,
    ensures
        (v.t2b[x] == v.height) == (v.b2t[x] == v.height),
        (v.t2b[x] as int) < v.height ==> v.t2b[x] + v.b2t[x] < v.height,
        (v.t2b[x] as int) < v.height <==> exists|y: int| 0 <= y < v.height && v.raw[x][y],
{
    let h = v.height as int;
    v.lemma_column_rays(x);
    lemma_first_set_bounds(v.raw[x], 0, h);
    lemma_last_end_bounds(v.raw[x], 0, h);
    assert(v.t2b[x] == ray_t2b(v.raw, h, x) as u8);
    assert(v.b2t[x] == ray_b2t(v.raw, h, x) as u8);
    if exists|y: int| 0 <= y < h && v.raw[x][y] {
        let y = choose|y: int| 0 <= y < h && v.raw[x][y];
        assert(v.raw[x][y]);
    }
}

/// The centre rays of a consistent glyph reach no further than its centre lines, so its
/// overlay can always be drawn.
pub proof fn law_consistent_overlay_ok(v: RaysView)
    requires
        v.consistent(),
    ensures
        forall|y: int| 0 <= y < v.height ==> #[trigger] centre_rows_ok(v, y),
        forall|x: int| 0 <= x < v.width ==> #[trigger] centre_cols_ok(v, x),
        overlay_ok(v),
{
    let w = v.width as int;
    let h = v.height as int;
    assert forall|y: int| 0 <= y < v.height implies #[trigger] centre_rows_ok(v, y) by {
        let row = row_of(v.raw, y, w);
        lemma_last_end_bounds(row, 0, w / 2);
        lemma_first_set_bounds(row, w / 2, w);
        assert(v.m2l[y] == ray_m2l(v.raw, w, y) as u16);
        assert(v.m2r[y] == ray_m2r(v.raw, w, y) as u16);
    }
    assert forall|x: int| 0 <= x < v.width implies #[trigger] centre_cols_ok(v, x) by {
        lemma_last_end_bounds(v.raw[x], 0, h / 2);
        lemma_first_set_bounds(v.raw[x], h / 2, h);
        assert(v.m2t[x] == ray_m2t(v.raw, h, x) as u8);
        assert(v.m2b[x] == ray_m2b(v.raw, h, x) as u8);
    }
    assert forall|x: int, y: int| 0 <= x < v.width && 0 <= y < v.height implies #[trigger] overlay_pixel_ok(v, x, y) by {
        assert(centre_rows_ok(v, y));
        assert(centre_cols_ok(v, x));
    }
}

/// Comparing two glyphs gives the same integer parts in either order.
pub proof fn law_delta_symmetric(a: RaysView, b: RaysView)
    ensures
        spec_delta_sums(a, b) == spec_delta_sums(b, a),
{
    let mw = crate::glyph_recognizer::max_int(a.width as int, b.width as int) - 1;
    let mh = crate::glyph_recognizer::max_int(a.height as int, b.height as int) - 1;
    lemma_row_sum_symmetric(a, b, mh + 1, mw);
    lemma_col_sum_symmetric(a, b, mw + 1, mh);
}

proof fn lemma_row_sum_symmetric(a: RaysView, b: RaysView, n: int, mw: int)
    ensures
        crate::glyph_recognizer::row_delta_sum(a, b, n, mw) == crate::glyph_recognizer::row_delta_sum(b, a, n, mw),
    decreases n,
{
    if n > 0 {
        lemma_row_sum_symmetric(a, b, n - 1, mw);
    }
}

proof fn lemma_col_sum_symmetric(a: RaysView, b: RaysView, n: int, mh: int)
    ensures
        crate::glyph_recognizer::col_delta_sum(a, b, n, mh) == crate::glyph_recognizer::col_delta_sum(b, a, n, mh),
    decreases n,
{
    if n > 0 {
        lemma_col_sum_symmetric(a, b, n - 1, mh);
    }
}

/// A glyph compared with itself differs nowhere.
pub proof fn law_delta_self_zero(a: RaysView)
    ensures
        spec_delta_sums(a, a).horizontal == 0,
        spec_delta_sums(a, a).vertical == 0,
{
    let mw = a.width as int - 1;
    let mh = a.height as int - 1;
    lemma_row_sum_self(a, mh + 1, mw);
    lemma_col_sum_self(a, mw + 1, mh);
}

proof fn lemma_row_sum_self(a: RaysView, n: int, mw: int)
    ensures
        crate::glyph_recognizer::row_delta_sum(a, a, n, mw) == 0,
    decreases n,
{
    if n > 0 {
        lemma_row_sum_self(a, n - 1, mw);
    }
}

proof fn lemma_col_sum_self(a: RaysView, n: int, mh: int)
    ensures
        crate::glyph_recognizer::col_delta_sum(a, a, n, mh) == 0,
    decreases n,
{
    if n > 0 {
        lemma_col_sum_self(a, n - 1, mh);
    }
}

/// Reading an overlap always yields at least one path: a penalty path when no glyph
/// starts it.
pub proof fn law_paths_nonempty<'a, F: Fn(RayDeltaSums) -> u32>(ds: GlyphDataset, overlap: RaysView, delta: F)
    requires
        spec_paths::<'a, F>(ds, overlap, delta) is Some,
    ensures
        spec_paths::<'a, F>(ds, overlap, delta)->0.len() >= 1,
{
    assert(penalty_paths::<'a>(overlap).len() == 1);
}

/// The part of a consistent glyph taken by [`spec_sub_glyph`] is itself consistent, no wider
/// than the columns asked for and no taller than the glyph, starts with a column that holds
/// a pixel, and is cropped tightly: some column reaches its top row and some its bottom
/// row.  Its pixels are those of the glyph from the first kept column and the first kept row.
pub proof fn law_sub_glyph_tight(v: RaysView, start: int, width: int)
    requires
        v.consistent(),
        0 <= start,
        0 <= width,
        start + width <= v.width,
        spec_sub_glyph(v, start, width) is Some,
    ensures
        ({
            let r = spec_sub_glyph(v, start, width)->0;
            let s = trimmed_start(v, start, width);
            let top = sub_top(v, start, width);
            &&& r.consistent()
            &&& 1 <= r.width <= width
            &&& 1 <= r.height <= v.height
            &&& (r.t2b[0] as int) < r.height
            &&& exists|x: int| 0 <= x < r.width && r.t2b[x] == 0
            &&& exists|x: int| 0 <= x < r.width && r.b2t[x] == 0
            &&& forall|x: int, y: int| 0 <= x < r.width && 0 <= y < r.height ==> r.raw[x][y] == v.raw[s + x][top + y]
        }),
{
    let r = spec_sub_glyph(v, start, width)->0;
    let end = start + width;
    let s = trimmed_start(v, start, width);
    let top = sub_top(v, start, width);
    let bottom = sub_bottom(v, start, width);
    let h = v.height as int;
    let flags = column_flags(v);
    lemma_first_set_bounds(flags, start, end);
    let f = first_set(flags, start, end);
    // the range holds a non-empty column, the first of which is kept first
    if f == end {
        lemma_seq_min(v.t2b, s, end);
        assert(s == start);
        let c = choose|c: int| s <= c < end && v.t2b[c] == top;
        assert(!flags[c]);
    }
    assert(s == f && s < end);
    lemma_seq_min(v.t2b, s, end);
    lemma_seq_min(v.b2t, s, end);
    let nw = end - s;
    let nh = h - top - bottom;
    let g = Seq::new(
        width as nat,
        |x: int| Seq::new(nh as nat, |y: int| if x < nw { v.raw[s + x][top + y] } else { false }),
    );
    let bc = choose|c: int| s <= c < end && v.b2t[c] == bottom;
    v.lemma_column_rays(bc);
    assert(top <= v.t2b[bc]);
    assert(nh >= 1);
    assert(r == rays_of(nw as u16, nh as u8, (v.pixels_from_top + crate::glyph_rays::byte_as_i8(top as u8)) as i8, g));
    assert(shape_ok(g, nw, nh));
    // the first kept column holds a pixel inside the crop
    let t = v.t2b[s] as int;
    v.lemma_column_rays(s);
    lemma_first_set_bounds(v.raw[s], 0, h);
    assert(v.t2b[s] == ray_t2b(v.raw, h, s) as u8);
    assert(v.raw[s][t]);
    assert(v.b2t[s] >= bottom);
    assert(g[0][t - top]);
    lemma_first_set_bounds(g[0], 0, nh);
    assert(r.t2b[0] == ray_t2b(g, nh, 0) as u8);
    // a column reaches the top row
    let tc = choose|c: int| s <= c < end && v.t2b[c] == top;
    v.lemma_column_rays(tc);
    lemma_first_set_bounds(v.raw[tc], 0, h);
    assert(v.t2b[tc] == ray_t2b(v.raw, h, tc) as u8);
    assert(g[tc - s][0]);
    lemma_first_set_bounds(g[tc - s], 0, nh);
    assert(r.t2b[tc - s] == ray_t2b(g, nh, tc - s) as u8);
    assert(r.t2b[tc - s] == 0);
    // a column reaches the bottom row
    lemma_last_end_bounds(v.raw[bc], 0, h);
    assert(v.b2t[bc] == ray_b2t(v.raw, h, bc) as u8);
    assert(v.raw[bc][h - 1 - bottom]);
    assert(g[bc - s][nh - 1]);
    lemma_last_end_bounds(g[bc - s], 0, nh);
    assert(r.b2t[bc - s] == ray_b2t(g, nh, bc - s) as u8);
    assert(r.b2t[bc - s] == 0);
}

/// The profile vectors and the bitmap have exactly the glyph's size.
pub open spec fn exact_shape(x: RaysView) -> bool {
    &&& x.l2r.len() == x.height && x.r2l.len() == x.height
    &&& x.m2l.len() == x.height && x.m2r.len() == x.height
    &&& x.t2b.len() == x.width && x.b2t.len() == x.width
    &&& x.m2t.len() == x.width && x.m2b.len() == x.width
    &&& x.raw.len() == x.width
    &&& forall|c: int| 0 <= c < x.width ==> (#[trigger] x.raw[c]).len() == x.height
}

proof fn lemma_totals_of_copies(s: Seq<RaysView>, x: RaysView, n: int)
    requires
        0 <= n <= s.len(),
        forall|i: int| 0 <= i < s.len() ==> #[trigger] s[i] == x,
    ensures
        width_total(s, n) == n * x.width,
        height_total(s, n) == n * x.height,
        offset_total(s, n) == n * x.pixels_from_top,
        forall|k: int, y: int| #[trigger] row_total(s, n, k, y) == n * row_entry(x, k, y),
        forall|k: int, c: int| #[trigger] col_total(s, n, k, c) == n * col_entry(x, k, c),
        forall|c: int, y: int| #[trigger] pixel_total(s, n, c, y) == n * pixel_entry(x, c, y),
    decreases n,
{
    if n == 0 {
        assert(0 * (x.width as int) == 0 && 0 * (x.height as int) == 0 && 0 * (x.pixels_from_top as int) == 0);
        assert forall|k: int, y: int| #[trigger] row_total(s, n, k, y) == n * row_entry(x, k, y) by {
            assert(0 * row_entry(x, k, y) == 0);
        }
        assert forall|k: int, c: int| #[trigger] col_total(s, n, k, c) == n * col_entry(x, k, c) by {
            assert(0 * col_entry(x, k, c) == 0);
        }
        assert forall|c: int, y: int| #[trigger] pixel_total(s, n, c, y) == n * pixel_entry(x, c, y) by {
            assert(0 * pixel_entry(x, c, y) == 0);
        }
    } else {
        lemma_totals_of_copies(s, x, n - 1);
        assert(s[n - 1] == x);
        let wi = x.width as int;
        let hi = x.height as int;
        let pi = x.pixels_from_top as int;
        assert(n * wi == (n - 1) * wi + wi && n * hi == (n - 1) * hi + hi && n * pi == (n - 1) * pi + pi) by (nonlinear_arith);
        assert forall|k: int, y: int| #[trigger] row_total(s, n, k, y) == n * row_entry(x, k, y) by {
            let e = row_entry(x, k, y);
            assert(row_total(s, n - 1, k, y) == (n - 1) * e);
            assert(n * e == (n - 1) * e + e) by (nonlinear_arith);
        }
        assert forall|k: int, c: int| #[trigger] col_total(s, n, k, c) == n * col_entry(x, k, c) by {
            let e = col_entry(x, k, c);
            assert(col_total(s, n - 1, k, c) == (n - 1) * e);
            assert(n * e == (n - 1) * e + e) by (nonlinear_arith);
        }
        assert forall|c: int, y: int| #[trigger] pixel_total(s, n, c, y) == n * pixel_entry(x, c, y) by {
            let e = pixel_entry(x, c, y);
            assert(pixel_total(s, n - 1, c, y) == (n - 1) * e);
            assert(n * e == (n - 1) * e + e) by (nonlinear_arith);
        }
    }
}

/// Averaging two or more copies of one glyph of exact shape gives that glyph back.  (A
/// single sample is not given back: every pixel of its extent comes out set.)
pub proof fn law_average_of_copies(s: Seq<RaysView>, x: RaysView)
    requires
        s.len() >= 2,
        forall|i: int| 0 <= i < s.len() ==> #[trigger] s[i] == x,
        exact_shape(x),
    ensures
        spec_average(s) == x,
{
    let n = s.len() as int;
    lemma_totals_of_copies(s, x, n);
    assert(s[0] == x);
    let a = spec_average(s);
    vstd::arithmetic::div_mod::lemma_div_multiples_vanish(x.width as int, n);
    vstd::arithmetic::div_mod::lemma_div_multiples_vanish(x.height as int, n);
    vstd::arithmetic::div_mod::lemma_div_multiples_vanish(x.pixels_from_top as int, n);
    vstd::arithmetic::div_mod::lemma_div_multiples_vanish(-(x.pixels_from_top as int), n);
    assert(n * (-(x.pixels_from_top as int)) == -(n * x.pixels_from_top)) by (nonlinear_arith);
    assert(n * (x.pixels_from_top as int) >= 0 <==> x.pixels_from_top >= 0) by (nonlinear_arith)
        requires
            n >= 2,
    ;
    assert(trunc_div(offset_total(s, n), n) == x.pixels_from_top);
    assert forall|y: int| 0 <= y < x.height implies a.l2r[y] == x.l2r[y] && a.r2l[y] == x.r2l[y] && a.m2r[y] == x.m2r[y]
        && a.m2l[y] == x.m2l[y] by {
        vstd::arithmetic::div_mod::lemma_div_multiples_vanish(x.l2r[y] as int, n);
        vstd::arithmetic::div_mod::lemma_div_multiples_vanish(x.r2l[y] as int, n);
        vstd::arithmetic::div_mod::lemma_div_multiples_vanish(x.m2r[y] as int, n);
        vstd::arithmetic::div_mod::lemma_div_multiples_vanish(x.m2l[y] as int, n);
        assert(row_total(s, n, 0, y) == n * (x.l2r[y] as int));
        assert(row_total(s, n, 1, y) == n * (x.r2l[y] as int));
        assert(row_total(s, n, 2, y) == n * (x.m2r[y] as int));
        assert(row_total(s, n, 3, y) == n * (x.m2l[y] as int));
    }
    assert forall|c: int| 0 <= c < x.width implies a.t2b[c] == x.t2b[c] && a.b2t[c] == x.b2t[c] && a.m2b[c] == x.m2b[c]
        && a.m2t[c] == x.m2t[c] by {
        vstd::arithmetic::div_mod::lemma_div_multiples_vanish(x.t2b[c] as int, n);
        vstd::arithmetic::div_mod::lemma_div_multiples_vanish(x.b2t[c] as int, n);
        vstd::arithmetic::div_mod::lemma_div_multiples_vanish(x.m2b[c] as int, n);
        vstd::arithmetic::div_mod::lemma_div_multiples_vanish(x.m2t[c] as int, n);
        assert(col_total(s, n, 0, c) == n * (x.t2b[c] as int));
        assert(col_total(s, n, 1, c) == n * (x.b2t[c] as int));
        assert(col_total(s, n, 2, c) == n * (x.m2b[c] as int));
        assert(col_total(s, n, 3, c) == n * (x.m2t[c] as int));
    }
    assert forall|c: int| 0 <= c < x.width implies #[trigger] a.raw[c] =~= x.raw[c] by {
        assert forall|y: int| 0 <= y < x.height implies a.raw[c][y] == x.raw[c][y] by {
            assert(pixel_total(s, n, c, y) == n * pixel_entry(x, c, y));
            if x.raw[c][y] {
                assert(n * 1 >= n / 2) by (nonlinear_arith) requires n >= 2;
            } else {
                assert(n * 0 == 0);
                assert(n / 2 >= 1);
            }
        }
    }
    assert(a.l2r =~= x.l2r);
    assert(a.r2l =~= x.r2l);
    assert(a.m2l =~= x.m2l);
    assert(a.m2r =~= x.m2r);
    assert(a.t2b =~= x.t2b);
    assert(a.b2t =~= x.b2t);
    assert(a.m2t =~= x.m2t);
    assert(a.m2b =~= x.m2b);
    assert(a.raw =~= x.raw);
}

/// Every glyph that a scan of an overlap offers ([`GlyphDataset::spec_fuzzy_get`]) has a text
/// that may appear in an overlap, a width between the dataset's smallest width and the
/// overlap's width, the height of that many leading columns of the overlap, and a top within
/// two rows of theirs.
pub proof fn law_fuzzy_candidates(ds: GlyphDataset, overlap: RaysView)
    requires
        ds.inv(),
        ds.spec_fuzzy_get(overlap) is Some,
    ensures
        forall|i: int|
            0 <= i < ds.spec_fuzzy_get(overlap)->0.len() ==> {
                let g = #[trigger] ds.spec_fuzzy_get(overlap)->0[i];
                &&& ds.overlap_values().contains(g.value@)
                &&& ds.least_width() <= g.ray.width <= overlap.width
                &&& g.ray.height == valid_height(overlap, g.ray.width as int) as u8
                &&& offset_close(g, valid_top(overlap, g.ray.width as int))
            },
{
    lemma_candidates_between(ds, overlap, ds.least_width() as int, overlap.width + 1);
}

proof fn lemma_pick(ds: GlyphDataset, gs: Seq<Glyph>, top: int, n: int, w: u16, h: u8)
    requires
        0 <= n <= gs.len(),
        forall|i: int| 0 <= i < gs.len() ==> glyph_fits(#[trigger] gs[i], w, h),
    ensures
        forall|i: int|
            0 <= i < ds.pick(gs, top, n).len() ==> {
                let g = #[trigger] ds.pick(gs, top, n)[i];
                &&& ds.overlap_values().contains(g.value@)
                &&& glyph_fits(g, w, h)
                &&& offset_close(g, top)
            },
    decreases n,
{
    if n > 0 {
        lemma_pick(ds, gs, top, n - 1, w, h);
        assert(glyph_fits(gs[n - 1], w, h));
        let prev = ds.pick(gs, top, n - 1);
        assert forall|i: int| 0 <= i < ds.pick(gs, top, n).len() implies {
            let g = #[trigger] ds.pick(gs, top, n)[i];
            &&& ds.overlap_values().contains(g.value@)
            &&& glyph_fits(g, w, h)
            &&& offset_close(g, top)
        } by {
            if i < prev.len() {
                assert(ds.pick(gs, top, n)[i] == prev[i]);
            }
        }
    }
}

proof fn lemma_candidates_between(ds: GlyphDataset, overlap: RaysView, lo: int, hi: int)
    requires
        ds.inv(),
        0 <= lo,
        hi <= overlap.width + 1,
    ensures
        forall|i: int|
            0 <= i < ds.candidates_between(overlap, lo, hi).len() ==> {
                let g = #[trigger] ds.candidates_between(overlap, lo, hi)[i];
                &&& ds.overlap_values().contains(g.value@)
                &&& lo <= g.ray.width < hi
                &&& g.ray.height == valid_height(overlap, g.ray.width as int) as u8
                &&& offset_close(g, valid_top(overlap, g.ray.width as int))
            },
    decreases hi - lo,
{
    if lo < hi {
        lemma_candidates_between(ds, overlap, lo, hi - 1);
        let w = (hi - 1) as u16;
        let h = valid_height(overlap, hi - 1) as u8;
        let prev = ds.candidates_between(overlap, lo, hi - 1);
        let cur = ds.candidates_at(overlap, hi - 1);
        match ds.glyphs_at(w, h) {
            Some(gs) => {
                assert forall|i: int| 0 <= i < gs.len() implies glyph_fits(#[trigger] gs[i], w, h) by {
                    ds.lemma_stored_glyph(w, h, i);
                }
                lemma_pick(ds, gs, valid_top(overlap, hi - 1), gs.len() as int, w, h);
            },
            None => {},
        }
        assert forall|i: int| 0 <= i < ds.candidates_between(overlap, lo, hi).len() implies {
            let g = #[trigger] ds.candidates_between(overlap, lo, hi)[i];
            &&& ds.overlap_values().contains(g.value@)
            &&& lo <= g.ray.width < hi
            &&& g.ray.height == valid_height(overlap, g.ray.width as int) as u8
            &&& offset_close(g, valid_top(overlap, g.ray.width as int))
        } by {
            if i >= prev.len() {
                assert(ds.candidates_between(overlap, lo, hi)[i] == cur[i - prev.len()]);
            } else {
                assert(ds.candidates_between(overlap, lo, hi)[i] == prev[i]);
            }
        }
    }
}

/// The root step of a path: a match whose score is at most 1500 or at most one and a half
/// times the matched glyph's largest sample error.
pub open spec fn passing_root(t: Enc) -> bool {
    &&& t.len() >= 1
    &&& t[0].0 matches RecogKind::Match(g, sc) && (2 * sc <= 3000 || 2 * sc <= 3 * g.max_error)
}

proof fn lemma_attach_root<'a>(root: Enc<'a>, children: Seq<Enc<'a>>, n: int)
    requires
        root.len() >= 1,
    ensures
        attach(root, children, n).len() >= 1,
        attach(root, children, n)[0].0 == root[0].0,
    decreases n,
{
    if n > 0 {
        lemma_attach_root(root, children, n - 1);
    }
}

proof fn lemma_paths_from_roots<'a, F: Fn(RayDeltaSums) -> u32>(
    ds: GlyphDataset,
    overlap: RaysView,
    cands: Seq<Glyph>,
    n: int,
    delta: F,
)
    requires
        paths_from::<'a, F>(ds, overlap, cands, n, delta) is Some,
    ensures
        forall|i: int|
            0 <= i < paths_from::<'a, F>(ds, overlap, cands, n, delta)->0.len() ==> passing_root(
                #[trigger] paths_from::<'a, F>(ds, overlap, cands, n, delta)->0[i],
            ),
    decreases n,
{
    if !(n <= 0 || n > cands.len()) {
        lemma_paths_from_prefix_some::<F>(ds, overlap, cands, n, delta);
        lemma_paths_from_roots::<F>(ds, overlap, cands, n - 1, delta);
        let prev = paths_from::<'a, F>(ds, overlap, cands, n - 1, delta)->0;
        match candidate_step::<'a, F>(ds, overlap, cands[n - 1], delta) {
            Some(Some(t)) => {
                lemma_step_root::<F>(ds, overlap, cands[n - 1], delta);
                assert forall|i: int| 0 <= i < prev.push(t).len() implies passing_root(#[trigger] prev.push(t)[i]) by {
                    if i < prev.len() {
                        assert(prev.push(t)[i] == prev[i]);
                    }
                }
            },
            _ => {},
        }
    }
}

proof fn lemma_paths_from_prefix_some<'a, F: Fn(RayDeltaSums) -> u32>(
    ds: GlyphDataset,
    overlap: RaysView,
    cands: Seq<Glyph>,
    n: int,
    delta: F,
)
    requires
        0 < n <= cands.len(),
        paths_from::<'a, F>(ds, overlap, cands, n, delta) is Some,
    ensures
        paths_from::<'a, F>(ds, overlap, cands, n - 1, delta) is Some,
{
}

proof fn lemma_step_root<'a, F: Fn(RayDeltaSums) -> u32>(ds: GlyphDataset, overlap: RaysView, c: Glyph, delta: F)
    requires
        candidate_step::<'a, F>(ds, overlap, c, delta) matches Some(Some(_)),
    ensures
        passing_root(candidate_step::<'a, F>(ds, overlap, c, delta)->0->0),
{
    let cw = c.ray.width as int;
    let lead = crate::glyph_rays::spec_sub_glyph(overlap, 0, cw)->0;
    let score = crate::glyph_recognizer::glyph_score(delta, lead, c.ray@);
    let node: Enc<'a> = seq![(RecogKind::Match(&c, score), 1nat)];
    let nw = overlap.width - cw;
    match crate::glyph_rays::spec_sub_glyph(overlap, cw, nw) {
        None => {},
        Some(rest) => {
            let children = spec_paths::<'a, F>(ds, rest, delta)->0;
            lemma_attach_root(node, children, children.len() as int);
        },
    }
}

/// Every path that reading an overlap yields is rooted at a match whose score is at most 1500
/// or at most one and a half times the matched glyph's largest sample error, unless the
/// overlap gets the single penalty path.
pub proof fn law_paths_roots<'a, F: Fn(RayDeltaSums) -> u32>(ds: GlyphDataset, overlap: RaysView, delta: F)
    requires
        spec_paths::<'a, F>(ds, overlap, delta) is Some,
    ensures
        spec_paths::<'a, F>(ds, overlap, delta)->0 == penalty_paths::<'a>(overlap) || forall|i: int|
            0 <= i < spec_paths::<'a, F>(ds, overlap, delta)->0.len() ==> passing_root(
                #[trigger] spec_paths::<'a, F>(ds, overlap, delta)->0[i],
            ),
{
    match ds.spec_fuzzy_get(overlap) {
        None => {},
        Some(cands) => {
            lemma_paths_from_roots::<F>(ds, overlap, cands, cands.len() as int, delta);
        },
    }
}

/// The part of a glyph taken from `width` columns is at most `width` wide.
proof fn lemma_sub_glyph_width(v: RaysView, start: int, width: int)
    requires
        0 <= start,
        0 <= width,
        start + width <= u16::MAX,
        spec_sub_glyph(v, start, width) is Some,
    ensures
        spec_sub_glyph(v, start, width)->0.width <= width,
{
    lemma_first_set_bounds(column_flags(v), start, start + width);
}

/// The total width of the glyphs of a reading.
pub open spec fn steps_width(s: Seq<(Glyph, u32)>) -> int
    decreases s.len(),
{
    if s.len() == 0 {
        0
    } else {
        s[0].0.ray.width + steps_width(s.drop_first())
    }
}

/// The glyphs that the greedy reading of an overlap ([`spec_resolve`]) takes fit in it side
/// by side: their widths add up to at most the overlap's width.
pub proof fn law_resolve_fits<F: Fn(RayDeltaSums) -> u32>(ds: GlyphDataset, overlap: RaysView, delta: F)
    requires
        spec_resolve(ds, overlap, delta) is Some,
    ensures
        steps_width(spec_resolve(ds, overlap, delta)->0) <= overlap.width,
    decreases overlap.width,
{
    if (overlap.width as int) >= ds.least_width() && ds.fuzzy_ok(overlap) {
        match ds.spec_fuzzy_get(overlap) {
            None => {},
            Some(cands) => {
                lemma_best_step_fits(overlap, cands, cands.len() as int, delta);
                match crate::glyph_recognizer::best_step(overlap, cands, cands.len() as int, delta) {
                    Some(Some(b)) => {
                        let gw = b.0.ray.width as int;
                        let nw = overlap.width - gw;
                        let one = seq![b];
                        assert(one.drop_first() =~= Seq::<(Glyph, u32)>::empty());
                        assert(steps_width(one.drop_first()) == 0);
                        assert(steps_width(one) == gw);
                        if nw >= ds.least_width() && sub_glyph_ok(overlap, gw, nw) {
                            match spec_sub_glyph(overlap, gw, nw) {
                                Some(rest) => {
                                    if rest.width < overlap.width {
                                        lemma_sub_glyph_width(overlap, gw, nw);
                                        law_resolve_fits(ds, rest, delta);
                                        let tail = spec_resolve(ds, rest, delta)->0;
                                        assert((one + tail).drop_first() =~= tail);
                                    }
                                },
                                None => {},
                            }
                        }
                    },
                    _ => {},
                }
            },
        }
    }
}

/// Matching a glyph finds the smallest score: when one of the first `n` stored glyphs has
/// its top within two rows of the ray's, a glyph is found, its top is close too, and its
/// score is no larger than that of any such glyph.
pub proof fn law_best_is_minimal<F: Fn(RayDeltaSums) -> u32>(ray: RaysView, gs: Seq<Glyph>, n: int, delta: F)
    requires
        0 <= n <= gs.len(),
    ensures
        forall|i: int|
            0 <= i < n && top_close(ray, #[trigger] gs[i]) ==> best_among(ray, gs, n, delta) is Some,
        best_among(ray, gs, n, delta) matches Some(b) ==> top_close(ray, b.0) && b.1 == glyph_score(
            delta,
            ray,
            b.0.ray@,
        ) && exists|i: int| 0 <= i < n && gs[i] == b.0,
        best_among(ray, gs, n, delta) matches Some(b) ==> forall|i: int|
            0 <= i < n && top_close(ray, #[trigger] gs[i]) ==> b.1 <= glyph_score(delta, ray, gs[i].ray@),
    decreases n,
{
    if n > 0 {
        law_best_is_minimal(ray, gs, n - 1, delta);
        match best_among(ray, gs, n - 1, delta) {
            Some(b) => {
                let i = choose|i: int| 0 <= i < n - 1 && gs[i] == b.0;
                assert(gs[i] == b.0);
            },
            None => {},
        }
        if top_close(ray, gs[n - 1]) {
            assert(gs[n - 1] == gs[n - 1]);
        }
    }
}

/// The best path below a node is the cheapest: its total score is no larger than that of
/// the best path of any of the first `n` children, and it is the best path of one of them
/// unless none scores within `u32`.
pub proof fn law_flat_picks_cheapest(v: Enc, n: int)
    requires
        0 <= n <= children_of(v).len(),
    ensures
        forall|i: int| 0 <= i < n ==> best_child(v, n).1 <= flat(#[trigger] children_of(v)[i]).1,
        best_child(v, n) == (Seq::<char>::empty(), u32::MAX as int) || exists|i: int|
            0 <= i < n && best_child(v, n) == flat(children_of(v)[i]),
    decreases n,
{
    if n > 0 {
        lemma_children_shorter(v);
        law_flat_picks_cheapest(v, n - 1);
        if best_child(v, n - 1) != (Seq::<char>::empty(), u32::MAX as int) {
            let i = choose|i: int| 0 <= i < n - 1 && best_child(v, n - 1) == flat(children_of(v)[i]);
            assert(best_child(v, n - 1) == flat(children_of(v)[i]));
        }
        assert(flat(children_of(v)[n - 1]) == flat(children_of(v)[n - 1]));
    }
}

/// In a consistent glyph, cropping columns that lie within it is defined as soon as the
/// crop's offset stays within `i8`.
pub proof fn law_consistent_sub_glyph_ok(v: RaysView, start: int, width: int)
    requires
        v.consistent(),
        0 <= start,
        0 <= width,
        width == 0 || start + width <= v.width,
        sub_offset_ok(v, start, width),
    ensures
        sub_glyph_ok(v, start, width),
{
    if width > 0 {
        let end = start + width;
        let top = sub_top(v, start, width);
        let bottom = sub_bottom(v, start, width);
        let s = trimmed_start(v, start, width);
        lemma_first_set_bounds(column_flags(v), start, end);
        if top < v.height && bottom < v.height {
            lemma_seq_min(v.t2b, s, end);
            lemma_seq_min(v.b2t, s, end);
            let j = choose|j: int| s <= j < end && v.b2t[j] == bottom;
            v.lemma_column_rays(j);
        }
    }
}

proof fn lemma_first_set_agree(a: Seq<bool>, b: Seq<bool>, lo: int, hi: int)
    requires
        forall|i: int| lo <= i < hi ==> a[i] == b[i],
    ensures
        first_set(a, lo, hi) == first_set(b, lo, hi),
    decreases hi - lo,
{
    if lo < hi {
        lemma_first_set_agree(a, b, lo, hi - 1);
    }
}

proof fn lemma_last_end_agree(a: Seq<bool>, b: Seq<bool>, lo: int, hi: int)
    requires
        forall|i: int| lo <= i < hi ==> a[i] == b[i],
    ensures
        last_end(a, lo, hi) == last_end(b, lo, hi),
    decreases hi - lo,
{
    if lo < hi {
        lemma_last_end_agree(a, b, lo, hi - 1);
    }
}

/// The profiles of a bitmap depend only on its pixels within the stated size.
proof fn lemma_rays_agree(w: u16, h: u8, o: i8, g1: Seq<Seq<bool>>, g2: Seq<Seq<bool>>)
    requires
        forall|x: int, y: int| 0 <= x < w && 0 <= y < h ==> #[trigger] g1[x][y] == g2[x][y],
    ensures
        rays_of(w, h, o, g1).l2r == rays_of(w, h, o, g2).l2r,
        rays_of(w, h, o, g1).r2l == rays_of(w, h, o, g2).r2l,
        rays_of(w, h, o, g1).m2l == rays_of(w, h, o, g2).m2l,
        rays_of(w, h, o, g1).m2r == rays_of(w, h, o, g2).m2r,
        rays_of(w, h, o, g1).t2b == rays_of(w, h, o, g2).t2b,
        rays_of(w, h, o, g1).b2t == rays_of(w, h, o, g2).b2t,
        rays_of(w, h, o, g1).m2t == rays_of(w, h, o, g2).m2t,
        rays_of(w, h, o, g1).m2b == rays_of(w, h, o, g2).m2b,
{
    let wi = w as int;
    let hi = h as int;
    assert forall|y: int| 0 <= y < hi implies #[trigger] row_of(g1, y, wi) == row_of(g2, y, wi) by {
        assert(row_of(g1, y, wi) =~= row_of(g2, y, wi));
    }
    assert forall|x: int| 0 <= x < wi implies {
        &&& first_set(#[trigger] g1[x], 0, hi) == first_set(g2[x], 0, hi)
        &&& last_end(g1[x], 0, hi) == last_end(g2[x], 0, hi)
        &&& last_end(g1[x], 0, hi / 2) == last_end(g2[x], 0, hi / 2)
        &&& first_set(g1[x], hi / 2, hi) == first_set(g2[x], hi / 2, hi)
    } by {
        assert forall|i: int| 0 <= i < hi implies g1[x][i] == g2[x][i] by {
            assert(g1[x][i] == g2[x][i]);
        }
        lemma_first_set_agree(g1[x], g2[x], 0, hi);
        lemma_last_end_agree(g1[x], g2[x], 0, hi);
        lemma_last_end_agree(g1[x], g2[x], 0, hi / 2);
        lemma_first_set_agree(g1[x], g2[x], hi / 2, hi);
    }
    let a = rays_of(w, h, o, g1);
    let b = rays_of(w, h, o, g2);
    assert(a.l2r =~= b.l2r);
    assert(a.r2l =~= b.r2l);
    assert(a.m2l =~= b.m2l);
    assert(a.m2r =~= b.m2r);
    assert(a.t2b =~= b.t2b);
    assert(a.b2t =~= b.b2t);
    assert(a.m2t =~= b.m2t);
    assert(a.m2b =~= b.m2b);
}

/// Cropping a crop of a consistent glyph over all of its own columns gives it back: the same
/// size, offset and profiles, and the same pixels within its size.
pub proof fn law_sub_glyph_again(v: RaysView, start: int, width: int)
    requires
        v.consistent(),
        0 <= start,
        0 <= width,
        start + width <= v.width,
        spec_sub_glyph(v, start, width) is Some,
    ensures
        ({
            let r = spec_sub_glyph(v, start, width)->0;
            &&& spec_sub_glyph(r, 0, r.width as int) is Some
            &&& ({
                let t = spec_sub_glyph(r, 0, r.width as int)->0;
                &&& t.width == r.width && t.height == r.height && t.pixels_from_top == r.pixels_from_top
                &&& t.l2r == r.l2r && t.r2l == r.r2l && t.m2l == r.m2l && t.m2r == r.m2r
                &&& t.t2b == r.t2b && t.b2t == r.b2t && t.m2t == r.m2t && t.m2b == r.m2b
                &&& forall|x: int, y: int| 0 <= x < r.width && 0 <= y < r.height ==> t.raw[x][y] == r.raw[x][y]
            })
        }),
{
    law_sub_glyph_tight(v, start, width);
    let r = spec_sub_glyph(v, start, width)->0;
    let w = r.width as int;
    let h = r.height as int;
    let flags = column_flags(r);
    lemma_first_set_bounds(flags, 0, w);
    assert(flags[0]);
    assert(first_set(flags, 0, w) == 0);
    assert(trimmed_start(r, 0, w) == 0);
    lemma_seq_min(r.t2b, 0, w);
    lemma_seq_min(r.b2t, 0, w);
    let xt = choose|x: int| 0 <= x < r.width && r.t2b[x] == 0;
    let xb = choose|x: int| 0 <= x < r.width && r.b2t[x] == 0;
    assert(seq_min(r.t2b, 0, w) <= r.t2b[xt]);
    assert(seq_min(r.b2t, 0, w) <= r.b2t[xb]);
    assert(sub_top(r, 0, w) == 0);
    assert(sub_bottom(r, 0, w) == 0);
    let g = Seq::new(w as nat, |x: int| Seq::new(h as nat, |y: int| if x < w { r.raw[0 + x][0 + y] } else { false }));
    assert(byte_as_i8(0u8) == 0);
    let t = spec_sub_glyph(r, 0, w)->0;
    assert(t == rays_of(w as u16, h as u8, (r.pixels_from_top + byte_as_i8(0u8)) as i8, g));
    assert forall|x: int, y: int| 0 <= x < w && 0 <= y < h implies #[trigger] g[x][y] == r.raw[x][y] by {}
    lemma_rays_agree(r.width, r.height, r.pixels_from_top, g, r.raw);
}

/// The profile vectors of a consistent glyph have exactly its width and height, so a dataset
/// built from such samples keeps [`GlyphDataset::all_exact`].
pub proof fn law_consistent_profiles_exact(v: RaysView)
    requires
        v.consistent(),
    ensures
        profiles_exact(v),
{
}

/// The sum of `f` over a sequence of glyphs.
pub open spec fn sum_of(s: Seq<RaysView>, f: spec_fn(RaysView) -> int) -> int
    decreases s.len(),
{
    if s.len() == 0 {
        0
    } else {
        sum_of(s.drop_last(), f) + f(s.last())
    }
}

pub open spec fn width_of() -> spec_fn(RaysView) -> int {
    |r: RaysView| r.width as int
}

pub open spec fn height_of() -> spec_fn(RaysView) -> int {
    |r: RaysView| r.height as int
}

pub open spec fn offset_of() -> spec_fn(RaysView) -> int {
    |r: RaysView| r.pixels_from_top as int
}

pub open spec fn row_entry_of(k: int, y: int) -> spec_fn(RaysView) -> int {
    |r: RaysView| row_entry(r, k, y)
}

pub open spec fn col_entry_of(k: int, x: int) -> spec_fn(RaysView) -> int {
    |r: RaysView| col_entry(r, k, x)
}

pub open spec fn pixel_entry_of(x: int, y: int) -> spec_fn(RaysView) -> int {
    |r: RaysView| pixel_entry(r, x, y)
}

proof fn lemma_take_step(s: Seq<RaysView>, n: int)
    requires
        0 < n <= s.len(),
    ensures
        s.take(n).drop_last() == s.take(n - 1),
        s.take(n).last() == s[n - 1],
{
    assert(s.take(n).drop_last() =~= s.take(n - 1));
}

proof fn lemma_totals_are_sums(s: Seq<RaysView>, n: int, k: int, a: int, b: int)
    requires
        0 <= n <= s.len(),
    ensures
        width_total(s, n) == sum_of(s.take(n), width_of()),
        height_total(s, n) == sum_of(s.take(n), height_of()),
        offset_total(s, n) == sum_of(s.take(n), offset_of()),
        row_total(s, n, k, a) == sum_of(s.take(n), row_entry_of(k, a)),
        col_total(s, n, k, a) == sum_of(s.take(n), col_entry_of(k, a)),
        pixel_total(s, n, a, b) == sum_of(s.take(n), pixel_entry_of(a, b)),
    decreases n,
{
    if n > 0 {
        lemma_totals_are_sums(s, n - 1, k, a, b);
        lemma_take_step(s, n);
    } else {
        assert(s.take(0).len() == 0);
    }
}

proof fn lemma_sum_remove(t: Seq<RaysView>, k: int, f: spec_fn(RaysView) -> int)
    requires
        0 <= k < t.len(),
    ensures
        sum_of(t, f) == sum_of(t.remove(k), f) + f(t[k]),
    decreases t.len(),
{
    if k == t.len() - 1 {
        assert(t.remove(k) =~= t.drop_last());
    } else {
        lemma_sum_remove(t.drop_last(), k, f);
        assert(t.remove(k).drop_last() =~= t.drop_last().remove(k));
        assert(t.remove(k).last() == t.last());
    }
}

proof fn lemma_sum_reorder(s: Seq<RaysView>, t: Seq<RaysView>, f: spec_fn(RaysView) -> int)
    requires
        s.to_multiset() == t.to_multiset(),
    ensures
        sum_of(s, f) == sum_of(t, f),
    decreases s.len(),
{
    broadcast use vstd::seq_lib::group_to_multiset_ensures;

    if s.len() == 0 {
        assert(t.len() == s.to_multiset().len());
    } else {
        let x = s.last();
        assert(s[s.len() - 1] == x);
        assert(s.contains(x));
        vstd::seq_lib::to_multiset_contains(s, x);
        vstd::seq_lib::to_multiset_contains(t, x);
        assert(t.contains(x));
        let k = choose|k: int| 0 <= k < t.len() && t[k] == x;
        lemma_sum_remove(t, k, f);
        assert(s.drop_last() =~= s.remove(s.len() - 1));
        assert(s.remove(s.len() - 1).to_multiset() == s.to_multiset().remove(x));
        assert(t.remove(k).to_multiset() == t.to_multiset().remove(x));
        lemma_sum_reorder(s.drop_last(), t.remove(k), f);
    }
}

/// Averaging samples of one size whose profile vectors have exactly that size does not depend
/// on the order of the samples.
pub proof fn law_average_reorder(s: Seq<RaysView>, t: Seq<RaysView>)
    requires
        s.len() >= 1,
        s.to_multiset() == t.to_multiset(),
        forall|i: int|
            0 <= i < s.len() ==> profiles_exact(#[trigger] s[i]) && s[i].width == s[0].width && s[i].height
                == s[0].height,
    ensures
        spec_average(s) == spec_average(t),
{
    broadcast use vstd::seq_lib::group_to_multiset_ensures;

    let n = s.len() as int;
    assert(t.len() == s.to_multiset().len());
    assert(s.take(n) =~= s);
    assert(t.take(n) =~= t);
    assert(t.contains(t[0]));
    vstd::seq_lib::to_multiset_contains(s, t[0]);
    vstd::seq_lib::to_multiset_contains(t, t[0]);
    assert(s.contains(t[0]));
    let j = choose|j: int| 0 <= j < s.len() && s[j] == t[0];
    assert(profiles_exact(s[j]) && profiles_exact(s[0]));
    assert forall|k: int, a: int| true implies #[trigger] row_total(s, n, k, a) == row_total(t, n, k, a) by {
        lemma_totals_are_sums(s, n, k, a, 0);
        lemma_totals_are_sums(t, n, k, a, 0);
        lemma_sum_reorder(s, t, row_entry_of(k, a));
    }
    assert forall|k: int, a: int| true implies #[trigger] col_total(s, n, k, a) == col_total(t, n, k, a) by {
        lemma_totals_are_sums(s, n, k, a, 0);
        lemma_totals_are_sums(t, n, k, a, 0);
        lemma_sum_reorder(s, t, col_entry_of(k, a));
    }
    assert forall|a: int, b: int| true implies #[trigger] pixel_total(s, n, a, b) == pixel_total(t, n, a, b) by {
        lemma_totals_are_sums(s, n, 0, a, b);
        lemma_totals_are_sums(t, n, 0, a, b);
        lemma_sum_reorder(s, t, pixel_entry_of(a, b));
    }
    lemma_totals_are_sums(s, n, 0, 0, 0);
    lemma_totals_are_sums(t, n, 0, 0, 0);
    lemma_sum_reorder(s, t, width_of());
    lemma_sum_reorder(s, t, height_of());
    lemma_sum_reorder(s, t, offset_of());
    let p = spec_average(s);
    let q = spec_average(t);
    assert(p.l2r =~= q.l2r);
    assert(p.r2l =~= q.r2l);
    assert(p.m2r =~= q.m2r);
    assert(p.m2l =~= q.m2l);
    assert(p.t2b =~= q.t2b);
    assert(p.b2t =~= q.b2t);
    assert(p.m2b =~= q.m2b);
    assert(p.m2t =~= q.m2t);
    assert forall|x: int| 0 <= x < p.raw.len() implies #[trigger] p.raw[x] == q.raw[x] by {
        assert(p.raw[x] =~= q.raw[x]);
    }
    assert(p.raw =~= q.raw);
}

/// An encoding whose root's count is its whole length.
pub open spec fn sized(e: Enc) -> bool {
    e.len() >= 1 && e[0].1 == e.len()
}

/// The encodings `ch[i..n)` one after the other.
pub open spec fn cat_from<'a>(ch: Seq<Enc<'a>>, i: int, n: int) -> Enc<'a>
    decreases n - i,
{
    if i >= n {
        Seq::empty()
    } else {
        ch[i] + cat_from(ch, i + 1, n)
    }
}

proof fn lemma_cat_from_snoc<'a>(ch: Seq<Enc<'a>>, i: int, n: int)
    requires
        i < n,
    ensures
        cat_from(ch, i, n) == cat_from(ch, i, n - 1) + ch[n - 1],
    decreases n - i,
{
    if i == n - 1 {
        assert(cat_from(ch, i + 1, n) == Seq::<(RecogKind<'a>, nat)>::empty());
        assert(cat_from(ch, i, n) =~= ch[n - 1]);
        assert(cat_from(ch, i, n - 1) =~= Seq::<(RecogKind<'a>, nat)>::empty());
        assert(cat_from(ch, i, n) =~= cat_from(ch, i, n - 1) + ch[n - 1]);
    } else {
        lemma_cat_from_snoc(ch, i + 1, n);
        assert(cat_from(ch, i, n) =~= cat_from(ch, i, n - 1) + ch[n - 1]);
    }
}

proof fn lemma_split_front<'a>(a: Enc<'a>, b: Enc<'a>)
    requires
        sized(a),
    ensures
        split_subtrees(a + b) == seq![a] + split_subtrees(b),
{
    let s = a + b;
    assert(s[0] == a[0]);
    assert(s.take(a.len() as int) =~= a);
    assert(s.skip(a.len() as int) =~= b);
}

proof fn lemma_split_cat<'a>(ch: Seq<Enc<'a>>, i: int, n: int)
    requires
        0 <= i <= n <= ch.len(),
        forall|j: int| 0 <= j < ch.len() ==> sized(#[trigger] ch[j]),
    ensures
        split_subtrees(cat_from(ch, i, n)) == ch.subrange(i, n),
    decreases n - i,
{
    if i == n {
        assert(split_subtrees(cat_from(ch, i, n)) =~= ch.subrange(i, n));
    } else {
        lemma_split_cat(ch, i + 1, n);
        lemma_split_front(ch[i], cat_from(ch, i + 1, n));
        assert(seq![ch[i]] + ch.subrange(i + 1, n) =~= ch.subrange(i, n));
    }
}

proof fn lemma_attach_single<'a>(d: RecogKind<'a>, ch: Seq<Enc<'a>>, n: int)
    requires
        0 <= n <= ch.len(),
        forall|j: int| 0 <= j < ch.len() ==> sized(#[trigger] ch[j]),
    ensures
        attach(seq![(d, 1nat)], ch, n) == seq![(d, (1 + cat_from(ch, 0, n).len()) as nat)] + cat_from(ch, 0, n),
    decreases n,
{
    if n == 0 {
        assert(cat_from(ch, 0, 0) =~= Seq::<(RecogKind<'a>, nat)>::empty());
        assert(seq![(d, 1nat)] =~= seq![(d, (1 + cat_from(ch, 0, n).len()) as nat)] + cat_from(ch, 0, n));
    } else {
        lemma_attach_single(d, ch, n - 1);
        lemma_cat_from_snoc(ch, 0, n);
        let a = attach(seq![(d, 1nat)], ch, n - 1);
        let c = ch[n - 1];
        assert(sized(c));
        assert(a.drop_first() =~= cat_from(ch, 0, n - 1));
        assert(add_child(a, c) =~= seq![(d, (1 + cat_from(ch, 0, n).len()) as nat)] + cat_from(ch, 0, n));
    }
}

/// The children of a single node with encodings `ch` attached are `ch`.
proof fn lemma_attach_children<'a>(d: RecogKind<'a>, ch: Seq<Enc<'a>>)
    requires
        forall|j: int| 0 <= j < ch.len() ==> sized(#[trigger] ch[j]),
    ensures
        sized(attach(seq![(d, 1nat)], ch, ch.len() as int)),
        attach(seq![(d, 1nat)], ch, ch.len() as int)[0].0 == d,
        children_of(attach(seq![(d, 1nat)], ch, ch.len() as int)) == ch,
{
    let n = ch.len() as int;
    lemma_attach_single(d, ch, n);
    let e = attach(seq![(d, 1nat)], ch, n);
    assert(e.drop_first() =~= cat_from(ch, 0, n));
    lemma_split_cat(ch, 0, n);
    assert(ch.subrange(0, n) =~= ch);
}

proof fn lemma_paths_sized<'a, F: Fn(RayDeltaSums) -> u32>(ds: GlyphDataset, overlap: RaysView, delta: F)
    requires
        spec_paths::<'a, F>(ds, overlap, delta) is Some,
    ensures
        forall|i: int|
            0 <= i < spec_paths::<'a, F>(ds, overlap, delta)->0.len() ==> sized(
                #[trigger] spec_paths::<'a, F>(ds, overlap, delta)->0[i],
            ),
    decreases overlap.width, 2nat, 0nat,
{
    match ds.spec_fuzzy_get(overlap) {
        None => {},
        Some(cands) => {
            lemma_from_sized::<F>(ds, overlap, cands, cands.len() as int, delta);
        },
    }
}

proof fn lemma_from_sized<'a, F: Fn(RayDeltaSums) -> u32>(
    ds: GlyphDataset,
    overlap: RaysView,
    cands: Seq<Glyph>,
    n: int,
    delta: F,
)
    requires
        paths_from::<'a, F>(ds, overlap, cands, n, delta) is Some,
    ensures
        forall|i: int|
            0 <= i < paths_from::<'a, F>(ds, overlap, cands, n, delta)->0.len() ==> sized(
                #[trigger] paths_from::<'a, F>(ds, overlap, cands, n, delta)->0[i],
            ),
    decreases overlap.width, 1nat, n,
{
    if !(n <= 0 || n > cands.len()) {
        lemma_from_sized::<F>(ds, overlap, cands, n - 1, delta);
        let prev = paths_from::<'a, F>(ds, overlap, cands, n - 1, delta)->0;
        match candidate_step::<'a, F>(ds, overlap, cands[n - 1], delta) {
            Some(Some(t)) => {
                lemma_step_shape::<F>(ds, overlap, cands[n - 1], delta);
                assert forall|i: int| 0 <= i < prev.push(t).len() implies sized(#[trigger] prev.push(t)[i]) by {
                    if i < prev.len() {
                        assert(prev.push(t)[i] == prev[i]);
                    }
                }
            },
            _ => {},
        }
    }
}

/// A path that a candidate starts is rooted at that candidate, and its children are the
/// paths of the columns after the candidate's width (none when those hold no pixel).
proof fn lemma_step_shape<'a, F: Fn(RayDeltaSums) -> u32>(ds: GlyphDataset, overlap: RaysView, c: Glyph, delta: F)
    requires
        candidate_step::<'a, F>(ds, overlap, c, delta) matches Some(Some(_)),
    ensures
        ({
            let e = candidate_step::<'a, F>(ds, overlap, c, delta)->0->0;
            let cw = c.ray.width as int;
            let nw = overlap.width - cw;
            &&& sized(e)
            &&& e[0].0 matches RecogKind::Match(g, _) && *g == c
            &&& match spec_sub_glyph(overlap, cw, nw) {
                Some(rest) => spec_paths::<'a, F>(ds, rest, delta) matches Some(ch) && children_of(e) == ch,
                None => children_of(e).len() == 0,
            }
        }),
    decreases overlap.width, 0nat, 0nat,
{
    let cw = c.ray.width as int;
    let lead = spec_sub_glyph(overlap, 0, cw)->0;
    let score = glyph_score(delta, lead, c.ray@);
    let d = RecogKind::Match(&c, score);
    let node: Enc<'a> = seq![(d, 1nat)];
    let nw = overlap.width - cw;
    match spec_sub_glyph(overlap, cw, nw) {
        None => {
            assert(node.drop_first() =~= Seq::<(RecogKind<'a>, nat)>::empty());
            assert(children_of(node) =~= Seq::<Enc<'a>>::empty());
        },
        Some(rest) => {
            let children = spec_paths::<'a, F>(ds, rest, delta)->0;
            lemma_paths_sized::<F>(ds, rest, delta);
            lemma_attach_children(d, children);
        },
    }
}

proof fn lemma_from_entries<'a, F: Fn(RayDeltaSums) -> u32>(
    ds: GlyphDataset,
    overlap: RaysView,
    cands: Seq<Glyph>,
    n: int,
    delta: F,
)
    requires
        paths_from::<'a, F>(ds, overlap, cands, n, delta) is Some,
    ensures
        forall|i: int|
            0 <= i < paths_from::<'a, F>(ds, overlap, cands, n, delta)->0.len() ==> exists|k: int|
                0 <= k < cands.len() && candidate_step::<'a, F>(ds, overlap, cands[k], delta) == Some(
                    Some(#[trigger] paths_from::<'a, F>(ds, overlap, cands, n, delta)->0[i]),
                ),
    decreases n,
{
    if !(n <= 0 || n > cands.len()) {
        lemma_from_entries::<F>(ds, overlap, cands, n - 1, delta);
        let prev = paths_from::<'a, F>(ds, overlap, cands, n - 1, delta)->0;
        match candidate_step::<'a, F>(ds, overlap, cands[n - 1], delta) {
            Some(Some(t)) => {
                assert forall|i: int| 0 <= i < prev.push(t).len() implies exists|k: int|
                    0 <= k < cands.len() && candidate_step::<'a, F>(ds, overlap, cands[k], delta) == Some(
                        Some(#[trigger] prev.push(t)[i]),
                    ) by {
                    if i < prev.len() {
                        assert(prev.push(t)[i] == prev[i]);
                    } else {
                        assert(prev.push(t)[i] == t);
                        assert(candidate_step::<'a, F>(ds, overlap, cands[n - 1], delta) == Some(Some(t)));
                    }
                }
            },
            _ => {},
        }
    }
}

/// The children of the root of a path that reading an overlap yields, when that root is a
/// match of glyph `g`, are, in order, the paths of the overlap's columns after `g`'s width;
/// the root has no child when those columns hold no pixel.
pub proof fn law_path_children<'a, F: Fn(RayDeltaSums) -> u32>(ds: GlyphDataset, overlap: RaysView, delta: F, i: int)
    requires
        spec_paths::<'a, F>(ds, overlap, delta) is Some,
        0 <= i < spec_paths::<'a, F>(ds, overlap, delta)->0.len(),
    ensures
        ({
            let p = spec_paths::<'a, F>(ds, overlap, delta)->0[i];
            p[0].0 matches RecogKind::Match(g, _) ==> ({
                let cw = g.ray.width as int;
                let nw = overlap.width - cw;
                match spec_sub_glyph(overlap, cw, nw) {
                    Some(rest) => spec_paths::<'a, F>(ds, rest, delta) matches Some(ch) && children_of(p) == ch,
                    None => children_of(p).len() == 0,
                }
            })
        }),
{
    let p = spec_paths::<'a, F>(ds, overlap, delta)->0[i];
    match ds.spec_fuzzy_get(overlap) {
        None => {
            assert(p == seq![(RecogKind::Penalty((5000 * overlap.width) as u32), 1nat)]);
        },
        Some(cands) => {
            let res = paths_from::<'a, F>(ds, overlap, cands, cands.len() as int, delta)->0;
            if res.len() == 0 {
                assert(p == seq![(RecogKind::Penalty((5000 * overlap.width) as u32), 1nat)]);
            } else {
                lemma_from_entries::<F>(ds, overlap, cands, cands.len() as int, delta);
                assert(p == res[i]);
                let k = choose|k: int|
                    0 <= k < cands.len() && candidate_step::<'a, F>(ds, overlap, cands[k], delta) == Some(Some(res[i]));
                lemma_step_shape::<F>(ds, overlap, cands[k], delta);
            }
        },
    }
}

proof fn lemma_max_score_is_max<F: Fn(RayDeltaSums) -> u32>(delta: F, avg: RaysView, group: Seq<RaysView>)
    requires
        group.len() >= 1,
    ensures
        forall|i: int| 0 <= i < group.len() ==> max_score(delta, avg, group) >= #[trigger] glyph_score(delta, avg, group[i]),
        exists|i: int| 0 <= i < group.len() && max_score(delta, avg, group) == glyph_score(delta, avg, group[i]),
    decreases group.len(),
{
    if group.len() == 1 {
        assert(max_score(delta, avg, group) == glyph_score(delta, avg, group[0]));
    } else {
        let rest = group.drop_last();
        lemma_max_score_is_max(delta, avg, rest);
        assert forall|i: int| 0 <= i < group.len() implies max_score(delta, avg, group) >= #[trigger] glyph_score(
            delta,
            avg,
            group[i],
        ) by {
            if i < group.len() - 1 {
                assert(group[i] == rest[i]);
                assert(glyph_score(delta, avg, rest[i]) <= max_score(delta, avg, rest));
            }
        }
        if glyph_score(delta, avg, group.last()) > max_score(delta, avg, rest) {
            assert(max_score(delta, avg, group) == glyph_score(delta, avg, group[group.len() - 1]));
        } else {
            let i = choose|i: int| 0 <= i < rest.len() && max_score(delta, avg, rest) == glyph_score(delta, avg, rest[i]);
            assert(group[i] == rest[i]);
        }
    }
}

/// The largest sample error of a glyph made from samples is the largest score of its
/// averaged profiles against the samples: no sample scores more, and one scores exactly it.
pub proof fn law_max_error_is_largest<F: Fn(RayDeltaSums) -> u32>(g: Glyph, value: Seq<char>, group: Seq<RaysView>, delta: F)
    requires
        class_glyph(g, value, group, delta),
        group.len() >= 1,
    ensures
        forall|i: int| 0 <= i < group.len() ==> g.max_error >= #[trigger] glyph_score(delta, g.ray@, group[i]),
        exists|i: int| 0 <= i < group.len() && g.max_error == glyph_score(delta, g.ray@, group[i]),
{
    lemma_max_score_is_max(delta, g.ray@, group);
}

proof fn lemma_flat_ok_fits(v: Enc)
    requires
        flat_ok(v),
    ensures
        flat(v).1 <= u32::MAX,
    decreases v.len(), 1nat, 0nat,
{
    let n = children_of(v).len() as int;
    if n > 0 {
        lemma_children_shorter(v);
        lemma_children_flat_ok_fits(v, n);
        law_flat_picks_cheapest(v, n);
    }
}

proof fn lemma_children_flat_ok_fits(v: Enc, n: int)
    requires
        0 <= n <= children_of(v).len(),
        children_flat_ok(v, n),
    ensures
        forall|i: int| 0 <= i < n ==> flat(#[trigger] children_of(v)[i]).1 <= u32::MAX,
    decreases v.len(), 0nat, n,
{
    if n > 0 {
        lemma_children_shorter(v);
        lemma_children_flat_ok_fits(v, n - 1);
        lemma_flat_ok_fits(children_of(v)[n - 1]);
    }
}

/// The total score of the best path from a node is the node's own score (the match's score or
/// the penalty) plus, when it has children, the total of the cheapest child path: that total
/// is one child's total and no child's total is smaller.  The text is the node's own text
/// followed by that child's text.
pub proof fn law_flat_total(v: Enc)
    requires
        v.len() >= 1,
        flat_ok(v),
    ensures
        children_of(v).len() == 0 ==> flat(v).1 == own_score(v[0].0),
        children_of(v).len() > 0 ==> exists|i: int|
            0 <= i < children_of(v).len() && flat(v).1 == own_score(v[0].0) + flat(children_of(v)[i]).1 && flat(v).0
                == crate::glyph_recognizer::own_text(v[0].0) + flat(children_of(v)[i]).0,
        forall|i: int|
            0 <= i < children_of(v).len() ==> flat(v).1 <= own_score(v[0].0) + flat(#[trigger] children_of(v)[i]).1,
{
    let n = children_of(v).len() as int;
    if n > 0 {
        lemma_children_shorter(v);
        lemma_children_flat_ok_fits(v, n);
        law_flat_picks_cheapest(v, n);
        // every child's total fits in `u32`, so the cheapest is taken over the starting bound
        assert(best_child(v, n) == flat(children_of(v)[n - 1]) || best_child(v, n).1 <= flat(children_of(v)[n - 1]).1);
    }
}

proof fn lemma_pick_has(ds: GlyphDataset, gs: Seq<Glyph>, top: int, n: int, i: int)
    requires
        0 <= i < n <= gs.len(),
        ds.overlap_values().contains(gs[i].value@),
        offset_close(gs[i], top),
    ensures
        ds.pick(gs, top, n).contains(gs[i]),
    decreases n,
{
    let prev = ds.pick(gs, top, n - 1);
    if i == n - 1 {
        assert(ds.pick(gs, top, n) == prev.push(gs[i]));
        assert(ds.pick(gs, top, n)[prev.len() as int] == gs[i]);
    } else {
        lemma_pick_has(ds, gs, top, n - 1, i);
        let k = choose|k: int| 0 <= k < prev.len() && prev[k] == gs[i];
        if ds.overlap_values().contains(gs[n - 1].value@) && offset_close(gs[n - 1], top) {
            assert(ds.pick(gs, top, n)[k] == gs[i]);
        }
    }
}

proof fn lemma_between_has(ds: GlyphDataset, overlap: RaysView, lo: int, hi: int, w: int, g: Glyph)
    requires
        lo <= w < hi,
        ds.candidates_at(overlap, w).contains(g),
    ensures
        ds.candidates_between(overlap, lo, hi).contains(g),
    decreases hi - lo,
{
    let prev = ds.candidates_between(overlap, lo, hi - 1);
    let cur = ds.candidates_at(overlap, hi - 1);
    assert(ds.candidates_between(overlap, lo, hi) == prev + cur);
    if w == hi - 1 {
        let k = choose|k: int| 0 <= k < cur.len() && cur[k] == g;
        assert((prev + cur)[prev.len() + k] == g);
    } else {
        lemma_between_has(ds, overlap, lo, hi - 1, w, g);
        let k = choose|k: int| 0 <= k < prev.len() && prev[k] == g;
        assert((prev + cur)[k] == g);
    }
}

/// The scan of an overlap misses no glyph: every stored glyph of a width `w` between the
/// dataset's smallest width and the overlap's width, of the height of the overlap's first `w`
/// columns, whose text may appear in an overlap and whose top lies within two rows of those
/// columns' top, is among the glyphs offered.
pub proof fn law_fuzzy_complete(ds: GlyphDataset, overlap: RaysView, w: int, i: int)
    requires
        ds.least_width() <= w <= overlap.width,
        ds.glyphs_at(w as u16, valid_height(overlap, w) as u8) is Some,
        0 <= i < ds.glyphs_at(w as u16, valid_height(overlap, w) as u8)->0.len(),
        ds.overlap_values().contains(ds.glyphs_at(w as u16, valid_height(overlap, w) as u8)->0[i].value@),
        offset_close(ds.glyphs_at(w as u16, valid_height(overlap, w) as u8)->0[i], valid_top(overlap, w)),
    ensures
        ds.spec_fuzzy_get(overlap) matches Some(c) && c.contains(
            ds.glyphs_at(w as u16, valid_height(overlap, w) as u8)->0[i],
        ),
{
    let gs = ds.glyphs_at(w as u16, valid_height(overlap, w) as u8)->0;
    let top = valid_top(overlap, w);
    lemma_pick_has(ds, gs, top, gs.len() as int, i);
    assert(ds.candidates_at(overlap, w) == ds.pick(gs, top, gs.len() as int));
    lemma_between_has(ds, overlap, ds.least_width() as int, overlap.width + 1, w, gs[i]);
    let c = ds.candidates_between(overlap, ds.least_width() as int, overlap.width + 1);
    assert(c.len() > 0);
}

/// Candidate `c` can start `overlap`: its width fits and the overlap's leading columns of
/// that width hold pixels; then `score` is its score against them.
pub open spec fn starts_with_score<F: Fn(RayDeltaSums) -> u32>(overlap: RaysView, c: Glyph, delta: F, score: int) -> bool {
    let cw = c.ray.width as int;
    &&& cw <= overlap.width
    &&& spec_sub_glyph(overlap, 0, cw) matches Some(lead) && score == glyph_score(delta, lead, c.ray@)
}

/// Candidate `c` can start `overlap`, with any score.
pub open spec fn can_start(overlap: RaysView, c: Glyph) -> bool {
    let cw = c.ray.width as int;
    cw <= overlap.width && spec_sub_glyph(overlap, 0, cw) is Some
}

/// Choosing the best of the first `n` candidates takes one that can start the overlap, with
/// its score, and no candidate that can start it scores less; nothing is taken only when no
/// candidate can start it.
pub proof fn law_best_step_minimal<F: Fn(RayDeltaSums) -> u32>(overlap: RaysView, cands: Seq<Glyph>, n: int, delta: F)
    requires
        0 <= n <= cands.len(),
        best_step(overlap, cands, n, delta) is Some,
    ensures
        best_step(overlap, cands, n, delta) == Some(None::<(Glyph, u32)>) ==> forall|k: int|
            0 <= k < n ==> !can_start(overlap, #[trigger] cands[k]),
        best_step(overlap, cands, n, delta) matches Some(Some(b)) ==> {
            &&& exists|k: int| 0 <= k < n && cands[k] == b.0 && starts_with_score(overlap, cands[k], delta, b.1 as int)
            &&& forall|k: int|
                0 <= k < n && can_start(overlap, #[trigger] cands[k]) ==> b.1 <= glyph_score(
                    delta,
                    spec_sub_glyph(overlap, 0, cands[k].ray.width as int)->0,
                    cands[k].ray@,
                )
        },
    decreases n,
{
    if n > 0 {
        law_best_step_minimal(overlap, cands, n - 1, delta);
        let c = cands[n - 1];
        let cw = c.ray.width as int;
        match spec_sub_glyph(overlap, 0, cw) {
            None => {},
            Some(lead) => {
                let sc = glyph_score(delta, lead, c.ray@);
                assert(starts_with_score(overlap, c, delta, sc as int));
                match best_step(overlap, cands, n - 1, delta) {
                    Some(Some(b)) => {
                        let k = choose|k: int| 0 <= k < n - 1 && cands[k] == b.0 && starts_with_score(overlap, cands[k], delta, b.1 as int);
                        assert(cands[k] == b.0);
                    },
                    _ => {},
                }
            },
        }
    }
}

/// The run left after the first `i` glyphs of a reading are cut off, one after the other.
pub open spec fn run_after(overlap: RaysView, steps: Seq<(Glyph, u32)>, i: int) -> RaysView
    decreases i,
{
    if i <= 0 {
        overlap
    } else {
        let r = run_after(overlap, steps, i - 1);
        let gw = steps[i - 1].0.ray.width as int;
        spec_sub_glyph(r, gw, r.width - gw)->0
    }
}

proof fn lemma_run_after_shift(overlap: RaysView, b: (Glyph, u32), rest: RaysView, tail: Seq<(Glyph, u32)>, i: int)
    requires
        1 <= i <= tail.len() + 1,
        spec_sub_glyph(overlap, b.0.ray.width as int, overlap.width - b.0.ray.width) == Some(rest),
    ensures
        run_after(overlap, seq![b] + tail, i) == run_after(rest, tail, i - 1),
    decreases i,
{
    if i > 1 {
        lemma_run_after_shift(overlap, b, rest, tail, i - 1);
        assert((seq![b] + tail)[i - 1] == tail[i - 2]);
    } else {
        assert((seq![b] + tail)[0] == b);
        assert(run_after(overlap, seq![b] + tail, 0) == overlap);
        assert(run_after(rest, tail, 0) == rest);
    }
}

/// Each glyph that the greedy reading of an overlap takes is the best start of the run left at
/// that point: it is one of the glyphs the scan of that run offers, it can start that run with
/// the score recorded, and no offered glyph that can start it scores less.
pub proof fn law_resolve_takes_best<F: Fn(RayDeltaSums) -> u32>(ds: GlyphDataset, overlap: RaysView, delta: F, i: int)
    requires
        spec_resolve(ds, overlap, delta) is Some,
        0 <= i < spec_resolve(ds, overlap, delta)->0.len(),
    ensures
        ({
            let steps = spec_resolve(ds, overlap, delta)->0;
            let r = run_after(overlap, steps, i);
            ds.spec_fuzzy_get(r) matches Some(c) && {
                &&& exists|k: int| 0 <= k < c.len() && c[k] == steps[i].0 && starts_with_score(r, c[k], delta, steps[i].1 as int)
                &&& forall|k: int|
                    0 <= k < c.len() && can_start(r, #[trigger] c[k]) ==> steps[i].1 <= glyph_score(
                        delta,
                        spec_sub_glyph(r, 0, c[k].ray.width as int)->0,
                        c[k].ray@,
                    )
            }
        }),
    decreases overlap.width,
{
    let steps = spec_resolve(ds, overlap, delta)->0;
    let cands = ds.spec_fuzzy_get(overlap)->0;
    law_best_step_minimal(overlap, cands, cands.len() as int, delta);
    let b = best_step(overlap, cands, cands.len() as int, delta)->0->0;
    let gw = b.0.ray.width as int;
    let nw = overlap.width - gw;
    if i == 0 {
        assert(steps[0] == b);
    } else {
        let rest = spec_sub_glyph(overlap, gw, nw)->0;
        let tail = spec_resolve(ds, rest, delta)->0;
        assert(steps == seq![b] + tail);
        law_resolve_takes_best(ds, rest, delta, i - 1);
        lemma_run_after_shift(overlap, b, rest, tail, i);
        assert(steps[i] == tail[i - 1]);
    }
}

/// Writing a score in decimal and reading the text back gives the score: the text is
/// made of decimal digits, starts with a zero only for zero, and its value is the number.
pub proof fn law_decimal_text_reads_back(n: nat)
    ensures
        crate::sample_names::all_digits(crate::glyph_recognizer::decimal_text(n)),
        crate::sample_names::decimal(crate::glyph_recognizer::decimal_text(n)) == n,
        crate::glyph_recognizer::decimal_text(n).len() >= 1,
        n > 0 ==> crate::glyph_recognizer::decimal_text(n)[0] != '0',
    decreases n,
{
    let t = crate::glyph_recognizer::decimal_text(n);
    if n < 10 {
        assert(t.drop_last() =~= Seq::<char>::empty());
        assert(t.last() == crate::glyph_recognizer::digit_char(n));
        assert(crate::glyph_recognizer::digit_char(n) as int == n + 48);
        assert(crate::sample_names::decimal(t.drop_last()) == 0);
        assert(t[0] == t.last());
    } else {
        law_decimal_text_reads_back(n / 10);
        let p = crate::glyph_recognizer::decimal_text(n / 10);
        assert(t == p.push(crate::glyph_recognizer::digit_char(n % 10)));
        assert(t.drop_last() =~= p);
        assert(t[0] == p[0]);
        let d = n % 10;
        assert(crate::glyph_recognizer::digit_char(d) as int == d + 48);
        assert(t.last() == crate::glyph_recognizer::digit_char(d));
        assert(n == (n / 10) * 10 + d);
        assert(crate::sample_names::decimal(t) == crate::sample_names::decimal(p) * 10 + (t.last() as int - '0' as int));
        assert forall|i: int| 0 <= i < t.len() implies crate::sample_names::is_digit(#[trigger] t[i]) by {
            if i < p.len() {
                assert(t[i] == p[i]);
            }
        }
    }
}

} // verus!
