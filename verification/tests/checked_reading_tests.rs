use glyph_ocr::glyph_dataset::{class_fits, GlyphDataset};
use glyph_ocr::glyph_rays::{glyph_with_raw, GlyphRays};
use glyph_ocr::glyph_recognizer::{
    best_fits, checked_flat_trees, checked_flatten_paths, checked_resolve_overlap, comparable, flatten_paths,
    get_flat_trees, print_tree, resolve_overlap, u32_text, GlyphRecognizer, RayDeltaSums, RecogKind,
};
use trees::Tree;

fn columns(rows: &[&str]) -> Vec<Vec<bool>> {
    let h = rows.len();
    let w = if h == 0 { 0 } else { rows[0].len() };
    let mut cols = vec![vec![false; h]; w];
    for (y, row) in rows.iter().enumerate() {
        for (x, c) in row.chars().enumerate() {
            cols[x][y] = c == '#';
        }
    }
    cols
}

fn rays(rows: &[&str], top: i8) -> GlyphRays {
    let cols = columns(rows);
    glyph_with_raw(cols.len() as u16, rows.len() as u8, top, cols)
}

fn score(s: RayDeltaSums) -> u32 {
    let horiz = s.horizontal as f64 / s.max_height as f64 / s.max_width as f64;
    let vert = s.vertical as f64 / s.max_width as f64 / s.max_height as f64;
    ((vert + horiz) * 10000.0) as u32
}

/// A score that counts the summed profile differences directly.
fn plain_score(s: RayDeltaSums) -> u32 {
    (s.horizontal + s.vertical) as u32
}

const A: [&str; 3] = ["#.", "##", ".#"];
const B: [&str; 3] = ["#", "#", "#"];
const AB: [&str; 3] = ["#.#", "###", ".##"];

fn dataset() -> GlyphDataset {
    let mut ds = GlyphDataset::new();
    ds.add_possible_overlap("A".to_string());
    ds.add_possible_overlap("B".to_string());
    ds.add_class("A".to_string(), vec![rays(&A, 0), rays(&A, 0)], &score);
    ds.add_class("B".to_string(), vec![rays(&B, 0), rays(&B, 0)], &score);
    ds
}

#[test]
fn entries_list_sizes_in_first_stored_order() {
    let mut ds = dataset();
    ds.add_class("C".to_string(), vec![rays(&A, 1)], &score);
    let e = ds.entries();
    assert_eq!(e.len(), 3);
    assert_eq!((e[0].0, e[0].1, e[0].2.value.as_str()), (2, 3, "A"));
    assert_eq!((e[1].0, e[1].1, e[1].2.value.as_str()), (2, 3, "C"));
    assert_eq!((e[2].0, e[2].1, e[2].2.value.as_str()), (1, 3, "B"));
}

#[test]
fn entries_cover_every_stored_glyph() {
    let ds = dataset();
    let e = ds.entries();
    for (w, h) in [(2u16, 3u8), (1, 3)] {
        for g in ds.get(&w, &h).unwrap() {
            assert!(e.iter().any(|x| x.0 == w && x.1 == h && x.2.value == g.value));
        }
    }
    for x in &e {
        assert!(ds.get(&x.0, &x.1).unwrap().iter().any(|g| g.value == x.2.value));
    }
    assert!(GlyphDataset::new().entries().is_empty());
}

#[test]
fn can_scan_accepts_ordinary_overlaps() {
    let ds = dataset();
    assert!(ds.can_scan(&rays(&AB, 0)));
    assert!(ds.can_scan(&rays(&AB, 100)));
}

#[test]
fn can_scan_refuses_far_offsets() {
    let mut ds = dataset();
    // a listed glyph stored with an offset whose distance to the overlap's leaves `i8`
    ds.add_class("A".to_string(), vec![rays(&A, -100)], &score);
    assert!(!ds.can_scan(&rays(&AB, 100)));
    let recog = GlyphRecognizer { dataset: &ds };
    assert!(recog.checked_overlap_paths(&rays(&AB, 100), &score).is_none());
    assert!(checked_resolve_overlap(rays(&AB, 100), &ds, &score).is_none());
}

#[test]
fn can_scan_refuses_short_profiles() {
    let ds = dataset();
    let mut overlap = rays(&AB, 0);
    overlap.t2b.truncate(1);
    assert!(!ds.can_scan(&overlap));
}

#[test]
fn sub_glyph_fits_tracks_the_offset_range() {
    let g = rays(&["...", ".#.", "..."], 126);
    assert!(g.sub_glyph_fits(0, 3));
    let g = rays(&["...", ".#.", "..."], 127);
    // the cropped part starts one row lower: 127 + 1 leaves `i8`
    assert!(!g.sub_glyph_fits(0, 3));
    // no pixel in the first column: nothing is cropped
    assert!(g.sub_glyph_fits(0, 1));
    assert!(g.sub_glyph_fits(1, 0));
}

#[test]
fn comparable_needs_column_profiles() {
    let a = rays(&A, 0);
    assert!(comparable(&a, &a));
    assert!(!comparable(&a, &GlyphRays::empty()));
    assert!(!comparable(&GlyphRays::empty(), &GlyphRays::empty()));
}

#[test]
fn checked_overlap_paths_agree_with_get_overlap_paths() {
    let ds = dataset();
    let recog = GlyphRecognizer { dataset: &ds };
    let overlap = rays(&AB, 0);
    let checked = recog.checked_overlap_paths(&overlap, &score).unwrap();
    assert_eq!(checked.len(), 1);
    assert_eq!(flatten_paths(checked), flatten_paths(recog.get_overlap_paths(&overlap, &score)));
}

#[test]
fn flat_trees_pick_the_cheapest_child() {
    let mut root = Tree::new(RecogKind::Penalty(5));
    root.push_back(Tree::new(RecogKind::Penalty(7)));
    root.push_back(Tree::new(RecogKind::Penalty(3)));
    root.push_back(Tree::new(RecogKind::Penalty(3)));
    root.push_back(Tree::new(RecogKind::Penalty(9)));
    assert_eq!(get_flat_trees(root.root()), (String::new(), 8));
    assert_eq!(checked_flat_trees(root.root()), Some((String::new(), 8)));
}

#[test]
fn flat_trees_take_the_later_child_on_ties() {
    let ds = dataset();
    let a = &ds.get(&2, &3).unwrap()[0];
    let b = &ds.get(&1, &3).unwrap()[0];
    let mut root = Tree::new(RecogKind::Penalty(0));
    root.push_back(Tree::new(RecogKind::Match(a, 4)));
    root.push_back(Tree::new(RecogKind::Match(b, 4)));
    assert_eq!(get_flat_trees(root.root()), ("B".to_string(), 4));
}

#[test]
fn flat_trees_refuse_totals_past_u32() {
    let mut root = Tree::new(RecogKind::Penalty(1));
    root.push_back(Tree::new(RecogKind::Penalty(u32::MAX)));
    assert_eq!(checked_flat_trees(root.root()), None);
    let mut paths = Vec::new();
    let mut deep = Tree::new(RecogKind::Penalty(u32::MAX - 1));
    deep.push_back(Tree::new(RecogKind::Penalty(2)));
    paths.push(deep);
    assert_eq!(checked_flatten_paths(paths), None);
}

#[test]
fn best_fits_checks_offsets_and_profiles() {
    let ds = dataset();
    let glyphs = ds.get(&2, &3).unwrap();
    assert!(best_fits(&rays(&A, 0), glyphs));
    // offsets 128 rows apart do not fit in `i8`
    let mut far = GlyphDataset::new();
    far.add_class("A".to_string(), vec![rays(&A, -128)], &score);
    assert!(!best_fits(&rays(&A, 127), far.get(&2, &3).unwrap()));
}

#[test]
fn checked_parse_glyph_reads_stored_sizes_only() {
    let ds = dataset();
    let recog = GlyphRecognizer { dataset: &ds };
    assert_eq!(recog.checked_parse_glyph(&rays(&A, 1), &score), Some("A".to_string()));
    // no glyph of this size is stored, so the reading is not defined
    assert_eq!(recog.checked_parse_glyph(&rays(&["##", "##"], 0), &score), None);
}

#[test]
fn checked_parse_glyph_reads_overlaps() {
    let mut ds = dataset();
    ds.add_class("E".to_string(), vec![rays(&AB, 20)], &score);
    let recog = GlyphRecognizer { dataset: &ds };
    assert_eq!(recog.checked_parse_glyph(&rays(&AB, 0), &score), Some("AB".to_string()));
    assert_eq!(recog.parse_glyph(&rays(&AB, 0), &score), "AB");
}

#[test]
fn best_match_has_the_smallest_score() {
    let mut ds = GlyphDataset::new();
    ds.add_class("far".to_string(), vec![rays(&A, 3)], &plain_score);
    ds.add_class("D".to_string(), vec![rays(&["##", "#.", "##"], 0)], &plain_score);
    ds.add_class("A".to_string(), vec![rays(&A, 0)], &plain_score);
    ds.add_class("A2".to_string(), vec![rays(&A, 1)], &plain_score);
    let recog = GlyphRecognizer { dataset: &ds };
    let ray = rays(&A, 0);
    let best = recog.best_match(&ray, &plain_score).unwrap();
    // "far" is three rows off and never considered; "A" and "A2" both score 0, the first wins
    assert_eq!(best.value, "A");
    for g in ds.get(&2, &3).unwrap() {
        let d = (ray.pixels_from_top as i16 - g.ray.pixels_from_top as i16).abs();
        if d <= 2 {
            let s = plain_score(glyph_ocr::glyph_recognizer::ray_delta_sums(&ray, &g.ray));
            assert!(plain_score(glyph_ocr::glyph_recognizer::ray_delta_sums(&ray, &best.ray)) <= s);
        }
    }
}

#[test]
fn best_match_finds_nothing_without_close_glyphs() {
    let mut ds = GlyphDataset::new();
    ds.add_class("far".to_string(), vec![rays(&A, 3)], &plain_score);
    let recog = GlyphRecognizer { dataset: &ds };
    assert!(recog.best_match(&rays(&A, 0), &plain_score).is_none());
}

#[test]
fn resolved_glyphs_fit_in_the_overlap() {
    let ds = dataset();
    let overlap = rays(&AB, 0);
    let width = overlap.width;
    let steps = checked_resolve_overlap(overlap, &ds, &score).unwrap();
    let total: u16 = steps.iter().map(|s| s.0.ray.width).sum();
    assert!(total <= width);
    assert_eq!(total, 3);
    let again = resolve_overlap(rays(&AB, 0), &ds, &score);
    assert_eq!(again.len(), steps.len());
}

#[test]
fn resolve_overlap_stops_below_the_smallest_width() {
    let ds = dataset();
    // narrower than every stored glyph: nothing is read
    let mut narrow = GlyphDataset::new();
    narrow.add_class("A".to_string(), vec![rays(&A, 0)], &score);
    assert!(checked_resolve_overlap(rays(&B, 0), &narrow, &score).unwrap().is_empty());
    // an overlap that no listed glyph starts
    assert!(checked_resolve_overlap(rays(&["##", "##"], 0), &ds, &score).unwrap().is_empty());
}

#[test]
fn class_fits_checks_each_sample() {
    assert!(class_fits(&vec![rays(&A, 0), rays(&B, 0)]));
    assert!(class_fits(&Vec::new()));
    assert!(!class_fits(&vec![rays(&A, 0), GlyphRays::empty()]));
    let mut short = rays(&A, 0);
    short.l2r.pop();
    assert!(!class_fits(&vec![short]));
}

#[test]
fn lengths_fit_and_overlay_fits() {
    let a = rays(&A, 0);
    assert!(a.lengths_fit());
    assert!(a.overlay_fits());
    let mut bad = rays(&A, 0);
    bad.raw[1].pop();
    assert!(!bad.lengths_fit());
    let mut off = rays(&A, 0);
    off.m2l[0] = 5;
    assert!(!off.overlay_fits());
    assert!(GlyphRays::empty().overlay_fits());
}

#[test]
fn overlay_measures_centre_rays_only_where_needed() {
    // one column: the left centre ray is never measured, so a too long one does no harm
    let mut g = rays(&["#", "#"], 0);
    g.m2l[0] = 5;
    assert!(g.overlay_fits());
    assert_eq!(g.overlay(), vec![vec![true], vec![true]]);
}

#[test]
fn decimal_texts() {
    assert_eq!(u32_text(0), "0");
    assert_eq!(u32_text(7), "7");
    assert_eq!(u32_text(10), "10");
    assert_eq!(u32_text(5000), "5000");
    assert_eq!(u32_text(u32::MAX), "4294967295");
}

#[test]
fn trees_are_written_with_scores() {
    let ds = dataset();
    let a = &ds.get(&2, &3).unwrap()[0];
    let mut inner = Tree::new(RecogKind::Match(a, 12));
    inner.push_back(Tree::new(RecogKind::Penalty(3)));
    let mut root = Tree::new(RecogKind::Penalty(0));
    root.push_back(inner);
    root.push_back(Tree::new(RecogKind::Penalty(5000)));
    assert_eq!(print_tree(root.root()), "0( A_12( 3 ) 5000 )");
    assert_eq!(print_tree(Tree::new(RecogKind::Penalty(7)).root()), "7");
}

#[test]
fn sub_glyph_fits_checks_columns_and_bitmap() {
    let g = rays(&["#.", "##"], 0);
    assert!(g.sub_glyph_fits(0, 2));
    assert!(g.sub_glyph_fits(1, 1));
    assert!(!g.sub_glyph_fits(1, 2));
    assert!(g.sub_glyph_fits(5, 0));
    let mut broken = rays(&["#.", "##"], 0);
    broken.raw[1].pop();
    assert!(!broken.sub_glyph_fits(0, 2));
    // the first column alone is still whole
    assert!(broken.sub_glyph_fits(0, 1));
    let part = broken.get_sub_glyph(0, 1).unwrap();
    assert_eq!((part.width, part.height), (1, 2));
}

#[test]
fn average_fits_has_no_sample_cap() {
    let many: Vec<GlyphRays> = (0..70000).map(|_| rays(&["#"], 0)).collect();
    assert!(glyph_ocr::glyph_rays::average_fits(&many));
    assert!(!glyph_ocr::glyph_rays::average_fits(&Vec::new()));
    // the second sample is wider than the first one's totals
    assert!(!glyph_ocr::glyph_rays::average_fits(&vec![rays(&B, 0), rays(&A, 0)]));
    assert!(glyph_ocr::glyph_rays::average_fits(&vec![rays(&A, 0), rays(&B, 0)]));
}

#[test]
fn stored_glyphs_have_profiles_of_their_size() {
    let mut ds = dataset();
    ds.add_class("C".to_string(), vec![rays(&["#..", ".#.", "..#", "###"], 2), rays(&AB, 0)], &score);
    for (w, h, g) in ds.entries() {
        assert_eq!((g.ray.width, g.ray.height), (w, h));
        for v in [&g.ray.l2r, &g.ray.r2l, &g.ray.m2l, &g.ray.m2r] {
            assert_eq!(v.len(), h as usize);
        }
        for v in [&g.ray.t2b, &g.ray.b2t, &g.ray.m2t, &g.ray.m2b] {
            assert_eq!(v.len(), w as usize);
        }
    }
}

#[test]
fn average_ignores_sample_order() {
    let a = || rays(&["#.#", "##.", ".##"], 1);
    let b = || rays(&["##.", "#..", "###"], -2);
    let c = || rays(&[".#.", "###", "#.#"], 0);
    let x = GlyphRays::average(&vec![a(), b(), c()]);
    let y = GlyphRays::average(&vec![c(), a(), b()]);
    assert_eq!((x.width, x.height, x.pixels_from_top), (y.width, y.height, y.pixels_from_top));
    assert_eq!((x.l2r, x.r2l, x.m2l, x.m2r), (y.l2r, y.r2l, y.m2l, y.m2r));
    assert_eq!((x.t2b, x.b2t, x.m2t, x.m2b), (y.t2b, y.b2t, y.m2t, y.m2b));
    assert_eq!(x.raw, y.raw);
}

#[test]
fn path_children_are_the_paths_of_the_rest() {
    let ds = dataset();
    let recog = GlyphRecognizer { dataset: &ds };
    let overlap = rays(&AB, 0);
    let paths = recog.get_overlap_paths(&overlap, &score);
    let root = paths[0].root();
    let g = match root.data() {
        RecogKind::Match(g, _) => *g,
        RecogKind::Penalty(_) => panic!("expected a match"),
    };
    let rest = overlap.get_sub_glyph(g.ray.width, overlap.width - g.ray.width).unwrap();
    let rest_paths = recog.get_overlap_paths(&rest, &score);
    let children: Vec<String> = root.iter().map(|c| print_tree(c)).collect();
    let expected: Vec<String> = rest_paths.iter().map(|t| print_tree(t.root())).collect();
    assert_eq!(children, expected);
    assert_eq!(children, vec!["B_0".to_string()]);
}

#[test]
fn cropping_a_crop_gives_it_back() {
    let g = rays(&["....", ".#..", "..#.", "...."], 4);
    let crop = g.get_sub_glyph(0, 4).unwrap();
    assert_eq!((crop.width, crop.height, crop.pixels_from_top), (3, 2, 5));
    let again = crop.get_sub_glyph(0, crop.width).unwrap();
    assert_eq!((again.width, again.height, again.pixels_from_top), (crop.width, crop.height, crop.pixels_from_top));
    assert_eq!((&again.l2r, &again.r2l, &again.m2l, &again.m2r), (&crop.l2r, &crop.r2l, &crop.m2l, &crop.m2r));
    assert_eq!((&again.t2b, &again.b2t, &again.m2t, &again.m2b), (&crop.t2b, &crop.b2t, &crop.m2t, &crop.m2b));
    for x in 0..crop.width as usize {
        for y in 0..crop.height as usize {
            assert_eq!(again.raw[x][y], crop.raw[x][y]);
        }
    }
}
