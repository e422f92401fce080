use glyph_ocr::glyph_dataset::GlyphDataset;
use glyph_ocr::glyph_rays::{glyph_with_raw, GlyphRays};
use glyph_ocr::glyph_recognizer::{flatten_paths, ray_delta_sums, resolve_overlap, GlyphRecognizer, RayDeltaSums, RecogKind};
use glyph_ocr::sample_names::{overlap_name_values, parse_code_point};

fn columns(rows: &[&str]) -> Vec<Vec<bool>> {
    let h = rows.len();
    let w = if h == 0 { 0 } else { rows[0].len() };
    let mut cols = vec![vec![false; h]; w];
    for (y, row) in rows.iter().enumerate() {
        for (x, c) in row.chars().enumerate() {
            cols[x][y] = c == '#';
        }
    }
    cols
}

fn rays(rows: &[&str], top: i8) -> GlyphRays {
    let cols = columns(rows);
    glyph_with_raw(cols.len() as u16, rows.len() as u8, top, cols)
}

/// The difference score: the mean profile difference per unit of area, in ten-thousandths.
fn score(s: RayDeltaSums) -> u32 {
    let horiz = s.horizontal as f64 / s.max_height as f64 / s.max_width as f64;
    let vert = s.vertical as f64 / s.max_width as f64 / s.max_height as f64;
    ((vert + horiz) * 10000.0) as u32
}

const A: [&str; 3] = ["#.", "##", ".#"];
const B: [&str; 3] = ["#", "#", "#"];
const AB: [&str; 3] = ["#.#", "###", ".##"];

fn dataset() -> GlyphDataset {
    let mut ds = GlyphDataset::new();
    ds.add_possible_overlap("A".to_string());
    ds.add_possible_overlap("B".to_string());
    ds.add_possible_overlap("A".to_string());
    ds.add_class("A".to_string(), vec![rays(&A, 0), rays(&A, 0)], &score);
    ds.add_class("B".to_string(), vec![rays(&B, 0), rays(&B, 0), rays(&B, 1)], &score);
    ds
}

#[test]
fn new_dataset_is_empty() {
    let ds = GlyphDataset::new();
    assert!(ds.get(&1, &1).is_none());
    assert_eq!(ds.min_width, u16::MAX);
    assert!(!ds.is_possible_overlap(&"A".to_string()));
}

#[test]
fn add_class_averages_per_size() {
    let ds = dataset();
    let a = ds.get(&2, &3).unwrap();
    assert_eq!(a.len(), 1);
    assert_eq!(a[0].value, "A");
    assert_eq!(a[0].max_error, 0);
    assert_eq!(a[0].ray.l2r, vec![0, 0, 1]);
    let b = ds.get(&1, &3).unwrap();
    assert_eq!(b.len(), 1);
    assert_eq!(b[0].value, "B");
    // offsets 0, 0, 1 average to 0
    assert_eq!(b[0].ray.pixels_from_top, 0);
    assert_eq!(ds.min_width, 1);
    assert_eq!(ds.smallest_width(), 1);
    assert!(ds.get(&3, &3).is_none());
}

#[test]
fn add_class_keeps_sizes_apart() {
    let mut ds = GlyphDataset::new();
    ds.add_class("A".to_string(), vec![rays(&A, 0), rays(&["##", "##"], 0), rays(&A, 0)], &score);
    assert_eq!(ds.get(&2, &3).unwrap().len(), 1);
    assert_eq!(ds.get(&2, &2).unwrap().len(), 1);
    ds.add_class("C".to_string(), vec![rays(&A, 1)], &score);
    let list = ds.get(&2, &3).unwrap();
    assert_eq!(list.len(), 2);
    assert_eq!(list[0].value, "A");
    assert_eq!(list[1].value, "C");
}

#[test]
fn possible_overlaps_are_listed_once() {
    let ds = dataset();
    assert!(ds.is_possible_overlap(&"A".to_string()));
    assert!(ds.is_possible_overlap(&"B".to_string()));
    assert!(!ds.is_possible_overlap(&"C".to_string()));
}

#[test]
fn fuzzy_get_finds_leading_glyph() {
    let ds = dataset();
    let overlap = rays(&AB, 0);
    let found = ds.fuzzy_get(&overlap).unwrap();
    assert_eq!(found.len(), 1);
    assert_eq!(found[0].value, "A");
    // every candidate fits between the smallest width and the overlap's width
    assert!(found.iter().all(|g| g.ray.width >= ds.min_width && g.ray.width <= overlap.width));
}

#[test]
fn fuzzy_get_skips_glyphs_far_from_the_top() {
    let ds = dataset();
    let overlap = rays(&AB, 5);
    assert!(ds.fuzzy_get(&overlap).is_none());
}

#[test]
fn fuzzy_get_skips_texts_not_listed_for_overlaps() {
    let mut ds = GlyphDataset::new();
    ds.add_class("A".to_string(), vec![rays(&A, 0)], &score);
    assert!(ds.fuzzy_get(&rays(&AB, 0)).is_none());
}

#[test]
fn overlap_paths_read_two_glyphs() {
    let ds = dataset();
    let recog = GlyphRecognizer { dataset: &ds };
    let overlap = rays(&AB, 0);
    let paths = recog.get_overlap_paths(&overlap, &score);
    assert_eq!(paths.len(), 1);
    match paths[0].data() {
        RecogKind::Match(g, s) => {
            assert_eq!(g.value, "A");
            assert_eq!(*s, 0);
        }
        RecogKind::Penalty(_) => panic!("expected a match"),
    }
    assert_eq!(paths[0].degree(), 1);
    let (text, total) = flatten_paths(paths);
    assert_eq!(text, "AB");
    assert_eq!(total, 0);
}

#[test]
fn overlap_paths_penalise_unknown_columns() {
    let ds = dataset();
    let recog = GlyphRecognizer { dataset: &ds };
    let overlap = rays(&["##", "##"], 0);
    let paths = recog.get_overlap_paths(&overlap, &score);
    assert_eq!(paths.len(), 1);
    match paths[0].data() {
        RecogKind::Penalty(p) => assert_eq!(*p, 10000),
        RecogKind::Match(..) => panic!("expected a penalty"),
    }
    assert_eq!(flatten_paths(paths), (String::new(), 10000));
}

#[test]
fn parse_glyph_picks_the_closest_glyph() {
    let mut ds = dataset();
    ds.add_class("D".to_string(), vec![rays(&["##", "#.", "##"], 0)], &score);
    let recog = GlyphRecognizer { dataset: &ds };
    assert_eq!(recog.parse_glyph(&rays(&A, 1), &score), "A");
    assert_eq!(recog.parse_glyph(&rays(&["##", "#.", "#."], 0), &score), "D");
}

#[test]
fn parse_glyph_reads_overlaps_when_no_glyph_is_close() {
    let mut ds = dataset();
    // a stored glyph of the overlap's size, but far from its top
    ds.add_class("E".to_string(), vec![rays(&AB, 20)], &score);
    let recog = GlyphRecognizer { dataset: &ds };
    assert_eq!(recog.parse_glyph(&rays(&AB, 0), &score), "AB");
}

#[test]
fn resolve_overlap_takes_best_glyphs_greedily() {
    let ds = dataset();
    let steps = resolve_overlap(rays(&AB, 0), &ds, &score);
    assert_eq!(steps.len(), 2);
    assert_eq!(steps[0].0.value, "A");
    assert_eq!(steps[1].0.value, "B");
    assert_eq!(steps[0].1, 0);
}

#[test]
fn delta_sums_are_symmetric_and_zero_on_self() {
    let a = rays(&A, 0);
    let b = rays(&["##", "#.", "##"], 0);
    assert_eq!(ray_delta_sums(&a, &b), ray_delta_sums(&b, &a));
    let same = ray_delta_sums(&a, &a);
    assert_eq!((same.horizontal, same.vertical), (0, 0));
    assert_eq!(same.max_width, 1);
    assert_eq!(same.max_height, 2);
}

#[test]
fn delta_sums_of_two_glyphs() {
    let a = rays(&["#."], 0);
    let b = rays(&[".#"], 0);
    let s = ray_delta_sums(&a, &b);
    // one row: l2r 0 vs 1, r2l 1 vs 0, m2r 1 vs 0, m2l 1 vs 1 (max_width / 2 = 0 unused)
    assert_eq!(s.horizontal, 3);
    assert_eq!(s.max_width, 1);
    assert_eq!(s.max_height, 0);
}

#[test]
fn code_point_names() {
    assert_eq!(parse_code_point("65"), Some("A".to_string()));
    assert_eq!(parse_code_point("+66"), Some("B".to_string()));
    assert_eq!(parse_code_point(""), None);
    assert_eq!(parse_code_point("+"), None);
    assert_eq!(parse_code_point("6a"), None);
    assert_eq!(parse_code_point("-65"), None);
    assert_eq!(parse_code_point("55296"), None);
    assert_eq!(parse_code_point("4294967296"), None);
    assert_eq!(parse_code_point("233"), Some("é".to_string()));
}

#[test]
fn overlap_file_names() {
    assert_eq!(overlap_name_values("65_66.dat"), Some(vec!["A".to_string(), "B".to_string()]));
    assert_eq!(overlap_name_values("67.dat"), Some(vec!["C".to_string()]));
    assert_eq!(overlap_name_values("65.dat_66"), Some(vec!["A".to_string(), "B".to_string()]));
    assert_eq!(overlap_name_values("65__66.dat"), None);
    assert_eq!(overlap_name_values(".dat"), None);
}
