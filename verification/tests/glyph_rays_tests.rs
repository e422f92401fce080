use glyph_ocr::glyph_rays::GlyphRays;

/// Columns of a bitmap from rows of '#' and '.'.
fn columns(rows: &[&str]) -> Vec<Vec<bool>> {
    let h = rows.len();
    let w = if h == 0 { 0 } else { rows[0].len() };
    let mut cols = vec![vec![false; h]; w];
    for (y, row) in rows.iter().enumerate() {
        for (x, c) in row.chars().enumerate() {
            cols[x][y] = c == '#';
        }
    }
    cols
}

fn rays(rows: &[&str], top: i8) -> GlyphRays {
    let cols = columns(rows);
    let w = cols.len() as u16;
    let h = rows.len() as u8;
    glyph_ocr::glyph_rays::glyph_with_raw(w, h, top, cols)
}

#[test]
fn empty_glyph_has_nothing() {
    let e = GlyphRays::empty();
    assert_eq!(e.width, 0);
    assert_eq!(e.height, 0);
    assert_eq!(e.pixels_from_top, 0);
    assert!(e.l2r.is_empty() && e.t2b.is_empty() && e.raw.is_empty());
}

#[test]
fn rays_of_a_small_glyph() {
    // . # . .
    // # # # .
    // . . . .
    let r = rays(&[".#..", "###.", "...."], 3);
    assert_eq!(r.width, 4);
    assert_eq!(r.height, 3);
    assert_eq!(r.pixels_from_top, 3);
    assert_eq!(r.l2r, vec![1, 0, 4]);
    assert_eq!(r.r2l, vec![2, 1, 4]);
    assert_eq!(r.t2b, vec![1, 0, 1, 3]);
    assert_eq!(r.b2t, vec![1, 1, 1, 3]);
    // centre column is 2: nearest pixel left of it is column 1, at or right of it column 2
    assert_eq!(r.m2l, vec![1, 1, 2]);
    assert_eq!(r.m2r, vec![2, 0, 2]);
    // centre row is 1: above it row 0, at or below it row 1
    assert_eq!(r.m2t, vec![1, 1, 1, 1]);
    assert_eq!(r.m2b, vec![0, 0, 0, 1]);
}

#[test]
fn from_packed_unpacks_rows_msb_first() {
    // 3 x 2 bitmap: row 0 = 1 0 1, row 1 = 0 1 1 -> bits 101011 00
    let g = GlyphRays::from_packed(3, 2, -1, &[0b1010_1100]);
    assert_eq!(g.raw, vec![vec![true, false], vec![false, true], vec![true, true]]);
    assert_eq!(g.l2r, vec![0, 1]);
    assert_eq!(g.t2b, vec![0, 1, 0]);
    assert_eq!(g.pixels_from_top, -1);
}

#[test]
fn parse_reads_header_and_pixels() {
    let g = GlyphRays::parse(&[3, 0, 2, 0xFE, 0b1010_1100]);
    assert_eq!(g.width, 3);
    assert_eq!(g.height, 2);
    assert_eq!(g.pixels_from_top, -2);
    assert_eq!(g.raw, vec![vec![true, false], vec![false, true], vec![true, true]]);
}

#[test]
fn parse_short_header_repeats_height_as_offset() {
    let g = GlyphRays::parse(&[0, 0, 7]);
    assert_eq!(g.width, 0);
    assert_eq!(g.height, 7);
    assert_eq!(g.pixels_from_top, 7);
    let g = GlyphRays::parse(&[]);
    assert_eq!((g.width, g.height, g.pixels_from_top), (0, 0, 0));
}

#[test]
fn checked_parse_refuses_too_many_pixel_bytes() {
    // 3 x 2 = 6 pixels fit in one byte; a second byte is refused
    assert!(GlyphRays::checked_parse(&[3, 0, 2, 0, 0xFF, 0xFF]).is_none());
    assert!(GlyphRays::checked_parse(&[3, 0, 2, 0, 0xFF]).is_some());
    // 512 x 255 pixels overflow the pixel count
    assert!(GlyphRays::checked_parse(&[0, 2, 255, 0]).is_none());
}

#[test]
fn sub_glyph_trims_and_crops() {
    // . . . . .
    // . . # . #
    // . . # . .
    // . . . . .
    let g = rays(&[".....", "..#.#", "..#..", "....."], 1);
    let s = g.get_sub_glyph(0, 4).unwrap();
    // empty columns 0 and 1 are dropped, rows 1..=2 kept
    assert_eq!(s.width, 2);
    assert_eq!(s.height, 2);
    assert_eq!(s.pixels_from_top, 2);
    // the bitmap keeps the requested four columns, the last two empty
    assert_eq!(s.raw, vec![vec![true, true], vec![false, false], vec![false, false], vec![false, false]]);
    assert_eq!(s.t2b, vec![0, 2]);
    assert_eq!(s.b2t, vec![0, 2]);
}

#[test]
fn sub_glyph_of_empty_columns_is_none() {
    let g = rays(&["#...", "#..."], 0);
    assert!(g.get_sub_glyph(1, 3).is_none());
    assert!(g.get_sub_glyph(2, 0).is_none());
}

#[test]
fn average_of_two_samples() {
    let a = rays(&["#.", "##"], 1);
    let b = rays(&["##", ".#"], 2);
    let avg = GlyphRays::average(&vec![a, b]);
    assert_eq!(avg.width, 2);
    assert_eq!(avg.height, 2);
    // offsets 1 and 2: mean 1.5 truncated
    assert_eq!(avg.pixels_from_top, 1);
    // l2r: a = [0, 0], b = [0, 1] -> [0, 0]
    assert_eq!(avg.l2r, vec![0, 0]);
    // every pixel set by at least one of two samples is kept (threshold 2 / 2 = 1)
    assert_eq!(avg.raw, vec![vec![true, true], vec![true, true]]);
}

#[test]
fn average_truncates_negative_offsets_towards_zero() {
    let a = rays(&["#"], -1);
    let b = rays(&["#"], -2);
    let avg = GlyphRays::average(&vec![a, b]);
    assert_eq!(avg.pixels_from_top, -1);
}

#[test]
fn packed_bits_lists_every_bit() {
    assert_eq!(GlyphRays::packed_bits(&[0b1000_0001]), vec![true, false, false, false, false, false, false, true]);
}

#[test]
fn overlay_marks_ray_ends() {
    let g = rays(&["#.", ".#"], 0);
    let o = g.overlay();
    assert_eq!(o.len(), 2);
    assert_eq!(o[0].len(), 2);
}

#[test]
fn average_of_copies_gives_the_glyph_back() {
    let g = rays(&[".#.", "##.", "..#"], -3);
    let avg = GlyphRays::average(&vec![rays(&[".#.", "##.", "..#"], -3), rays(&[".#.", "##.", "..#"], -3), rays(&[".#.", "##.", "..#"], -3)]);
    assert_eq!((avg.width, avg.height, avg.pixels_from_top), (g.width, g.height, g.pixels_from_top));
    assert_eq!(avg.l2r, g.l2r);
    assert_eq!(avg.r2l, g.r2l);
    assert_eq!(avg.t2b, g.t2b);
    assert_eq!(avg.b2t, g.b2t);
    assert_eq!(avg.m2l, g.m2l);
    assert_eq!(avg.m2r, g.m2r);
    assert_eq!(avg.m2t, g.m2t);
    assert_eq!(avg.m2b, g.m2b);
    assert_eq!(avg.raw, g.raw);
}

#[test]
fn average_of_one_sample_sets_every_pixel() {
    let avg = GlyphRays::average(&vec![rays(&["#.", ".."], 0)]);
    assert_eq!(avg.raw, vec![vec![true, true], vec![true, true]]);
    assert_eq!(avg.l2r, vec![0, 2]);
}

#[test]
fn overlay_of_a_small_glyph() {
    // rays of "#." / ".#": l2r [0,1], r2l [1,0], t2b [0,1], b2t [1,0],
    // m2l [1,1], m2r [1,0], m2t [1,1], m2b [1,0]; only the left ray of the first row and
    // the right ray of the second row end on a pixel that is drawn
    let g = rays(&["#.", ".#"], 0);
    assert_eq!(g.m2b, vec![1, 0]);
    assert_eq!(g.overlay(), vec![vec![true, false], vec![false, true]]);
}
