use vstd::prelude::*;

verus! {

/// The ray profiles of a glyph bitmap, together with the bitmap itself.
///
/// `raw[x][y]` is the pixel in column `x` and row `y`.
pub struct GlyphRays {
    pub width: u16,
    pub height: u8,
    pub pixels_from_top: i8,
    pub l2r: Vec<u16>,
    pub t2b: Vec<u8>,
    pub r2l: Vec<u16>,
    pub b2t: Vec<u8>,
    pub m2l: Vec<u16>,
    pub m2t: Vec<u8>,
    pub m2r: Vec<u16>,
    pub m2b: Vec<u8>,
    pub raw: Vec<Vec<bool>>,
}

/// The mathematical value of a [`GlyphRays`].
#[verifier::ext_equal]
pub struct RaysView {
    pub width: u16,
    pub height: u8,
    pub pixels_from_top: i8,
    pub l2r: Seq<u16>,
    pub t2b: Seq<u8>,
    pub r2l: Seq<u16>,
    pub b2t: Seq<u8>,
    pub m2l: Seq<u16>,
    pub m2t: Seq<u8>,
    pub m2r: Seq<u16>,
    pub m2b: Seq<u8>,
    pub raw: Seq<Seq<bool>>,
}

/// The pixel grid held by a vector of columns.
pub open spec fn grid(raw: Seq<Vec<bool>>) -> Seq<Seq<bool>> {
    Seq::new(raw.len(), |x: int| raw[x]@)
}

impl View for GlyphRays {
    type V = RaysView;

    open spec fn view(&self) -> RaysView {
        RaysView {
            width: self.width,
            height: self.height,
            pixels_from_top: self.pixels_from_top,
            l2r: self.l2r@,
            t2b: self.t2b@,
            r2l: self.r2l@,
            b2t: self.b2t@,
            m2l: self.m2l@,
            m2t: self.m2t@,
            m2r: self.m2r@,
            m2b: self.m2b@,
            raw: grid(self.raw@),
        }
    }
}

pub proof fn lemma_grid_push(v: Seq<Vec<bool>>, c: Vec<bool>)
    ensures
        grid(v.push(c)) == grid(v).push(c@),
{
    assert(grid(v.push(c)) =~= grid(v).push(c@));
}

/// The first index in `[lo, hi)` whose pixel is set, or `hi` if there is none.
pub open spec fn first_set(line: Seq<bool>, lo: int, hi: int) -> int
    decreases hi - lo,
{
    if hi <= lo {
        hi
    } else {
        let f = first_set(line, lo, hi - 1);
        if f < hi - 1 {
            f
        } else if line[hi - 1] {
            hi - 1
        } else {
            hi
        }
    }
}

/// One past the last index in `[lo, hi)` whose pixel is set, or `lo` if there is none.
pub open spec fn last_end(line: Seq<bool>, lo: int, hi: int) -> int
    decreases hi - lo,
{
    if hi <= lo {
        lo
    } else if line[hi - 1] {
        hi
    } else {
        last_end(line, lo, hi - 1)
    }
}

/// Row `y` of the grid `g`, over its first `w` columns.
pub open spec fn row_of(g: Seq<Seq<bool>>, y: int, w: int) -> Seq<bool> {
    Seq::new(w as nat, |x: int| g[x][y])
}

/// The grid has at least `w` columns of at least `h` pixels each.
pub open spec fn shape_ok(g: Seq<Seq<bool>>, w: int, h: int) -> bool {
    &&& w <= g.len()
    &&& forall|x: int| 0 <= x < w ==> h <= #[trigger] g[x].len()
}

/// Distance from the left edge to the first set pixel of row `y`, or `w` for an empty row.
pub open spec fn ray_l2r(g: Seq<Seq<bool>>, w: int, y: int) -> int {
    first_set(row_of(g, y, w), 0, w)
}

/// Distance from the right edge to the last set pixel of row `y`, or `w` for an empty row.
pub open spec fn ray_r2l(g: Seq<Seq<bool>>, w: int, y: int) -> int {
    w - last_end(row_of(g, y, w), 0, w)
}

/// Distance from the centre column `w / 2` leftwards to the nearest set pixel left of it,
/// or `w / 2` if there is none.
pub open spec fn ray_m2l(g: Seq<Seq<bool>>, w: int, y: int) -> int {
    let e = last_end(row_of(g, y, w), 0, w / 2);
    if e == 0 {
        w / 2
    } else {
        w / 2 - (e - 1)
    }
}

/// Distance from the centre column `w / 2` rightwards to the nearest set pixel at or right
/// of it, or `w / 2` if there is none.
pub open spec fn ray_m2r(g: Seq<Seq<bool>>, w: int, y: int) -> int {
    let f = first_set(row_of(g, y, w), w / 2, w);
    if f == w {
        w / 2
    } else {
        f - w / 2
    }
}

/// Distance from the top edge to the first set pixel of column `x`, or `h` for an empty column.
pub open spec fn ray_t2b(g: Seq<Seq<bool>>, h: int, x: int) -> int {
    first_set(g[x], 0, h)
}

/// Distance from the bottom edge to the last set pixel of column `x`, or `h` for an empty column.
pub open spec fn ray_b2t(g: Seq<Seq<bool>>, h: int, x: int) -> int {
    h - last_end(g[x], 0, h)
}

/// Distance from the centre row `h / 2` upwards to the nearest set pixel above it,
/// or `h / 2` if there is none.
pub open spec fn ray_m2t(g: Seq<Seq<bool>>, h: int, x: int) -> int {
    let e = last_end(g[x], 0, h / 2);
    if e == 0 {
        h / 2
    } else {
        h / 2 - (e - 1)
    }
}

/// Distance from the centre row `h / 2` downwards to the nearest set pixel at or below it,
/// or `h / 2` if there is none.
pub open spec fn ray_m2b(g: Seq<Seq<bool>>, h: int, x: int) -> int {
    let f = first_set(g[x], h / 2, h);
    if f == h {
        h / 2
    } else {
        f - h / 2
    }
}

/// The ray profiles of a `w` by `h` grid.
pub open spec fn rays_of(w: u16, h: u8, pixels_from_top: i8, g: Seq<Seq<bool>>) -> RaysView {
    RaysView {
        width: w,
        height: h,
        pixels_from_top,
        l2r: Seq::new(h as nat, |y: int| ray_l2r(g, w as int, y) as u16),
        t2b: Seq::new(w as nat, |x: int| ray_t2b(g, h as int, x) as u8),
        r2l: Seq::new(h as nat, |y: int| ray_r2l(g, w as int, y) as u16),
        b2t: Seq::new(w as nat, |x: int| ray_b2t(g, h as int, x) as u8),
        m2l: Seq::new(h as nat, |y: int| ray_m2l(g, w as int, y) as u16),
        m2t: Seq::new(w as nat, |x: int| ray_m2t(g, h as int, x) as u8),
        m2r: Seq::new(h as nat, |y: int| ray_m2r(g, w as int, y) as u16),
        m2b: Seq::new(w as nat, |x: int| ray_m2b(g, h as int, x) as u8),
        raw: g,
    }
}

impl RaysView {
    /// The profiles are those of the bitmap, which is large enough for the stated size.
    pub open spec fn consistent(self) -> bool {
        &&& shape_ok(self.raw, self.width as int, self.height as int)
        &&& self == rays_of(self.width, self.height, self.pixels_from_top, self.raw)
    }
}

pub proof fn lemma_first_set_bounds(line: Seq<bool>, lo: int, hi: int)
    requires
        lo <= hi,
    ensures
        lo <= first_set(line, lo, hi) <= hi,
        first_set(line, lo, hi) < hi ==> line[first_set(line, lo, hi)],
        forall|i: int| lo <= i < first_set(line, lo, hi) ==> !line[i],
    decreases hi - lo,
{
    if lo < hi {
        lemma_first_set_bounds(line, lo, hi - 1);
    }
}

pub proof fn lemma_last_end_bounds(line: Seq<bool>, lo: int, hi: int)
    requires
        lo <= hi,
    ensures
        lo <= last_end(line, lo, hi) <= hi,
        last_end(line, lo, hi) > lo ==> line[last_end(line, lo, hi) - 1],
        forall|i: int| last_end(line, lo, hi) <= i < hi ==> !line[i],
    decreases hi - lo,
{
    if lo < hi {
        lemma_last_end_bounds(line, lo, hi - 1);
    }
}

/// The first set position of `line` in `[lo, hi)`.
fn scan_first(line: &Vec<bool>, lo: usize, hi: usize) -> (r: usize)
    requires
        lo <= hi <= line.len(),
    ensures
        r == first_set(line@, lo as int, hi as int),
{
    let mut r = lo;
    let mut i = lo;
    while i < hi
        invariant
            lo <= i <= hi <= line.len(),
            r == first_set(line@, lo as int, i as int),
            lo <= r <= i,
        decreases hi - i,
    {
        proof {
            lemma_first_set_bounds(line@, lo as int, i as int);
        }
        if r == i {
            if line[i] {
                r = i;
            } else {
                r = i + 1;
            }
        }
        i = i + 1;
    }
    r
}

/// One past the last set position of `line` in `[lo, hi)`, or `lo`.
fn scan_last_end(line: &Vec<bool>, lo: usize, hi: usize) -> (r: usize)
    requires
        lo <= hi <= line.len(),
    ensures
        r == last_end(line@, lo as int, hi as int),
{
    let mut r = lo;
    let mut i = lo;
    while i < hi
        invariant
            lo <= i <= hi <= line.len(),
            r == last_end(line@, lo as int, i as int),
            lo <= r <= i,
        decreases hi - i,
    {
        if line[i] {
            r = i + 1;
        }
        i = i + 1;
    }
    r
}

/// Row `y` of the bitmap over its first `w` columns.
fn row_vec(raw: &Vec<Vec<bool>>, y: usize, w: usize) -> (r: Vec<bool>)
    requires
        shape_ok(grid(raw@), w as int, y + 1),
    ensures
        r@ == row_of(grid(raw@), y as int, w as int),
{
    let ghost g = grid(raw@);
    let mut r: Vec<bool> = Vec::new();
    let mut x: usize = 0;
    while x < w
        invariant
            x <= w,
            g == grid(raw@),
            shape_ok(g, w as int, y + 1),
            r@ == row_of(g, y as int, x as int),
        decreases w - x,
    {
        assert(g[x as int].len() >= y + 1);
        r.push(raw[x][y]);
        x = x + 1;
        assert(r@ =~= row_of(g, y as int, x as int));
    }
    r
}


/// Builds the ray profiles of a `width` by `height` bitmap given as columns.
pub fn glyph_with_raw(width: u16, height: u8, pixels_from_top: i8, input: Vec<Vec<bool>>) -> (r: GlyphRays)
    requires
        shape_ok(grid(input@), width as int, height as int),
    ensures
        r@ == rays_of(width, height, pixels_from_top, grid(input@)),
        r@.consistent(),
{
    let ghost g = grid(input@);
    let w = width as usize;
    let h = height as usize;
    let mut l2r: Vec<u16> = Vec::new();
    let mut r2l: Vec<u16> = Vec::new();
    let mut m2l: Vec<u16> = Vec::new();
    let mut m2r: Vec<u16> = Vec::new();
    let mut y: usize = 0;
    while y < h
        invariant
            y <= h,
            w == width,
            h == height,
            g == grid(input@),
            shape_ok(g, w as int, h as int),
            l2r@ =~= Seq::new(y as nat, |i: int| ray_l2r(g, w as int, i) as u16),
            r2l@ =~= Seq::new(y as nat, |i: int| ray_r2l(g, w as int, i) as u16),
            m2l@ =~= Seq::new(y as nat, |i: int| ray_m2l(g, w as int, i) as u16),
            m2r@ =~= Seq::new(y as nat, |i: int| ray_m2r(g, w as int, i) as u16),
        decreases h - y,
    {
        let row = row_vec(&input, y, w);
        let first = scan_first(&row, 0, w);
        let end = scan_last_end(&row, 0, w);
        let left_end = scan_last_end(&row, 0, w / 2);
        let right_first = scan_first(&row, w / 2, w);
        proof {
            lemma_first_set_bounds(row@, 0, w as int);
            lemma_last_end_bounds(row@, 0, w as int);
            lemma_last_end_bounds(row@, 0, w as int / 2);
            lemma_first_set_bounds(row@, w as int / 2, w as int);
        }
        l2r.push(first as u16);
        r2l.push((w - end) as u16);
        if left_end == 0 {
            m2l.push((w / 2) as u16);
        } else {
            m2l.push((w / 2 - (left_end - 1)) as u16);
        }
        if right_first == w {
            m2r.push((w / 2) as u16);
        } else {
            m2r.push((right_first - w / 2) as u16);
        }
        y = y + 1;
    }
    let mut t2b: Vec<u8> = Vec::new();
    let mut b2t: Vec<u8> = Vec::new();
    let mut m2t: Vec<u8> = Vec::new();
    let mut m2b: Vec<u8> = Vec::new();
    let mut x: usize = 0;
    while x < w
        invariant
            x <= w,
            w == width,
            h == height,
            g == grid(input@),
            shape_ok(g, w as int, h as int),
            t2b@ =~= Seq::new(x as nat, |i: int| ray_t2b(g, h as int, i) as u8),
            b2t@ =~= Seq::new(x as nat, |i: int| ray_b2t(g, h as int, i) as u8),
            m2t@ =~= Seq::new(x as nat, |i: int| ray_m2t(g, h as int, i) as u8),
            m2b@ =~= Seq::new(x as nat, |i: int| ray_m2b(g, h as int, i) as u8),
        decreases w - x,
    {
        let col = &input[x];
        assert(col@ == g[x as int]);
        let first = scan_first(col, 0, h);
        let end = scan_last_end(col, 0, h);
        let top_end = scan_last_end(col, 0, h / 2);
        let bottom_first = scan_first(col, h / 2, h);
        proof {
            lemma_first_set_bounds(col@, 0, h as int);
            lemma_last_end_bounds(col@, 0, h as int);
            lemma_last_end_bounds(col@, 0, h as int / 2);
            lemma_first_set_bounds(col@, h as int / 2, h as int);
        }
        t2b.push(first as u8);
        b2t.push((h - end) as u8);
        if top_end == 0 {
            m2t.push((h / 2) as u8);
        } else {
            m2t.push((h / 2 - (top_end - 1)) as u8);
        }
        if bottom_first == h {
            m2b.push((h / 2) as u8);
        } else {
            m2b.push((bottom_first - h / 2) as u8);
        }
        x = x + 1;
    }
    let r = GlyphRays {
        width,
        height,
        pixels_from_top,
        l2r,
        t2b,
        r2l,
        b2t,
        m2l,
        m2t,
        m2r,
        m2b,
        raw: input,
    };
    assert(r@ =~= rays_of(width, height, pixels_from_top, g));
    r
}


/// Pixel `k` of a bitmap packed eight pixels to a byte, most significant bit first;
/// pixels past the end of the packed bytes are unset.
pub open spec fn packed_pixel(packed: Seq<u8>, k: int) -> bool {
    &&& 0 <= k < 8 * packed.len()
    &&& packed[k / 8] & (0x80u8 >> ((k % 8) as u8)) != 0
}

/// The `w` by `h` grid whose pixels are laid out row by row in `packed`.
pub open spec fn unpacked_grid(packed: Seq<u8>, w: int, h: int) -> Seq<Seq<bool>> {
    Seq::new(w as nat, |x: int| Seq::new(h as nat, |y: int| packed_pixel(packed, y * w + x)))
}

/// The byte holds a pixel count that the packed layout of a `w` by `h` bitmap can hold:
/// no byte starts past the last pixel.
pub open spec fn packed_len_ok(len: int, w: int, h: int) -> bool {
    len * 8 < w * h + 8
}

/// The signed value of a byte read as two's complement.
pub open spec fn byte_as_i8(b: u8) -> i8 {
    if b < 128 {
        b as i8
    } else {
        (b - 256) as i8
    }
}

/// Header of a glyph file: little-endian width, height, and the signed offset of the
/// glyph's top from the top of the line.  Missing width or height bytes read as zero; a
/// missing offset byte repeats the height byte.
pub open spec fn header_width(bytes: Seq<u8>) -> u16 {
    let lo: int = if bytes.len() >= 1 { bytes[0] as int } else { 0 };
    let hi: int = if bytes.len() >= 2 { bytes[1] as int } else { 0 };
    (lo + 256 * hi) as u16
}

pub open spec fn header_height(bytes: Seq<u8>) -> u8 {
    if bytes.len() >= 3 { bytes[2] } else { 0 }
}

pub open spec fn header_offset(bytes: Seq<u8>) -> i8 {
    if bytes.len() >= 4 { byte_as_i8(bytes[3]) } else { byte_as_i8(header_height(bytes)) }
}

/// The pixel bytes that follow the four header bytes.
pub open spec fn payload(bytes: Seq<u8>) -> Seq<u8> {
    if bytes.len() >= 4 { bytes.skip(4) } else { Seq::empty() }
}

/// The signed value of a byte read as two's complement, see [`byte_as_i8`].
pub fn signed_byte_value(b: u8) -> (r: i8)
    ensures
        r == byte_as_i8(b),
{
    if b < 128 {
        b as i8
    } else {
        (b as i16 - 256) as i8
    }
}

impl GlyphRays {
    /// The glyph with no pixels, no size and no profiles.
    pub fn empty() -> (r: GlyphRays)
        ensures
            r@ == rays_of(0, 0, 0, Seq::empty()),
            r.width == 0 && r.height == 0 && r.pixels_from_top == 0,
            r.raw@.len() == 0,
    {
        let r = GlyphRays {
            width: 0,
            height: 0,
            pixels_from_top: 0,
            l2r: Vec::new(),
            t2b: Vec::new(),
            r2l: Vec::new(),
            b2t: Vec::new(),
            m2l: Vec::new(),
            m2t: Vec::new(),
            m2r: Vec::new(),
            m2b: Vec::new(),
            raw: Vec::new(),
        };
        assert(r@ =~= rays_of(0, 0, 0, Seq::empty()));
        r
    }

    /// Decodes a `width` by `height` bitmap packed eight pixels to a byte, row after row,
    /// most significant bit first, and builds its profiles.
    pub fn from_packed(width: u16, height: u8, pixels_from_top: i8, packed: &[u8]) -> (r: GlyphRays)
        requires
            width * height <= u16::MAX,
            packed_len_ok(packed@.len() as int, width as int, height as int),
        ensures
            r@ == rays_of(width, height, pixels_from_top, unpacked_grid(packed@, width as int, height as int)),
            r@.consistent(),
    {
        let w = width as usize;
        let h = height as usize;
        let ghost target = unpacked_grid(packed@, w as int, h as int);
        let mut raw: Vec<Vec<bool>> = Vec::new();
        let mut x: usize = 0;
        while x < w
            invariant
                x <= w,
                w == width,
                h == height,
                w * h <= u16::MAX,
                target == unpacked_grid(packed@, w as int, h as int),
                grid(raw@) =~= target.take(x as int),
            decreases w - x,
        {
            let mut col: Vec<bool> = Vec::new();
            let mut y: usize = 0;
            while y < h
                invariant
                    x < w,
                    y <= h,
                    w == width,
                    h == height,
                    w * h <= u16::MAX,
                    target == unpacked_grid(packed@, w as int, h as int),
                    col@ =~= target[x as int].take(y as int),
                decreases h - y,
            {
                assert(y * w + x < w * h) by (nonlinear_arith)
                    requires
                        y < h,
                        x < w,
                ;
                let k = y * w + x;
                let pixel = if k / 8 < packed.len() {
                    packed[k / 8] & (0x80u8 >> ((k % 8) as u8)) != 0
                } else {
                    false
                };
                assert(pixel == packed_pixel(packed@, k as int));
                col.push(pixel);
                y = y + 1;
            }
            assert(col@ =~= target[x as int]);
            proof {
                lemma_grid_push(raw@, col);
                assert(target.take(x + 1) =~= target.take(x as int).push(target[x as int]));
            }
            raw.push(col);
            x = x + 1;
        }
        assert(grid(raw@) =~= target);
        glyph_with_raw(width, height, pixels_from_top, raw)
    }

    /// Decodes a glyph file: the header (see [`header_width`], [`header_height`],
    /// [`header_offset`]) followed by the packed pixels.
    pub fn parse(bytes: &[u8]) -> (r: GlyphRays)
        requires
            header_width(bytes@) * header_height(bytes@) <= u16::MAX,
            packed_len_ok(payload(bytes@).len() as int, header_width(bytes@) as int, header_height(bytes@) as int),
        ensures
            r@ == rays_of(
                header_width(bytes@),
                header_height(bytes@),
                header_offset(bytes@),
                unpacked_grid(payload(bytes@), header_width(bytes@) as int, header_height(bytes@) as int),
            ),
            r@.consistent(),
    {
        let n = bytes.len();
        let lo: u16 = if n >= 1 { bytes[0] as u16 } else { 0 };
        let hi: u16 = if n >= 2 { bytes[1] as u16 } else { 0 };
        let width: u16 = lo + 256 * hi;
        let height: u8 = if n >= 3 { bytes[2] } else { 0 };
        let offset: i8 = if n >= 4 { signed_byte_value(bytes[3]) } else { signed_byte_value(height) };
        if n >= 4 {
            let mut rest: Vec<u8> = Vec::new();
            let mut i: usize = 4;
            while i < n
                invariant
                    4 <= i <= n,
                    n == bytes@.len(),
                    rest@ =~= bytes@.subrange(4, i as int),
                decreases n - i,
            {
                rest.push(bytes[i]);
                i = i + 1;
            }
            assert(rest@ =~= payload(bytes@));
            GlyphRays::from_packed(width, height, offset, rest.as_slice())
        } else {
            let rest: Vec<u8> = Vec::new();
            assert(rest@ =~= payload(bytes@));
            GlyphRays::from_packed(width, height, offset, rest.as_slice())
        }
    }
}


/// The smallest of `s[lo..hi]`, or 255 for an empty range.
pub open spec fn seq_min(s: Seq<u8>, lo: int, hi: int) -> int
    decreases hi - lo,
{
    if hi <= lo {
        255
    } else {
        let m = seq_min(s, lo, hi - 1);
        if (s[hi - 1] as int) < m {
            s[hi - 1] as int
        } else {
            m
        }
    }
}

pub proof fn lemma_seq_min(s: Seq<u8>, lo: int, hi: int)
    requires
        lo <= hi,
    ensures
        seq_min(s, lo, hi) <= 255,
        forall|j: int| lo <= j < hi ==> seq_min(s, lo, hi) <= s[j],
        lo < hi ==> exists|j: int| lo <= j < hi && s[j] == seq_min(s, lo, hi),
    decreases hi - lo,
{
    if lo < hi {
        lemma_seq_min(s, lo, hi - 1);
        let m = seq_min(s, lo, hi - 1);
        if (s[hi - 1] as int) < m {
            assert(s[hi - 1] == seq_min(s, lo, hi));
        } else if lo < hi - 1 {
            let j = choose|j: int| lo <= j < hi - 1 && s[j] == seq_min(s, lo, hi - 1);
            assert(lo <= j < hi && s[j] == seq_min(s, lo, hi));
        } else {
            assert(s[hi - 1] == seq_min(s, lo, hi));
        }
    }
}

/// Which columns of a view hold at least one set pixel, judged by the top profile.
pub open spec fn column_flags(v: RaysView) -> Seq<bool> {
    Seq::new(v.t2b.len(), |i: int| (v.t2b[i] as int) < v.height)
}

/// The first non-empty column in `[start, start + width)`, or `start` if all are empty.
pub open spec fn trimmed_start(v: RaysView, start: int, width: int) -> int {
    let f = first_set(column_flags(v), start, start + width);
    if f < start + width {
        f
    } else {
        start
    }
}

/// The rows above the topmost set pixel of the columns `[start, start + width)`,
/// after trimming empty columns on the left.
pub open spec fn sub_top(v: RaysView, start: int, width: int) -> int {
    seq_min(v.t2b, trimmed_start(v, start, width), start + width)
}

/// The rows below the bottommost set pixel of the trimmed columns.
pub open spec fn sub_bottom(v: RaysView, start: int, width: int) -> int {
    seq_min(v.b2t, trimmed_start(v, start, width), start + width)
}

/// The part of a glyph that lies in the columns `[start, start + width)`: empty columns on
/// its left are dropped and it is cropped to the rows that hold set pixels.  The bitmap
/// keeps `width` columns, the ones past the cropped width being empty.  `None` when the
/// columns hold no set pixel.
pub open spec fn spec_sub_glyph(v: RaysView, start: int, width: int) -> Option<RaysView> {
    let top = sub_top(v, start, width);
    let bottom = sub_bottom(v, start, width);
    if top >= v.height || bottom >= v.height {
        None
    } else {
        let s = trimmed_start(v, start, width);
        let w = start + width - s;
        let h = v.height - top - bottom;
        let g = Seq::new(
            width as nat,
            |x: int| Seq::new(h as nat, |y: int| if x < w { v.raw[s + x][top + y] } else { false }),
        );
        Some(rays_of(w as u16, h as u8, (v.pixels_from_top + byte_as_i8(top as u8)) as i8, g))
    }
}

/// The offset of the cropped part stays within `i8` when it is computed.
pub open spec fn sub_offset_ok(v: RaysView, start: int, width: int) -> bool {
    let top = sub_top(v, start, width);
    top < v.height ==> -128 <= v.pixels_from_top + byte_as_i8(top as u8) <= 127
}

/// Cropping the columns `[start, start + width)` is defined: the columns lie within the
/// column profiles, and when they hold pixels the crop's height and offset stay within their
/// ranges and the bitmap holds the cropped pixels.
pub open spec fn sub_glyph_ok(v: RaysView, start: int, width: int) -> bool {
    let top = sub_top(v, start, width);
    let bottom = sub_bottom(v, start, width);
    let s = trimmed_start(v, start, width);
    &&& width == 0 || (start + width <= v.t2b.len() && start + width <= v.b2t.len() && start + width <= u16::MAX)
    &&& width > 0 && top < v.height && bottom < v.height ==> {
        &&& top + bottom <= v.height
        &&& -128 <= v.pixels_from_top + byte_as_i8(top as u8) <= 127
        &&& start + width <= v.raw.len()
        &&& forall|x: int| s <= x < start + width ==> v.height - bottom <= #[trigger] v.raw[x].len()
    }
}

/// A non-empty line's first set pixel lies before its last.
pub proof fn lemma_first_before_last(line: Seq<bool>, lo: int, hi: int)
    requires
        lo <= hi,
        first_set(line, lo, hi) < hi,
    ensures
        first_set(line, lo, hi) < last_end(line, lo, hi),
{
    lemma_first_set_bounds(line, lo, hi);
    lemma_last_end_bounds(line, lo, hi);
}

impl RaysView {
    /// Column `x` of a consistent view holds a set pixel exactly when its top ray is
    /// shorter than the height, and then its top and bottom rays leave room for it.
    pub proof fn lemma_column_rays(self, x: int)
        requires
            self.consistent(),
            0 <= x < self.width,
        ensures
            (self.t2b[x] < self.height) == (self.b2t[x] < self.height),
            self.t2b[x] < self.height ==> self.t2b[x] + self.b2t[x] < self.height,
    {
        let g = self.raw;
        let h = self.height as int;
        lemma_first_set_bounds(g[x], 0, h);
        lemma_last_end_bounds(g[x], 0, h);
        assert(self.t2b[x] == ray_t2b(g, h, x) as u8);
        assert(self.b2t[x] == ray_b2t(g, h, x) as u8);
        if first_set(g[x], 0, h) < h {
            lemma_first_before_last(g[x], 0, h);
        } else {
            if last_end(g[x], 0, h) > 0 {
                assert(g[x][last_end(g[x], 0, h) - 1]);
            }
        }
    }
}


/// The first column in `[lo, hi)` whose top ray is shorter than `height`, or `hi`.
fn scan_first_nonempty(t2b: &Vec<u8>, height: u8, lo: usize, hi: usize) -> (r: usize)
    requires
        lo <= hi <= t2b.len(),
    ensures
        r == first_set(Seq::new(t2b@.len(), |i: int| (t2b@[i] as int) < height), lo as int, hi as int),
{
    let ghost flags = Seq::new(t2b@.len(), |i: int| (t2b@[i] as int) < height);
    let mut r = lo;
    let mut i = lo;
    while i < hi
        invariant
            lo <= i <= hi <= t2b.len(),
            flags == Seq::new(t2b@.len(), |i: int| (t2b@[i] as int) < height),
            r == first_set(flags, lo as int, i as int),
            lo <= r <= i,
        decreases hi - i,
    {
        proof {
            lemma_first_set_bounds(flags, lo as int, i as int);
        }
        if r == i {
            if t2b[i] < height {
                r = i;
            } else {
                r = i + 1;
            }
        }
        i = i + 1;
    }
    r
}

/// The smallest of `s[lo..hi]`, or 255.
pub(crate) fn scan_min(s: &Vec<u8>, lo: usize, hi: usize) -> (r: u8)
    requires
        lo <= hi <= s.len(),
    ensures
        r == seq_min(s@, lo as int, hi as int),
{
    let mut r: u8 = 255;
    let mut i = lo;
    while i < hi
        invariant
            lo <= i <= hi <= s.len(),
            r == seq_min(s@, lo as int, i as int),
        decreases hi - i,
    {
        if s[i] < r {
            r = s[i];
        }
        i = i + 1;
    }
    r
}

impl GlyphRays {
    /// The part of the glyph in the columns `[start_x, start_x + width)`, see
    /// [`spec_sub_glyph`].
    pub fn get_sub_glyph(&self, start_x: u16, width: u16) -> (r: Option<GlyphRays>)
        requires
            sub_glyph_ok(self@, start_x as int, width as int),
        ensures
            match r {
                Some(g) => spec_sub_glyph(self@, start_x as int, width as int) == Some(g@) && g@.consistent(),
                None => spec_sub_glyph(self@, start_x as int, width as int) is None,
            },
    {
        let ghost v = self@;
        let start = start_x as usize;
        let end = start + width as usize;
        let h = self.height;
        if width == 0 {
            proof {
                lemma_seq_min(v.t2b, trimmed_start(v, start as int, 0), start as int);
            }
            return None;
        }
        assert(column_flags(v) == Seq::new(self.t2b@.len(), |i: int| (self.t2b@[i] as int) < h));
        let f = scan_first_nonempty(&self.t2b, h, start, end);
        let s = if f < end { f } else { start };
        assert(s == trimmed_start(v, start as int, width as int));
        proof {
            lemma_first_set_bounds(column_flags(v), start as int, end as int);
        }
        let top = scan_min(&self.t2b, s, end);
        let bottom = scan_min(&self.b2t, s, end);
        if top >= h || bottom >= h {
            return None;
        }
        proof {
            lemma_seq_min(v.t2b, s as int, end as int);
            lemma_seq_min(v.b2t, s as int, end as int);
        }
        let nh: u8 = h - top - bottom;
        let offset: i8 = self.pixels_from_top + signed_byte_value(top);
        let nw: usize = end - s;
        let w = width as usize;
        let ghost g = Seq::new(
            w as nat,
            |x: int| Seq::new(nh as nat, |y: int| if x < nw { v.raw[s + x][top + y] } else { false }),
        );
        let mut input: Vec<Vec<bool>> = Vec::new();
        let mut x: usize = 0;
        while x < w
            invariant
                x <= w,
                v == self@,
                v.raw.len() >= end,
                forall|c: int| s <= c < end ==> top + nh <= #[trigger] v.raw[c].len(),
                nw == end - s,
                s <= end,
                top + nh <= h,
                h == self.height,
                g == Seq::new(
                    w as nat,
                    |x: int| Seq::new(nh as nat, |y: int| if x < nw { v.raw[s + x][top + y] } else { false }),
                ),
                grid(input@) =~= g.take(x as int),
            decreases w - x,
        {
            let mut col: Vec<bool> = Vec::new();
            let mut y: usize = 0;
            while y < nh as usize
                invariant
                    x < w,
                    y <= nh,
                    v == self@,
                    v.raw.len() >= end,
                    forall|c: int| s <= c < end ==> top + nh <= #[trigger] v.raw[c].len(),
                    nw == end - s,
                    s <= end,
                    top + nh <= h,
                    h == self.height,
                    g == Seq::new(
                        w as nat,
                        |x: int| Seq::new(nh as nat, |y: int| if x < nw { v.raw[s + x][top + y] } else { false }),
                    ),
                    col@ =~= g[x as int].take(y as int),
                decreases nh - y,
            {
                if x < nw {
                    assert(v.raw[s + x].len() >= top + nh);
                    col.push(self.raw[s + x][top as usize + y]);
                } else {
                    col.push(false);
                }
                y = y + 1;
            }
            assert(col@ =~= g[x as int]);
            proof {
                lemma_grid_push(input@, col);
                assert(g.take(x + 1) =~= g.take(x as int).push(g[x as int]));
            }
            input.push(col);
            x = x + 1;
        }
        assert(grid(input@) =~= g);
        let r = glyph_with_raw(nw as u16, nh, offset, input);
        Some(r)
    }

    /// Whether the profiles cover the glyph's size and the bitmap its pixels, see
    /// [`lengths_ok`].
    pub fn lengths_fit(&self) -> (r: bool)
        ensures
            r == lengths_ok(self@),
    {
        let w = self.width as usize;
        let h = self.height as usize;
        if !(h <= self.l2r.len() && h <= self.r2l.len() && h <= self.m2l.len() && h <= self.m2r.len()
            && w <= self.t2b.len() && w <= self.b2t.len() && w <= self.m2t.len() && w <= self.m2b.len()
            && w <= self.raw.len()) {
            return false;
        }
        let mut x: usize = 0;
        while x < w
            invariant
                x <= w <= self.raw@.len(),
                w == self.width,
                h == self.height,
                forall|j: int| 0 <= j < x ==> h <= #[trigger] self@.raw[j].len(),
            decreases w - x,
        {
            if self.raw[x].len() < h {
                assert(!shape_ok(self@.raw, w as int, h as int)) by {
                    assert(self@.raw[x as int] == self.raw@[x as int]@);
                }
                return false;
            }
            assert(self@.raw[x as int] == self.raw@[x as int]@);
            x = x + 1;
        }
        true
    }

    /// Whether the part of the glyph in the columns `[start_x, start_x + width)` can be taken,
    /// see [`sub_glyph_ok`].
    #[verifier::loop_isolation(false)]
    pub fn sub_glyph_fits(&self, start_x: u16, width: u16) -> (r: bool)
        ensures
            r == sub_glyph_ok(self@, start_x as int, width as int),
    {
        let ghost v = self@;
        if width == 0 {
            return true;
        }
        let start = start_x as usize;
        let end = start + width as usize;
        if end > self.t2b.len() || end > self.b2t.len() || end > 65535 {
            return false;
        }
        let h = self.height;
        assert(column_flags(v) == Seq::new(self.t2b@.len(), |i: int| (self.t2b@[i] as int) < h));
        let f = scan_first_nonempty(&self.t2b, h, start, end);
        let s = if f < end { f } else { start };
        proof {
            lemma_first_set_bounds(column_flags(v), start as int, end as int);
        }
        assert(s == trimmed_start(v, start as int, width as int));
        let top = scan_min(&self.t2b, s, end);
        let bottom = scan_min(&self.b2t, s, end);
        if top >= h || bottom >= h {
            return true;
        }
        if top as u16 + bottom as u16 > h as u16 {
            return false;
        }
        let t: i16 = self.pixels_from_top as i16 + signed_byte_value(top) as i16;
        if t < -128 || t > 127 || end > self.raw.len() {
            return false;
        }
        let need = (h - bottom) as usize;
        let mut x: usize = s;
        while x < end
            invariant
                s <= x <= end <= self.raw@.len(),
                v == self@,
                need == v.height - bottom,
                forall|c: int| s <= c < x ==> need <= #[trigger] v.raw[c].len(),
            decreases end - x,
        {
            assert(v.raw[x as int] == self.raw@[x as int]@);
            if self.raw[x].len() < need {
                assert(!(v.height - bottom <= v.raw[x as int].len()));
                return false;
            }
            x = x + 1;
        }
        true
    }
}

/// The views of a sequence of glyphs.
pub open spec fn views(s: Seq<GlyphRays>) -> Seq<RaysView> {
    Seq::new(s.len(), |i: int| s[i]@)
}

/// Entry `y` of the `k`-th row profile (`l2r`, `r2l`, `m2r`, `m2l`), counted as 0 past the
/// glyph's height.
pub open spec fn row_entry(r: RaysView, k: int, y: int) -> int {
    if 0 <= y < r.height {
        if k == 0 {
            r.l2r[y] as int
        } else if k == 1 {
            r.r2l[y] as int
        } else if k == 2 {
            r.m2r[y] as int
        } else {
            r.m2l[y] as int
        }
    } else {
        0
    }
}

/// Entry `x` of the `k`-th column profile (`t2b`, `b2t`, `m2b`, `m2t`), counted as 0 past
/// the glyph's width.
pub open spec fn col_entry(r: RaysView, k: int, x: int) -> int {
    if 0 <= x < r.width {
        if k == 0 {
            r.t2b[x] as int
        } else if k == 1 {
            r.b2t[x] as int
        } else if k == 2 {
            r.m2b[x] as int
        } else {
            r.m2t[x] as int
        }
    } else {
        0
    }
}

/// Pixel `(x, y)` counted as 1 when it lies inside the glyph and is set.
pub open spec fn pixel_entry(r: RaysView, x: int, y: int) -> int {
    if 0 <= x < r.width && 0 <= y < r.height && r.raw[x][y] {
        1
    } else {
        0
    }
}

pub open spec fn row_total(s: Seq<RaysView>, n: int, k: int, y: int) -> int
    decreases n,
{
    if n <= 0 {
        0
    } else {
        row_total(s, n - 1, k, y) + row_entry(s[n - 1], k, y)
    }
}

pub open spec fn col_total(s: Seq<RaysView>, n: int, k: int, x: int) -> int
    decreases n,
{
    if n <= 0 {
        0
    } else {
        col_total(s, n - 1, k, x) + col_entry(s[n - 1], k, x)
    }
}

pub open spec fn pixel_total(s: Seq<RaysView>, n: int, x: int, y: int) -> int
    decreases n,
{
    if n <= 0 {
        0
    } else {
        pixel_total(s, n - 1, x, y) + pixel_entry(s[n - 1], x, y)
    }
}

pub open spec fn width_total(s: Seq<RaysView>, n: int) -> int
    decreases n,
{
    if n <= 0 {
        0
    } else {
        width_total(s, n - 1) + s[n - 1].width
    }
}

pub open spec fn height_total(s: Seq<RaysView>, n: int) -> int
    decreases n,
{
    if n <= 0 {
        0
    } else {
        height_total(s, n - 1) + s[n - 1].height
    }
}

pub open spec fn offset_total(s: Seq<RaysView>, n: int) -> int
    decreases n,
{
    if n <= 0 {
        0
    } else {
        offset_total(s, n - 1) + s[n - 1].pixels_from_top
    }
}

/// Division rounding towards zero.
pub open spec fn trunc_div(a: int, b: int) -> int {
    if a >= 0 {
        a / b
    } else {
        -((-a) / b)
    }
}

/// The profile vectors cover the glyph's size and the bitmap its pixels.
pub open spec fn lengths_ok(r: RaysView) -> bool {
    &&& r.height <= r.l2r.len() && r.height <= r.r2l.len()
    &&& r.height <= r.m2l.len() && r.height <= r.m2r.len()
    &&& r.width <= r.t2b.len() && r.width <= r.b2t.len()
    &&& r.width <= r.m2t.len() && r.width <= r.m2b.len()
    &&& shape_ok(r.raw, r.width as int, r.height as int)
}

/// The samples can be averaged: there is at least one, every one fits in the first one's
/// totals, and no total leaves the 32-bit range it is kept in.
pub open spec fn average_ok(s: Seq<RaysView>) -> bool {
    let n = s.len() as int;
    let f = s[0];
    &&& 1 <= n <= i32::MAX
    &&& forall|i: int|
        0 <= i < n ==> {
            &&& lengths_ok(#[trigger] s[i])
            &&& s[i].width <= f.width && s[i].height <= f.height
            &&& s[i].width <= f.t2b.len() && s[i].width <= f.b2t.len()
            &&& s[i].width <= f.m2t.len() && s[i].width <= f.m2b.len()
            &&& s[i].height <= f.l2r.len() && s[i].height <= f.r2l.len()
            &&& s[i].height <= f.m2l.len() && s[i].height <= f.m2r.len()
        }
    &&& width_total(s, n) <= u32::MAX
    &&& height_total(s, n) <= u32::MAX
    &&& forall|m: int| 0 <= m <= n ==> i32::MIN <= #[trigger] offset_total(s, m) <= i32::MAX
    &&& forall|k: int, y: int| 0 <= k < 4 && 0 <= y ==> #[trigger] row_total(s, n, k, y) <= u32::MAX
    &&& forall|k: int, x: int| 0 <= k < 4 && 0 <= x ==> #[trigger] col_total(s, n, k, x) <= u32::MAX
}

/// The average of the samples: sizes, offset and each profile entry are the integer means of
/// the samples' values (entries past a sample's size count as 0), and a pixel of the first
/// sample's extent is set when at least half of the samples (rounded down) set it.
pub open spec fn spec_average(s: Seq<RaysView>) -> RaysView {
    let n = s.len() as int;
    let f = s[0];
    RaysView {
        width: (width_total(s, n) / n) as u16,
        height: (height_total(s, n) / n) as u8,
        pixels_from_top: trunc_div(offset_total(s, n), n) as i8,
        l2r: Seq::new(f.l2r.len(), |y: int| (row_total(s, n, 0, y) / n) as u16),
        r2l: Seq::new(f.r2l.len(), |y: int| (row_total(s, n, 1, y) / n) as u16),
        m2r: Seq::new(f.m2r.len(), |y: int| (row_total(s, n, 2, y) / n) as u16),
        m2l: Seq::new(f.m2l.len(), |y: int| (row_total(s, n, 3, y) / n) as u16),
        t2b: Seq::new(f.t2b.len(), |x: int| (col_total(s, n, 0, x) / n) as u8),
        b2t: Seq::new(f.b2t.len(), |x: int| (col_total(s, n, 1, x) / n) as u8),
        m2b: Seq::new(f.m2b.len(), |x: int| (col_total(s, n, 2, x) / n) as u8),
        m2t: Seq::new(f.m2t.len(), |x: int| (col_total(s, n, 3, x) / n) as u8),
        raw: Seq::new(
            f.width as nat,
            |x: int| Seq::new(f.height as nat, |y: int| pixel_total(s, n, x, y) >= n / 2),
        ),
    }
}

proof fn lemma_row_total_bound(s: Seq<RaysView>, n: int, k: int, y: int)
    requires
        0 <= n <= s.len(),
    ensures
        0 <= row_total(s, n, k, y) <= n * 65535,
    decreases n,
{
    if n > 0 {
        lemma_row_total_bound(s, n - 1, k, y);
    }
}

proof fn lemma_col_total_bound(s: Seq<RaysView>, n: int, k: int, x: int)
    requires
        0 <= n <= s.len(),
    ensures
        0 <= col_total(s, n, k, x) <= n * 255,
    decreases n,
{
    if n > 0 {
        lemma_col_total_bound(s, n - 1, k, x);
    }
}

proof fn lemma_pixel_total_bound(s: Seq<RaysView>, n: int, x: int, y: int)
    requires
        0 <= n <= s.len(),
    ensures
        0 <= pixel_total(s, n, x, y) <= n,
    decreases n,
{
    if n > 0 {
        lemma_pixel_total_bound(s, n - 1, x, y);
    }
}

proof fn lemma_small_totals(s: Seq<RaysView>, n: int)
    requires
        0 <= n <= s.len(),
    ensures
        0 <= width_total(s, n) <= n * 65535,
        0 <= height_total(s, n) <= n * 255,
        -128 * n <= offset_total(s, n) <= 127 * n,
    decreases n,
{
    if n > 0 {
        lemma_small_totals(s, n - 1);
    }
}

/// The `k`-th row profile entry `y`, summed over the samples.
fn sum_row_entries(samples: &Vec<GlyphRays>, k: u8, y: usize) -> (t: u64)
    requires
        samples@.len() <= i32::MAX,
        forall|i: int| 0 <= i < samples@.len() ==> lengths_ok(#[trigger] samples@[i]@),
    ensures
        t == row_total(views(samples@), samples@.len() as int, k as int, y as int),
{
    let ghost s = views(samples@);
    let mut t: u64 = 0;
    let mut i: usize = 0;
    while i < samples.len()
        invariant
            i <= samples@.len() <= i32::MAX,
            s == views(samples@),
            forall|j: int| 0 <= j < samples@.len() ==> lengths_ok(#[trigger] samples@[j]@),
            t == row_total(s, i as int, k as int, y as int),
        decreases samples@.len() - i,
    {
        proof {
            lemma_row_total_bound(s, i as int, k as int, y as int);
            lemma_row_total_bound(s, i + 1, k as int, y as int);
        }
        let cur = &samples[i];
        assert(lengths_ok(cur@));
        if y < cur.height as usize {
            let v = if k == 0 {
                cur.l2r[y]
            } else if k == 1 {
                cur.r2l[y]
            } else if k == 2 {
                cur.m2r[y]
            } else {
                cur.m2l[y]
            };
            t = t + v as u64;
        }
        i = i + 1;
    }
    t
}

/// The `k`-th column profile entry `x`, summed over the samples.
fn sum_col_entries(samples: &Vec<GlyphRays>, k: u8, x: usize) -> (t: u64)
    requires
        samples@.len() <= i32::MAX,
        forall|i: int| 0 <= i < samples@.len() ==> lengths_ok(#[trigger] samples@[i]@),
    ensures
        t == col_total(views(samples@), samples@.len() as int, k as int, x as int),
{
    let ghost s = views(samples@);
    let mut t: u64 = 0;
    let mut i: usize = 0;
    while i < samples.len()
        invariant
            i <= samples@.len() <= i32::MAX,
            s == views(samples@),
            forall|j: int| 0 <= j < samples@.len() ==> lengths_ok(#[trigger] samples@[j]@),
            t == col_total(s, i as int, k as int, x as int),
        decreases samples@.len() - i,
    {
        proof {
            lemma_col_total_bound(s, i as int, k as int, x as int);
            lemma_col_total_bound(s, i + 1, k as int, x as int);
        }
        let cur = &samples[i];
        assert(lengths_ok(cur@));
        if x < cur.width as usize {
            let v = if k == 0 {
                cur.t2b[x]
            } else if k == 1 {
                cur.b2t[x]
            } else if k == 2 {
                cur.m2b[x]
            } else {
                cur.m2t[x]
            };
            t = t + v as u64;
        }
        i = i + 1;
    }
    t
}

/// How many samples set pixel `(x, y)`.
fn count_pixel(samples: &Vec<GlyphRays>, x: usize, y: usize) -> (t: usize)
    requires
        samples@.len() <= i32::MAX,
        forall|i: int| 0 <= i < samples@.len() ==> lengths_ok(#[trigger] samples@[i]@),
    ensures
        t == pixel_total(views(samples@), samples@.len() as int, x as int, y as int),
{
    let ghost s = views(samples@);
    let mut t: usize = 0;
    let mut i: usize = 0;
    while i < samples.len()
        invariant
            i <= samples@.len() <= i32::MAX,
            s == views(samples@),
            forall|j: int| 0 <= j < samples@.len() ==> lengths_ok(#[trigger] samples@[j]@),
            t == pixel_total(s, i as int, x as int, y as int),
        decreases samples@.len() - i,
    {
        proof {
            lemma_pixel_total_bound(s, i as int, x as int, y as int);
        }
        let cur = &samples[i];
        assert(lengths_ok(cur@));
        if x < cur.width as usize && y < cur.height as usize {
            assert(cur@.raw[x as int].len() >= cur.height);
            if cur.raw[x][y] {
                t = t + 1;
            }
        }
        i = i + 1;
    }
    t
}

/// The sizes and offsets summed over the samples.
fn sum_sizes(samples: &Vec<GlyphRays>) -> (r: (u64, u64, i64))
    requires
        samples@.len() <= i32::MAX,
    ensures
        r.0 == width_total(views(samples@), samples@.len() as int),
        r.1 == height_total(views(samples@), samples@.len() as int),
        r.2 == offset_total(views(samples@), samples@.len() as int),
{
    let ghost s = views(samples@);
    let mut tw: u64 = 0;
    let mut th: u64 = 0;
    let mut to: i64 = 0;
    let mut i: usize = 0;
    while i < samples.len()
        invariant
            i <= samples@.len() <= i32::MAX,
            s == views(samples@),
            tw == width_total(s, i as int),
            th == height_total(s, i as int),
            to == offset_total(s, i as int),
        decreases samples@.len() - i,
    {
        proof {
            lemma_small_totals(s, i as int);
        }
        tw = tw + samples[i].width as u64;
        th = th + samples[i].height as u64;
        to = to + samples[i].pixels_from_top as i64;
        i = i + 1;
    }
    (tw, th, to)
}

/// The means of `k`-th row profile over the first `len` entries.
fn average_row(samples: &Vec<GlyphRays>, k: u8, len: usize, n: u64) -> (r: Vec<u16>)
    requires
        n == samples@.len(),
        1 <= n <= i32::MAX,
        forall|i: int| 0 <= i < samples@.len() ==> lengths_ok(#[trigger] samples@[i]@),
    ensures
        r@ == Seq::new(len as nat, |y: int| (row_total(views(samples@), n as int, k as int, y) / n as int) as u16),
{
    let mut r: Vec<u16> = Vec::new();
    let mut y: usize = 0;
    while y < len
        invariant
            y <= len,
            n == samples@.len(),
            1 <= n <= i32::MAX,
            forall|i: int| 0 <= i < samples@.len() ==> lengths_ok(#[trigger] samples@[i]@),
            r@ =~= Seq::new(y as nat, |j: int| (row_total(views(samples@), n as int, k as int, j) / n as int) as u16),
        decreases len - y,
    {
        let t = sum_row_entries(samples, k, y);
        r.push((t / n) as u16);
        y = y + 1;
    }
    r
}

/// The means of `k`-th column profile over the first `len` entries.
fn average_col(samples: &Vec<GlyphRays>, k: u8, len: usize, n: u64) -> (r: Vec<u8>)
    requires
        n == samples@.len(),
        1 <= n <= i32::MAX,
        forall|i: int| 0 <= i < samples@.len() ==> lengths_ok(#[trigger] samples@[i]@),
    ensures
        r@ == Seq::new(len as nat, |x: int| (col_total(views(samples@), n as int, k as int, x) / n as int) as u8),
{
    let mut r: Vec<u8> = Vec::new();
    let mut x: usize = 0;
    while x < len
        invariant
            x <= len,
            n == samples@.len(),
            1 <= n <= i32::MAX,
            forall|i: int| 0 <= i < samples@.len() ==> lengths_ok(#[trigger] samples@[i]@),
            r@ =~= Seq::new(x as nat, |j: int| (col_total(views(samples@), n as int, k as int, j) / n as int) as u8),
        decreases len - x,
    {
        let t = sum_col_entries(samples, k, x);
        r.push((t / n) as u8);
        x = x + 1;
    }
    r
}

proof fn lemma_row_total_past(s: Seq<RaysView>, n: int, k: int, y: int)
    requires
        0 <= n <= s.len(),
        forall|i: int| 0 <= i < n ==> (#[trigger] s[i]).height <= y,
    ensures
        row_total(s, n, k, y) == 0,
    decreases n,
{
    if n > 0 {
        lemma_row_total_past(s, n - 1, k, y);
    }
}

proof fn lemma_col_total_past(s: Seq<RaysView>, n: int, k: int, x: int)
    requires
        0 <= n <= s.len(),
        forall|i: int| 0 <= i < n ==> (#[trigger] s[i]).width <= x,
    ensures
        col_total(s, n, k, x) == 0,
    decreases n,
{
    if n > 0 {
        lemma_col_total_past(s, n - 1, k, x);
    }
}

/// A copy of a vector of profile entries.
fn copy_u16s(v: &Vec<u16>) -> (r: Vec<u16>)
    ensures
        r@ == v@,
{
    let mut r: Vec<u16> = Vec::new();
    let mut i: usize = 0;
    while i < v.len()
        invariant
            i <= v@.len(),
            r@ == v@.take(i as int),
        decreases v@.len() - i,
    {
        r.push(v[i]);
        i = i + 1;
        assert(r@ =~= v@.take(i as int));
    }
    assert(v@.take(v@.len() as int) =~= v@);
    r
}

/// A copy of a vector of profile entries.
fn copy_u8s(v: &Vec<u8>) -> (r: Vec<u8>)
    ensures
        r@ == v@,
{
    let mut r: Vec<u8> = Vec::new();
    let mut i: usize = 0;
    while i < v.len()
        invariant
            i <= v@.len(),
            r@ == v@.take(i as int),
        decreases v@.len() - i,
    {
        r.push(v[i]);
        i = i + 1;
        assert(r@ =~= v@.take(i as int));
    }
    assert(v@.take(v@.len() as int) =~= v@);
    r
}

/// A copy of a column of pixels.
fn copy_bools(v: &Vec<bool>) -> (r: Vec<bool>)
    ensures
        r@ == v@,
{
    let mut r: Vec<bool> = Vec::new();
    let mut i: usize = 0;
    while i < v.len()
        invariant
            i <= v@.len(),
            r@ == v@.take(i as int),
        decreases v@.len() - i,
    {
        r.push(v[i]);
        i = i + 1;
        assert(r@ =~= v@.take(i as int));
    }
    assert(v@.take(v@.len() as int) =~= v@);
    r
}

impl GlyphRays {
    /// A copy of the glyph.
    pub fn copy(&self) -> (r: GlyphRays)
        ensures
            r@ == self@,
    {
        let mut raw: Vec<Vec<bool>> = Vec::new();
        let mut i: usize = 0;
        while i < self.raw.len()
            invariant
                i <= self.raw@.len(),
                grid(raw@) == grid(self.raw@).take(i as int),
            decreases self.raw@.len() - i,
        {
            let col = copy_bools(&self.raw[i]);
            proof {
                lemma_grid_push(raw@, col);
            }
            raw.push(col);
            i = i + 1;
            assert(grid(raw@) =~= grid(self.raw@).take(i as int));
        }
        assert(grid(self.raw@).take(self.raw@.len() as int) =~= grid(self.raw@));
        let r = GlyphRays {
            width: self.width,
            height: self.height,
            pixels_from_top: self.pixels_from_top,
            l2r: copy_u16s(&self.l2r),
            t2b: copy_u8s(&self.t2b),
            r2l: copy_u16s(&self.r2l),
            b2t: copy_u8s(&self.b2t),
            m2l: copy_u16s(&self.m2l),
            m2t: copy_u8s(&self.m2t),
            m2r: copy_u16s(&self.m2r),
            m2b: copy_u8s(&self.m2b),
            raw,
        };
        assert(r@ =~= self@);
        r
    }
}

/// Whether the samples can be averaged, see [`average_ok`].
pub fn average_fits(samples: &Vec<GlyphRays>) -> (r: bool)
    ensures
        r == average_ok(views(samples@)),
{
    let ghost s = views(samples@);
    let n = samples.len();
    if n == 0 || n > 2147483647 {
        return false;
    }
    let f = &samples[0];
    let mut max_w: u16 = 0;
    let mut max_h: u8 = 0;
    let mut i: usize = 0;
    while i < n
        invariant
            1 <= n <= i32::MAX,
            n == samples@.len(),
            s == views(samples@),
            f@ == s[0],
            i <= n,
            forall|j: int| 0 <= j < i ==> (#[trigger] s[j]).width <= max_w && s[j].height <= max_h,
            forall|j: int|
                0 <= j < i ==> {
                    &&& lengths_ok(#[trigger] s[j])
                    &&& s[j].width <= s[0].width && s[j].height <= s[0].height
                    &&& s[j].width <= s[0].t2b.len() && s[j].width <= s[0].b2t.len()
                    &&& s[j].width <= s[0].m2t.len() && s[j].width <= s[0].m2b.len()
                    &&& s[j].height <= s[0].l2r.len() && s[j].height <= s[0].r2l.len()
                    &&& s[j].height <= s[0].m2l.len() && s[j].height <= s[0].m2r.len()
                },
        decreases n - i,
    {
        let g = &samples[i];
        assert(g@ == s[i as int]);
        let w = g.width as usize;
        let h = g.height as usize;
        if !(g.lengths_fit() && g.width <= f.width && g.height <= f.height && w <= f.t2b.len() && w <= f.b2t.len()
            && w <= f.m2t.len() && w <= f.m2b.len() && h <= f.l2r.len() && h <= f.r2l.len() && h <= f.m2l.len()
            && h <= f.m2r.len()) {
            return false;
        }
        if g.width > max_w {
            max_w = g.width;
        }
        if g.height > max_h {
            max_h = g.height;
        }
        i = i + 1;
    }
    let (tw, th, _) = sum_sizes(samples);
    if tw > 4294967295 || th > 4294967295 {
        return false;
    }
    let mut off: i64 = 0;
    let mut m: usize = 0;
    while m < n
        invariant
            n == samples@.len(),
            n <= i32::MAX,
            s == views(samples@),
            m <= n,
            off == offset_total(s, m as int),
            forall|q: int| 0 <= q <= m ==> i32::MIN <= #[trigger] offset_total(s, q) <= i32::MAX,
        decreases n - m,
    {
        assert(s[m as int] == samples@[m as int]@);
        off = off + samples[m].pixels_from_top as i64;
        m = m + 1;
        assert(off == offset_total(s, m as int));
        if off < -2147483648 || off > 2147483647 {
            assert(!(i32::MIN <= offset_total(s, m as int) <= i32::MAX));
            return false;
        }
    }
    assert forall|j: int| 0 <= j < n implies lengths_ok(#[trigger] samples@[j]@) by {
        assert(s[j] == samples@[j]@);
    }
    let mut k: u8 = 0;
    while k < 4
        invariant
            n == samples@.len(),
            1 <= n <= i32::MAX,
            s == views(samples@),
            forall|j: int| 0 <= j < n ==> lengths_ok(#[trigger] samples@[j]@),
            forall|j: int| 0 <= j < n ==> (#[trigger] s[j]).width <= max_w && s[j].height <= max_h,
            k <= 4,
            forall|kk: int, y: int| 0 <= kk < k && 0 <= y ==> #[trigger] row_total(s, n as int, kk, y) <= u32::MAX,
            forall|kk: int, x: int| 0 <= kk < k && 0 <= x ==> #[trigger] col_total(s, n as int, kk, x) <= u32::MAX,
        decreases 4 - k,
    {
        let mut y: usize = 0;
        while y < max_h as usize
            invariant
                n == samples@.len(),
                1 <= n <= i32::MAX,
                s == views(samples@),
                forall|j: int| 0 <= j < n ==> lengths_ok(#[trigger] samples@[j]@),
                k < 4,
                y <= max_h,
                forall|yy: int| 0 <= yy < y ==> #[trigger] row_total(s, n as int, k as int, yy) <= u32::MAX,
            decreases max_h - y,
        {
            if sum_row_entries(samples, k, y) > 4294967295 {
                return false;
            }
            y = y + 1;
        }
        let mut x: usize = 0;
        while x < max_w as usize
            invariant
                n == samples@.len(),
                1 <= n <= i32::MAX,
                s == views(samples@),
                forall|j: int| 0 <= j < n ==> lengths_ok(#[trigger] samples@[j]@),
                k < 4,
                x <= max_w,
                forall|xx: int| 0 <= xx < x ==> #[trigger] col_total(s, n as int, k as int, xx) <= u32::MAX,
            decreases max_w - x,
        {
            if sum_col_entries(samples, k, x) > 4294967295 {
                return false;
            }
            x = x + 1;
        }
        proof {
            assert forall|yy: int| 0 <= yy implies #[trigger] row_total(s, n as int, k as int, yy) <= u32::MAX by {
                if yy >= max_h {
                    lemma_row_total_past(s, n as int, k as int, yy);
                }
            }
            assert forall|xx: int| 0 <= xx implies #[trigger] col_total(s, n as int, k as int, xx) <= u32::MAX by {
                if xx >= max_w {
                    lemma_col_total_past(s, n as int, k as int, xx);
                }
            }
        }
        k = k + 1;
    }
    true
}

impl GlyphRays {
    /// The average of the samples, see [`spec_average`].
    pub fn average(samples: &Vec<GlyphRays>) -> (r: GlyphRays)
        requires
            average_ok(views(samples@)),
        ensures
            r@ == spec_average(views(samples@)),
    {
        let ghost s = views(samples@);
        let n = samples.len();
        assert(s[0] == samples@[0]@);
        assert forall|i: int| 0 <= i < samples@.len() implies lengths_ok(#[trigger] samples@[i]@) by {
            assert(s[i] == samples@[i]@);
        }
        let first = &samples[0];
        let nn = n as u64;
        let (tw, th, to) = sum_sizes(samples);
        let width = (tw / nn) as u16;
        let height = (th / nn) as u8;
        let offset: i64 = if to >= 0 {
            to / (n as i64)
        } else {
            -((-to) / (n as i64))
        };
        let l2r = average_row(samples, 0, first.l2r.len(), nn);
        let r2l = average_row(samples, 1, first.r2l.len(), nn);
        let m2r = average_row(samples, 2, first.m2r.len(), nn);
        let m2l = average_row(samples, 3, first.m2l.len(), nn);
        let t2b = average_col(samples, 0, first.t2b.len(), nn);
        let b2t = average_col(samples, 1, first.b2t.len(), nn);
        let m2b = average_col(samples, 2, first.m2b.len(), nn);
        let m2t = average_col(samples, 3, first.m2t.len(), nn);
        let fw = first.width as usize;
        let fh = first.height as usize;
        let ghost g = spec_average(s).raw;
        let mut raw: Vec<Vec<bool>> = Vec::new();
        let mut x: usize = 0;
        while x < fw
            invariant
                x <= fw,
                fw == s[0].width,
                fh == s[0].height,
                n == samples@.len(),
                1 <= n <= i32::MAX,
                s == views(samples@),
                forall|i: int| 0 <= i < samples@.len() ==> lengths_ok(#[trigger] samples@[i]@),
                g == Seq::new(
                    fw as nat,
                    |x: int| Seq::new(fh as nat, |y: int| pixel_total(s, n as int, x, y) >= n as int / 2),
                ),
                grid(raw@) =~= g.take(x as int),
            decreases fw - x,
        {
            let mut col: Vec<bool> = Vec::new();
            let mut y: usize = 0;
            while y < fh
                invariant
                    x < fw,
                    y <= fh,
                    n == samples@.len(),
                    1 <= n <= i32::MAX,
                    s == views(samples@),
                    forall|i: int| 0 <= i < samples@.len() ==> lengths_ok(#[trigger] samples@[i]@),
                    g == Seq::new(
                        fw as nat,
                        |x: int| Seq::new(fh as nat, |y: int| pixel_total(s, n as int, x, y) >= n as int / 2),
                    ),
                    col@ =~= g[x as int].take(y as int),
                decreases fh - y,
            {
                let c = count_pixel(samples, x, y);
                col.push(c >= n / 2);
                y = y + 1;
            }
            assert(col@ =~= g[x as int]);
            proof {
                lemma_grid_push(raw@, col);
                assert(g.take(x + 1) =~= g.take(x as int).push(g[x as int]));
            }
            raw.push(col);
            x = x + 1;
        }
        assert(grid(raw@) =~= g);
        let r = GlyphRays {
            width,
            height,
            pixels_from_top: offset as i8,
            l2r,
            t2b,
            r2l,
            b2t,
            m2l,
            m2t,
            m2r,
            m2b,
            raw,
        };
        assert(r@ =~= spec_average(s));
        r
    }
}

/// The bytes can be decoded as a glyph file: the pixel count fits in `u16` and no pixel byte
/// starts past the last pixel.
pub open spec fn parse_ok(bytes: Seq<u8>) -> bool {
    &&& header_width(bytes) * header_height(bytes) <= u16::MAX
    &&& packed_len_ok(payload(bytes).len() as int, header_width(bytes) as int, header_height(bytes) as int)
}

/// Every bit of the bytes, most significant first.
pub open spec fn all_bits(bytes: Seq<u8>) -> Seq<bool> {
    Seq::new(8 * bytes.len(), |k: int| packed_pixel(bytes, k))
}

/// Pixel `(x, y)` of the overlay picture: it lies on the end of one of the eight rays.
pub open spec fn overlay_mark(v: RaysView, x: int, y: int) -> bool {
    let w = v.width as int;
    let h = v.height as int;
    ||| x < w - 1 && v.l2r[y] == x
    ||| x > 0 && (v.r2l[y] as int) < w && w - 1 - v.r2l[y] == x
    ||| y < h - 1 && v.t2b[x] == y
    ||| y > 0 && (v.b2t[x] as int) < h && h - 1 - v.b2t[x] == y
    ||| x > 0 && w / 2 - v.m2l[y] == x
    ||| x > 0 && v.m2r[y] + w / 2 == x
    ||| y > 0 && h / 2 - v.m2t[x] == y
    ||| y < h - 1 && v.m2b[x] + h / 2 == y
}

pub open spec fn centre_rows_ok(v: RaysView, y: int) -> bool {
    v.m2l[y] <= v.width / 2 && v.m2r[y] + v.width / 2 <= u16::MAX
}

pub open spec fn centre_cols_ok(v: RaysView, x: int) -> bool {
    v.m2t[x] <= v.height / 2 && v.m2b[x] + v.height / 2 <= u8::MAX
}

/// Deciding pixel `(x, y)` of the overlay stays within the glyph's number ranges: the rays
/// are tested in turn, and a centre ray is measured only when the pixel is not already
/// marked by an earlier ray.
pub open spec fn overlay_pixel_ok(v: RaysView, x: int, y: int) -> bool {
    let w = v.width as int;
    let h = v.height as int;
    ||| x < w - 1 && v.l2r[y] == x
    ||| x > 0 && (v.r2l[y] as int) < w && w - 1 - v.r2l[y] == x
    ||| y < h - 1 && v.t2b[x] == y
    ||| y > 0 && (v.b2t[x] as int) < h && h - 1 - v.b2t[x] == y
    ||| {
        &&& x > 0 ==> v.m2l[y] <= w / 2
        &&& {
            ||| x > 0 && w / 2 - v.m2l[y] == x
            ||| {
                &&& x > 0 ==> v.m2r[y] + w / 2 <= u16::MAX
                &&& {
                    ||| x > 0 && v.m2r[y] + w / 2 == x
                    ||| {
                        &&& y > 0 ==> v.m2t[x] <= h / 2
                        &&& {
                            ||| y > 0 && h / 2 - v.m2t[x] == y
                            ||| y < h - 1 ==> v.m2b[x] + h / 2 <= u8::MAX
                        }
                    }
                }
            }
        }
    }
}

/// The overlay can be drawn: the profiles cover the glyph's size and deciding each pixel
/// stays within the glyph's number ranges.
pub open spec fn overlay_ok(v: RaysView) -> bool {
    &&& v.height <= v.l2r.len() && v.height <= v.r2l.len()
    &&& v.height <= v.m2l.len() && v.height <= v.m2r.len()
    &&& v.width <= v.t2b.len() && v.width <= v.b2t.len()
    &&& v.width <= v.m2t.len() && v.width <= v.m2b.len()
    &&& forall|x: int, y: int| 0 <= x < v.width && 0 <= y < v.height ==> #[trigger] overlay_pixel_ok(v, x, y)
}

impl GlyphRays {
    /// Whether deciding pixel `(x, y)` of the overlay stays within the glyph's number ranges,
    /// see [`overlay_pixel_ok`].
    fn overlay_pixel_fits(&self, x: u16, y: u8) -> (r: bool)
        requires
            x < self.width,
            y < self.height,
            self.height <= self.l2r@.len() && self.height <= self.r2l@.len(),
            self.height <= self.m2l@.len() && self.height <= self.m2r@.len(),
            self.width <= self.t2b@.len() && self.width <= self.b2t@.len(),
            self.width <= self.m2t@.len() && self.width <= self.m2b@.len(),
        ensures
            r == overlay_pixel_ok(self@, x as int, y as int),
    {
        let w = self.width;
        let h = self.height;
        let xi = x as usize;
        let yi = y as usize;
        if x < w - 1 && self.l2r[yi] == x {
            true
        } else if x > 0 && self.r2l[yi] < w && w - 1 - self.r2l[yi] == x {
            true
        } else if y < h - 1 && self.t2b[xi] == y {
            true
        } else if y > 0 && self.b2t[xi] < h && h - 1 - self.b2t[xi] == y {
            true
        } else if x > 0 && self.m2l[yi] > w / 2 {
            false
        } else if x > 0 && w / 2 - self.m2l[yi] == x {
            true
        } else if x > 0 && self.m2r[yi] as u32 + (w / 2) as u32 > 65535 {
            false
        } else if x > 0 && self.m2r[yi] + w / 2 == x {
            true
        } else if y > 0 && self.m2t[xi] > h / 2 {
            false
        } else if y > 0 && h / 2 - self.m2t[xi] == y {
            true
        } else {
            !(y < h - 1 && self.m2b[xi] as u16 + (h / 2) as u16 > 255)
        }
    }

    /// Whether the overlay can be drawn, see [`overlay_ok`].
    pub fn overlay_fits(&self) -> (r: bool)
        ensures
            r == overlay_ok(self@),
    {
        let w = self.width;
        let h = self.height;
        let wu = w as usize;
        let hu = h as usize;
        if !(hu <= self.l2r.len() && hu <= self.r2l.len() && hu <= self.m2l.len() && hu <= self.m2r.len()
            && wu <= self.t2b.len() && wu <= self.b2t.len() && wu <= self.m2t.len() && wu <= self.m2b.len()) {
            return false;
        }
        let mut y: u8 = 0;
        while (y as u16) < (h as u16)
            invariant
                y <= h,
                h == self.height,
                w == self.width,
                self.height <= self.l2r@.len() && self.height <= self.r2l@.len(),
                self.height <= self.m2l@.len() && self.height <= self.m2r@.len(),
                self.width <= self.t2b@.len() && self.width <= self.b2t@.len(),
                self.width <= self.m2t@.len() && self.width <= self.m2b@.len(),
                forall|i: int, j: int| 0 <= i < w && 0 <= j < y ==> #[trigger] overlay_pixel_ok(self@, i, j),
            decreases h - y,
        {
            let mut x: u16 = 0;
            while x < w
                invariant
                    x <= w,
                    y < h,
                    h == self.height,
                    w == self.width,
                    self.height <= self.l2r@.len() && self.height <= self.r2l@.len(),
                    self.height <= self.m2l@.len() && self.height <= self.m2r@.len(),
                    self.width <= self.t2b@.len() && self.width <= self.b2t@.len(),
                    self.width <= self.m2t@.len() && self.width <= self.m2b@.len(),
                    forall|i: int, j: int| 0 <= i < w && 0 <= j < y ==> #[trigger] overlay_pixel_ok(self@, i, j),
                    forall|i: int| 0 <= i < x ==> #[trigger] overlay_pixel_ok(self@, i, y as int),
                decreases w - x,
            {
                if !self.overlay_pixel_fits(x, y) {
                    return false;
                }
                x = x + 1;
            }
            y = y + 1;
            assert forall|i: int, j: int| 0 <= i < w && 0 <= j < y implies #[trigger] overlay_pixel_ok(self@, i, j) by {
                if j == y - 1 {
                    assert(overlay_pixel_ok(self@, i, j));
                }
            }
        }
        true
    }

    /// Decodes a glyph file, or `None` when it cannot be decoded (see [`parse_ok`]).
    pub fn checked_parse(bytes: &[u8]) -> (r: Option<GlyphRays>)
        ensures
            r is Some <==> parse_ok(bytes@),
            r matches Some(g) ==> g@ == rays_of(
                header_width(bytes@),
                header_height(bytes@),
                header_offset(bytes@),
                unpacked_grid(payload(bytes@), header_width(bytes@) as int, header_height(bytes@) as int),
            ) && g@.consistent(),
    {
        let n = bytes.len();
        let lo: u64 = if n >= 1 { bytes[0] as u64 } else { 0 };
        let hi: u64 = if n >= 2 { bytes[1] as u64 } else { 0 };
        let width: u64 = lo + 256 * hi;
        let height: u64 = if n >= 3 { bytes[2] as u64 } else { 0 };
        let len: u64 = if n >= 4 { (n - 4) as u64 } else { 0 };
        assert(width == header_width(bytes@) && height == header_height(bytes@));
        assert(len == payload(bytes@).len());
        assert(width * height <= 65535 * 255) by (nonlinear_arith)
            requires
                width <= 65535,
                height <= 255,
        ;
        let pixels = width * height;
        if pixels > u16::MAX as u64 {
            return None;
        }
        if len > (pixels + 7) / 8 {
            return None;
        }
        Some(GlyphRays::parse(bytes))
    }

    /// Every bit of `bytes`, most significant first.
    pub fn packed_bits(bytes: &[u8]) -> (r: Vec<bool>)
        requires
            bytes@.len() * 8 <= usize::MAX,
        ensures
            r@ == all_bits(bytes@),
    {
        let total = bytes.len() * 8;
        let mut r: Vec<bool> = Vec::new();
        let mut k: usize = 0;
        while k < total
            invariant
                k <= total,
                total == 8 * bytes@.len(),
                r@ =~= all_bits(bytes@).take(k as int),
            decreases total - k,
        {
            r.push(bytes[k / 8] & (0x80u8 >> ((k % 8) as u8)) != 0);
            k = k + 1;
        }
        r
    }

    /// The overlay picture, row by row: `r[y][x]` is [`overlay_mark`].
    pub fn overlay(&self) -> (r: Vec<Vec<bool>>)
        requires
            overlay_ok(self@),
        ensures
            r@.len() == self.height,
            forall|y: int| 0 <= y < self.height ==> (#[trigger] r@[y])@ == Seq::new(self.width as nat, |x: int| overlay_mark(self@, x, y)),
    {
        let ghost v = self@;
        let w = self.width;
        let h = self.height;
        let mut rows: Vec<Vec<bool>> = Vec::new();
        let mut y: u8 = 0;
        while (y as u16) < (h as u16)
            invariant
                v == self@,
                overlay_ok(v),
                w == v.width,
                h == v.height,
                y <= h,
                rows@.len() == y,
                forall|j: int| 0 <= j < y ==> (#[trigger] rows@[j])@ == Seq::new(w as nat, |x: int| overlay_mark(v, x, j)),
            decreases h - y,
        {
            let mut row: Vec<bool> = Vec::new();
            let mut x: u16 = 0;
            let yi = y as usize;
            while x < w
                invariant
                    v == self@,
                    overlay_ok(v),
                    w == v.width,
                    h == v.height,
                    y < h,
                    yi == y,
                    x <= w,
                    row@ =~= Seq::new(x as nat, |i: int| overlay_mark(v, i, y as int)),
                decreases w - x,
            {
                let xi = x as usize;
                assert(overlay_pixel_ok(v, xi as int, yi as int));
                let mark = if x < w - 1 && self.l2r[yi] == x {
                    true
                } else if x > 0 && self.r2l[yi] < w && w - 1 - self.r2l[yi] == x {
                    true
                } else if y < h - 1 && self.t2b[xi] == y {
                    true
                } else if y > 0 && self.b2t[xi] < h && h - 1 - self.b2t[xi] == y {
                    true
                } else if x > 0 && w / 2 - self.m2l[yi] == x {
                    true
                } else if x > 0 && self.m2r[yi] + w / 2 == x {
                    true
                } else if y > 0 && h / 2 - self.m2t[xi] == y {
                    true
                } else if y < h - 1 && self.m2b[xi] + h / 2 == y {
                    true
                } else {
                    false
                };
                row.push(mark);
                x = x + 1;
            }
            rows.push(row);
            y = y + 1;
        }
        rows
    }
}

} // verus!
