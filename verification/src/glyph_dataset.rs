use vstd::prelude::*;
use std::collections::HashMap;
use crate::glyph::Glyph;
use crate::glyph_rays::{
    GlyphRays, RaysView, average_ok, average_fits, byte_as_i8, scan_min, lengths_ok, seq_min, signed_byte_value, spec_average, views,
    width_total, height_total,
};
use crate::glyph_recognizer::{RayDeltaSums, delta_ok, glyph_score, ray_delta_sums, scorer_ok};

verus! {

broadcast use vstd::std_specs::hash::group_hash_axioms;

/// Reference glyphs grouped by height and width, and the texts that may appear in
/// overlapping glyphs.
pub struct GlyphDataset {
    glyph_dict: HashMap<u8, HashMap<u16, Vec<Glyph>>>,
    possible_overlaps: Vec<String>,
    size_keys: Vec<(u16, u8)>,
    pub min_width: u16,
}

/// A glyph that can be stored under width `w` and height `h`: its profiles have that size
/// and hold the entries that comparing glyphs reads.
pub open spec fn glyph_fits(g: Glyph, w: u16, h: u8) -> bool {
    &&& g.ray.width == w
    &&& g.ray.height == h
    &&& w >= 1
    &&& h >= 1
    &&& g.ray@.t2b.len() > 0 && g.ray@.b2t.len() > 0
    &&& g.ray@.m2b.len() > 0 && g.ray@.m2t.len() > 0
}

/// Every glyph of `gs` fits width `w` and height `h`.
pub open spec fn all_fit(gs: Seq<Glyph>, w: u16, h: u8) -> bool {
    forall|i: int| 0 <= i < gs.len() ==> glyph_fits(#[trigger] gs[i], w, h)
}

/// The profile vectors of a glyph have exactly its width and height.
pub open spec fn profiles_exact(r: RaysView) -> bool {
    &&& r.l2r.len() == r.height && r.r2l.len() == r.height
    &&& r.m2l.len() == r.height && r.m2r.len() == r.height
    &&& r.t2b.len() == r.width && r.b2t.len() == r.width
    &&& r.m2t.len() == r.width && r.m2b.len() == r.width
}

impl GlyphDataset {
    /// Every stored glyph has profile vectors of exactly its width and height.
    pub open spec fn all_exact(self) -> bool {
        forall|w: u16, h: u8, i: int|
            self.glyphs_at(w, h) is Some && 0 <= i < self.glyphs_at(w, h)->0.len() ==> #[trigger] profiles_exact(
                self.glyphs_at(w, h)->0[i].ray@,
            )
    }

    /// The smallest width that overlaps are scanned from (the `min_width` field).
    pub closed spec fn least_width(self) -> u16 {
        self.min_width
    }

    /// The glyphs stored for width `w` and height `h`.
    pub closed spec fn glyphs_at(self, w: u16, h: u8) -> Option<Seq<Glyph>> {
        if self.glyph_dict@.contains_key(h) && self.glyph_dict@[h]@.contains_key(w) {
            Some(self.glyph_dict@[h]@[w]@)
        } else {
            None
        }
    }

    /// The texts that may appear in overlapping glyphs.
    pub closed spec fn overlap_values(self) -> Seq<Seq<char>> {
        Seq::new(self.possible_overlaps@.len(), |i: int| self.possible_overlaps@[i]@)
    }

    /// Every stored glyph fits the width and height it is stored under, no text is listed
    /// twice among the overlap texts, and the sizes in storing order are exactly the stored
    /// sizes, each once.
    pub closed spec fn inv(self) -> bool {
        &&& forall|w: u16, h: u8|
            #[trigger] self.glyphs_at(w, h) is Some ==> all_fit(self.glyphs_at(w, h)->0, w, h)
        &&& forall|i: int, j: int|
            0 <= i < j < self.overlap_values().len() ==> self.overlap_values()[i] != self.overlap_values()[j]
        &&& forall|i: int, j: int| 0 <= i < j < self.size_order().len() ==> self.size_order()[i] != self.size_order()[j]
        &&& forall|w: u16, h: u8| #[trigger] self.glyphs_at(w, h) is Some <==> self.size_order().contains((w, h))
    }

    /// The sizes that glyphs are stored for, in the order they were first stored.
    pub closed spec fn size_order(self) -> Seq<(u16, u8)> {
        self.size_keys@
    }

    /// A stored glyph fits the width and height it is stored under.
    pub proof fn lemma_stored_glyph(self, w: u16, h: u8, i: int)
        requires
            self.inv(),
            self.glyphs_at(w, h) is Some,
            0 <= i < self.glyphs_at(w, h)->0.len(),
        ensures
            glyph_fits(self.glyphs_at(w, h)->0[i], w, h),
    {
        assert(all_fit(self.glyphs_at(w, h)->0, w, h));
    }

    /// The smallest width that overlaps are scanned from.
    pub fn smallest_width(&self) -> (r: u16)
        ensures
            r == self.least_width(),
    {
        self.min_width
    }

    /// The dataset with no glyphs and no overlap texts.
    pub fn new() -> (r: GlyphDataset)
        ensures
            r.inv(),
            forall|w: u16, h: u8| #[trigger] r.glyphs_at(w, h) is None,
            r.overlap_values() == Seq::<Seq<char>>::empty(),
            r.least_width() == u16::MAX,
            r.all_exact(),
    {
        let r = GlyphDataset {
            glyph_dict: HashMap::new(),
            possible_overlaps: Vec::new(),
            size_keys: Vec::new(),
            min_width: u16::MAX,
        };
        assert(r.overlap_values() =~= Seq::<Seq<char>>::empty());
        r
    }

    /// The glyphs stored for `width` and `height`.
    pub fn get(&self, width: &u16, height: &u8) -> (r: Option<&Vec<Glyph>>)
        ensures
            match r {
                Some(v) => self.glyphs_at(*width, *height) == Some(v@),
                None => self.glyphs_at(*width, *height) is None,
            },
    {
        match self.glyph_dict.get(height) {
            Some(d) => d.get(width),
            None => None,
        }
    }

    /// The glyphs of the first `k` sizes in the order the sizes were first stored, each with
    /// the width and height it is stored under.
    pub closed spec fn listed(self, k: int) -> Seq<(u16, u8, Glyph)>
        decreases k,
    {
        if k <= 0 || k > self.size_order().len() {
            Seq::empty()
        } else {
            let (w, h) = self.size_order()[k - 1];
            self.listed(k - 1) + stored(self, w, h).map_values(|g: Glyph| (w, h, g))
        }
    }

    /// Every stored glyph with its width and height, size by size in the order the sizes
    /// were first stored.
    pub closed spec fn entry_list(self) -> Seq<(u16, u8, Glyph)> {
        self.listed(self.size_order().len() as int)
    }

    proof fn lemma_listed_same(self, other: GlyphDataset, k: int)
        requires
            self.size_order() == other.size_order(),
            forall|w: u16, h: u8| #[trigger] self.glyphs_at(w, h) == other.glyphs_at(w, h),
        ensures
            self.listed(k) == other.listed(k),
        decreases k,
    {
        if 0 < k <= self.size_order().len() {
            self.lemma_listed_same(other, k - 1);
            let (w, h) = self.size_order()[k - 1];
            assert(stored(self, w, h) == stored(other, w, h));
        }
    }

    proof fn lemma_listed_has(self, k: int, p: int, i: int)
        requires
            0 <= p < k <= self.size_order().len(),
            0 <= i < stored(self, self.size_order()[p].0, self.size_order()[p].1).len(),
        ensures
            exists|m: int|
                0 <= m < self.listed(k).len() && self.listed(k)[m] == (
                    self.size_order()[p].0,
                    self.size_order()[p].1,
                    stored(self, self.size_order()[p].0, self.size_order()[p].1)[i],
                ),
        decreases k,
    {
        let (w, h) = self.size_order()[k - 1];
        let prev = self.listed(k - 1);
        let added = stored(self, w, h).map_values(|g: Glyph| (w, h, g));
        assert(self.listed(k) == prev + added);
        if p == k - 1 {
            let m = prev.len() + i;
            assert(self.listed(k)[m] == added[i]);
        } else {
            self.lemma_listed_has(k - 1, p, i);
            let m = choose|m: int|
                0 <= m < prev.len() && prev[m] == (
                    self.size_order()[p].0,
                    self.size_order()[p].1,
                    stored(self, self.size_order()[p].0, self.size_order()[p].1)[i],
                );
            assert(self.listed(k)[m] == prev[m]);
        }
    }

    proof fn lemma_listed_from(self, k: int, m: int)
        requires
            0 <= k <= self.size_order().len(),
            0 <= m < self.listed(k).len(),
        ensures
            stored(self, self.listed(k)[m].0, self.listed(k)[m].1).contains(self.listed(k)[m].2),
        decreases k,
    {
        if k > 0 {
            let (w, h) = self.size_order()[k - 1];
            let prev = self.listed(k - 1);
            let added = stored(self, w, h).map_values(|g: Glyph| (w, h, g));
            assert(self.listed(k) == prev + added);
            if m < prev.len() {
                self.lemma_listed_from(k - 1, m);
                assert(self.listed(k)[m] == prev[m]);
            } else {
                let j = m - prev.len();
                assert(self.listed(k)[m] == added[j]);
                assert(stored(self, w, h)[j] == self.listed(k)[m].2);
            }
        }
    }

    /// The listing of [`GlyphDataset::entries`] holds every stored glyph, with the width and
    /// height it is stored under.
    pub proof fn law_entries_cover(self, w: u16, h: u8, i: int)
        requires
            self.inv(),
            self.glyphs_at(w, h) is Some,
            0 <= i < self.glyphs_at(w, h)->0.len(),
        ensures
            exists|m: int|
                0 <= m < self.entry_list().len() && self.entry_list()[m] == (w, h, self.glyphs_at(w, h)->0[i]),
    {
        assert(self.size_order().contains((w, h)));
        let p = choose|p: int| 0 <= p < self.size_order().len() && self.size_order()[p] == (w, h);
        assert(stored(self, w, h) == self.glyphs_at(w, h)->0);
        let k = self.size_order().len() as int;
        self.lemma_listed_has(k, p, i);
        assert(self.entry_list() == self.listed(k));
        let m = choose|m: int| 0 <= m < self.listed(k).len() && self.listed(k)[m] == (w, h, stored(self, w, h)[i]);
        assert(self.entry_list()[m] == (w, h, self.glyphs_at(w, h)->0[i]));
    }

    /// Every entry of the listing of [`GlyphDataset::entries`] is a glyph stored under the
    /// width and height it is listed with.
    pub proof fn law_entries_stored(self, m: int)
        requires
            0 <= m < self.entry_list().len(),
        ensures
            self.glyphs_at(self.entry_list()[m].0, self.entry_list()[m].1) is Some,
            self.glyphs_at(self.entry_list()[m].0, self.entry_list()[m].1)->0.contains(self.entry_list()[m].2),
    {
        self.lemma_listed_from(self.size_order().len() as int, m);
    }

    /// Every stored glyph with the width and height it is stored under, size by size in the
    /// order the sizes were first stored.
    pub fn entries(&self) -> (r: Vec<(u16, u8, &Glyph)>)
        ensures
            r@.len() == self.entry_list().len(),
            forall|i: int|
                0 <= i < r@.len() ==> (#[trigger] r@[i]).0 == self.entry_list()[i].0 && r@[i].1 == self.entry_list()[i].1
                    && *r@[i].2 == self.entry_list()[i].2,
    {
        let mut r: Vec<(u16, u8, &Glyph)> = Vec::new();
        let mut k: usize = 0;
        while k < self.size_keys.len()
            invariant
                k <= self.size_order().len(),
                r@.len() == self.listed(k as int).len(),
                forall|i: int|
                    0 <= i < r@.len() ==> (#[trigger] r@[i]).0 == self.listed(k as int)[i].0 && r@[i].1
                        == self.listed(k as int)[i].1 && *r@[i].2 == self.listed(k as int)[i].2,
            decreases self.size_order().len() - k,
        {
            let (w, h) = self.size_keys[k];
            let ghost before = r@;
            let ghost prev = self.listed(k as int);
            let ghost added = stored(*self, w, h).map_values(|g: Glyph| (w, h, g));
            assert(self.listed(k + 1) == prev + added);
            match self.get(&w, &h) {
                Some(gs) => {
                    let mut j: usize = 0;
                    while j < gs.len()
                        invariant
                            j <= gs@.len(),
                            gs@ == stored(*self, w, h),
                            added == stored(*self, w, h).map_values(|g: Glyph| (w, h, g)),
                            r@.len() == prev.len() + j,
                            forall|i: int|
                                0 <= i < r@.len() ==> (#[trigger] r@[i]).0 == (prev + added)[i].0 && r@[i].1
                                    == (prev + added)[i].1 && *r@[i].2 == (prev + added)[i].2,
                        decreases gs@.len() - j,
                    {
                        r.push((w, h, &gs[j]));
                        j = j + 1;
                    }
                },
                None => {
                    assert(added.len() == 0);
                },
            }
            k = k + 1;
        }
        r
    }

    /// Whether `value` is one of the overlap texts.
    pub fn is_possible_overlap(&self, value: &String) -> (r: bool)
        ensures
            r == self.overlap_values().contains(value@),
    {
        let mut i: usize = 0;
        while i < self.possible_overlaps.len()
            invariant
                i <= self.possible_overlaps@.len(),
                forall|j: int| 0 <= j < i ==> self.overlap_values()[j] != value@,
            decreases self.possible_overlaps@.len() - i,
        {
            if self.possible_overlaps[i] == *value {
                assert(self.overlap_values()[i as int] == value@);
                return true;
            }
            i = i + 1;
        }
        false
    }

    /// Adds a text that may appear in overlapping glyphs, unless it is listed already.
    pub fn add_possible_overlap(&mut self, value: String)
        requires
            old(self).inv(),
        ensures
            final(self).inv(),
            forall|v: Seq<char>|
                #[trigger] final(self).overlap_values().contains(v) <==> old(self).overlap_values().contains(v)
                    || v == value@,
            forall|w: u16, h: u8| #[trigger] final(self).glyphs_at(w, h) == old(self).glyphs_at(w, h),
            final(self).least_width() == old(self).least_width(),
            final(self).entry_list() == old(self).entry_list(),
            final(self).all_exact() == old(self).all_exact(),
    {
        if !self.is_possible_overlap(&value) {
            let ghost old_values = self.overlap_values();
            let ghost v = value@;
            self.possible_overlaps.push(value);
            assert(self.overlap_values() =~= old_values.push(v));
            assert forall|u: Seq<char>| #[trigger] self.overlap_values().contains(u) <==> old_values.contains(u) || u == v by {
                if old_values.contains(u) {
                    let k = choose|k: int| 0 <= k < old_values.len() && old_values[k] == u;
                    assert(self.overlap_values()[k] == u);
                }
                if u == v {
                    assert(self.overlap_values()[old_values.len() as int] == u);
                }
            }
            assert forall|w: u16, h: u8| #[trigger] self.glyphs_at(w, h) is Some implies all_fit(self.glyphs_at(w, h)->0, w, h) by {
                assert(self.glyphs_at(w, h) == old(self).glyphs_at(w, h));
                assert(old(self).glyphs_at(w, h) is Some);
            }
            assert(self.size_order() == old(self).size_order());
            assert forall|w: u16, h: u8| #[trigger] self.glyphs_at(w, h) is Some <==> self.size_order().contains((w, h)) by {
                assert(self.glyphs_at(w, h) == old(self).glyphs_at(w, h));
            }
            proof {
                self.lemma_listed_same(*old(self), self.size_order().len() as int);
            }
            assert forall|i: int, j: int| 0 <= i < j < self.overlap_values().len() implies self.overlap_values()[i] != self.overlap_values()[j] by {
                if j == old_values.len() {
                    assert(old_values[i] == self.overlap_values()[i]);
                    assert(!old_values.contains(v));
                } else {
                    assert(old_values[i] == self.overlap_values()[i]);
                    assert(old_values[j] == self.overlap_values()[j]);
                }
            }
        }
        proof {
            assert forall|w: u16, h: u8, i: int|
                self.glyphs_at(w, h) is Some && 0 <= i < self.glyphs_at(w, h)->0.len() && old(self).all_exact() implies #[trigger] profiles_exact(
                self.glyphs_at(w, h)->0[i].ray@,
            ) by {
                assert(self.glyphs_at(w, h) == old(self).glyphs_at(w, h));
                assert(profiles_exact(old(self).glyphs_at(w, h)->0[i].ray@));
            }
            assert forall|w: u16, h: u8, i: int|
                old(self).glyphs_at(w, h) is Some && 0 <= i < old(self).glyphs_at(w, h)->0.len() && self.all_exact() implies #[trigger] profiles_exact(
                old(self).glyphs_at(w, h)->0[i].ray@,
            ) by {
                assert(self.glyphs_at(w, h) == old(self).glyphs_at(w, h));
                assert(profiles_exact(self.glyphs_at(w, h)->0[i].ray@));
            }
        }
    }
}


/// The glyph's top lies within two rows of `top`.
pub open spec fn offset_close(g: Glyph, top: int) -> bool {
    -2 <= g.ray.pixels_from_top - top <= 2
}

/// The values of a sequence of glyph references.
pub open spec fn deref_glyphs<'a>(s: Seq<&'a Glyph>) -> Seq<Glyph> {
    s.map_values(|g: &'a Glyph| *g)
}

impl GlyphDataset {
    /// The glyphs among the first `n` of `gs` whose text may appear in an overlap and whose
    /// top lies within two rows of `top`, in their order.
    pub open spec fn pick(self, gs: Seq<Glyph>, top: int, n: int) -> Seq<Glyph>
        decreases n,
    {
        if n <= 0 {
            Seq::empty()
        } else {
            let rest = self.pick(gs, top, n - 1);
            let g = gs[n - 1];
            if self.overlap_values().contains(g.value@) && offset_close(g, top) {
                rest.push(g)
            } else {
                rest
            }
        }
    }

    /// Comparing the tops of the glyphs of `gs` whose text may appear in an overlap with
    /// `top` stays within `i8`, and so does the distance's absolute value.
    pub open spec fn pick_ok(self, gs: Seq<Glyph>, top: int) -> bool {
        forall|i: int|
            0 <= i < gs.len() && self.overlap_values().contains(#[trigger] gs[i].value@) ==> -127
                <= gs[i].ray.pixels_from_top - top <= 127
    }

    /// The candidates found for the first `w` columns of an overlap.
    pub open spec fn candidates_at(self, overlap: RaysView, w: int) -> Seq<Glyph> {
        match self.glyphs_at(w as u16, valid_height(overlap, w) as u8) {
            Some(gs) => self.pick(gs, valid_top(overlap, w), gs.len() as int),
            None => Seq::empty(),
        }
    }

    /// The candidates found for the widths `[lo, hi)`, in order of width.
    pub open spec fn candidates_between(self, overlap: RaysView, lo: int, hi: int) -> Seq<Glyph>
        decreases hi - lo,
    {
        if hi <= lo {
            Seq::empty()
        } else {
            self.candidates_between(overlap, lo, hi - 1) + self.candidates_at(overlap, hi - 1)
        }
    }

    /// Scanning an overlap for candidates is defined: every width scanned has a top and a
    /// height, and comparing the tops stays within `i8`.
    pub open spec fn fuzzy_ok(self, overlap: RaysView) -> bool {
        forall|w: int|
            self.least_width() <= w <= overlap.width ==> {
                &&& #[trigger] valid_info_ok(overlap, w)
                &&& self.glyphs_at(w as u16, valid_height(overlap, w) as u8) matches Some(gs)
                    ==> self.pick_ok(gs, valid_top(overlap, w))
            }
    }

    /// The glyphs that may start an overlap: for each width from the smallest stored width
    /// up to the overlap's width, the stored glyphs of that width and of the height of that
    /// many leading columns, whose text may appear in an overlap and whose top lies within
    /// two rows of those columns' top.  `None` when there is none.
    pub open spec fn spec_fuzzy_get(self, overlap: RaysView) -> Option<Seq<Glyph>> {
        let c = self.candidates_between(overlap, self.least_width() as int, overlap.width + 1);
        if c.len() > 0 {
            Some(c)
        } else {
            None
        }
    }

    /// Whether scanning `overlap` for candidates is defined, see [`GlyphDataset::fuzzy_ok`].
    #[verifier::loop_isolation(false)]
    pub fn can_scan(&self, overlap: &GlyphRays) -> (r: bool)
        ensures
            r == self.fuzzy_ok(overlap@),
    {
        let ghost ov = overlap@;
        let ghost lo = self.least_width() as int;
        let mut width: u32 = self.min_width as u32;
        while width <= overlap.width as u32
            invariant
                ov == overlap@,
                lo == self.least_width(),
                lo <= width,
                width <= overlap.width + 1 || width == lo,
                forall|x: int|
                    lo <= x < width ==> {
                        &&& #[trigger] valid_info_ok(ov, x)
                        &&& self.glyphs_at(x as u16, valid_height(ov, x) as u8) matches Some(gs)
                            ==> self.pick_ok(gs, valid_top(ov, x))
                    },
            decreases overlap.width + 1 - width,
        {
            let w = width as u16;
            let wu = width as usize;
            if wu > overlap.t2b.len() || wu > overlap.b2t.len() {
                assert(!valid_info_ok(ov, w as int));
                return false;
            }
            let min_t2b = scan_min(&overlap.t2b, 0, wu);
            let min_b2t = scan_min(&overlap.b2t, 0, wu);
            let hh: i32 = overlap.height as i32 - min_b2t as i32 - min_t2b as i32;
            let top: i32 = overlap.pixels_from_top as i32 + signed_byte_value(min_t2b) as i32;
            if hh < 0 || top < -128 || top > 127 {
                assert(!valid_info_ok(ov, w as int));
                return false;
            }
            assert(valid_info_ok(ov, w as int));
            assert(top == valid_top(ov, w as int));
            assert(hh == valid_height(ov, w as int));
            let height = hh as u8;
            match self.get(&w, &height) {
                Some(gs) => {
                    let mut i: usize = 0;
                    while i < gs.len()
                        invariant
                            i <= gs@.len(),
                            forall|j: int|
                                0 <= j < i && self.overlap_values().contains(#[trigger] gs@[j].value@) ==> -127
                                    <= gs@[j].ray.pixels_from_top - top <= 127,
                        decreases gs@.len() - i,
                    {
                        if self.is_possible_overlap(&gs[i].value) {
                            let d: i32 = gs[i].ray.pixels_from_top as i32 - top;
                            if d < -127 || d > 127 {
                                assert(self.overlap_values().contains(gs@[i as int].value@));
                                assert(!self.pick_ok(gs@, valid_top(ov, w as int)));
                                assert(!valid_info_ok(ov, w as int) || !(self.glyphs_at(w, height) matches Some(g2) ==> self.pick_ok(g2, valid_top(ov, w as int))));
                                return false;
                            }
                        }
                        i = i + 1;
                    }
                    assert(self.pick_ok(gs@, valid_top(ov, w as int)));
                },
                None => {},
            }
            let ghost cur = width as int;
            assert(self.glyphs_at(cur as u16, valid_height(ov, cur) as u8) matches Some(g2) ==> self.pick_ok(g2, valid_top(ov, cur)));
            width = width + 1;
            assert forall|x: int|
                lo <= x < width implies {
                    &&& #[trigger] valid_info_ok(ov, x)
                    &&& self.glyphs_at(x as u16, valid_height(ov, x) as u8) matches Some(gs)
                        ==> self.pick_ok(gs, valid_top(ov, x))
                } by {
                if x == cur {
                    assert(valid_info_ok(ov, cur));
                    assert(self.glyphs_at(cur as u16, valid_height(ov, cur) as u8) matches Some(g2) ==> self.pick_ok(g2, valid_top(ov, cur)));
                } else {
                    assert(x < cur);
                    assert(valid_info_ok(ov, x));
                }
            }
        }
        true
    }

    /// The glyphs that may start the overlap, see [`GlyphDataset::spec_fuzzy_get`].
    pub fn fuzzy_get(&self, overlap: &GlyphRays) -> (r: Option<Vec<&Glyph>>)
        requires
            self.fuzzy_ok(overlap@),
        ensures
            match r {
                Some(v) => self.spec_fuzzy_get(overlap@) == Some(deref_glyphs(v@)),
                None => self.spec_fuzzy_get(overlap@) is None,
            },
    {
        let ghost ov = overlap@;
        let ghost lo = self.least_width() as int;
        let mut results: Vec<&Glyph> = Vec::new();
        let mut width: u32 = self.min_width as u32;
        while width <= overlap.width as u32
            invariant
                ov == overlap@,
                lo == self.least_width(),
                lo <= width <= overlap.width + 1 || (width == lo && lo > overlap.width),
                self.fuzzy_ok(ov),
                deref_glyphs(results@) =~= self.candidates_between(ov, lo, width as int),
            decreases overlap.width + 1 - width,
        {
            let w = width as u16;
            assert(valid_info_ok(ov, w as int));
            let (valid_top, height) = get_valid_info(overlap, w);
            let candidates = self.get(&w, &height);
            let ghost before = results@;
            match candidates {
                Some(candidates) => {
                    let ghost gs = candidates@;
                    assert(self.pick_ok(gs, valid_top as int));
                    let mut i: usize = 0;
                    while i < candidates.len()
                        invariant
                            i <= gs.len(),
                            gs == candidates@,
                            self.pick_ok(gs, valid_top as int),
                            deref_glyphs(results@) =~= deref_glyphs(before) + self.pick(gs, valid_top as int, i as int),
                        decreases gs.len() - i,
                    {
                        let candidate = &candidates[i];
                        let ghost prev = results@;
                        assert(gs[i as int] == *candidate);
                        if self.is_possible_overlap(&candidate.value) {
                            let d = candidate.ray.pixels_from_top as i16 - valid_top as i16;
                            if -2 <= d && d <= 2 {
                                results.push(candidate);
                                assert(deref_glyphs(results@) =~= deref_glyphs(prev).push(*candidate));
                            }
                        }
                        i = i + 1;
                        assert(self.pick(gs, valid_top as int, i as int) == (if self.overlap_values().contains(gs[i - 1].value@) && offset_close(gs[i - 1], valid_top as int) {
                            self.pick(gs, valid_top as int, i - 1).push(gs[i - 1])
                        } else {
                            self.pick(gs, valid_top as int, i - 1)
                        }));
                    }
                    assert(self.candidates_at(ov, width as int) == self.pick(gs, valid_top as int, gs.len() as int));
                },
                None => {
                    assert(self.candidates_at(ov, width as int) == Seq::<Glyph>::empty());
                },
            }
            width = width + 1;
        }
        assert(self.candidates_between(ov, lo, width as int) == self.candidates_between(ov, lo, overlap.width + 1));
        if results.len() > 0 {
            Some(results)
        } else {
            None
        }
    }
}


/// The samples of width `w` and height `h`, in order.
pub open spec fn of_size(s: Seq<RaysView>, w: u16, h: u8) -> Seq<RaysView>
    decreases s.len(),
{
    if s.len() == 0 {
        Seq::empty()
    } else {
        let rest = of_size(s.drop_last(), w, h);
        if s.last().width == w && s.last().height == h {
            rest.push(s.last())
        } else {
            rest
        }
    }
}

/// The largest score of the averaged profiles `avg` against the samples.
pub open spec fn max_score<F: Fn(RayDeltaSums) -> u32>(delta: F, avg: RaysView, group: Seq<RaysView>) -> int
    decreases group.len(),
{
    if group.len() == 0 {
        0
    } else if group.len() == 1 {
        glyph_score(delta, avg, group[0]) as int
    } else {
        let m = max_score(delta, avg, group.drop_last());
        let l = glyph_score(delta, avg, group.last()) as int;
        if l > m { l } else { m }
    }
}

/// The smallest width among the samples, or `u16::MAX`.
pub open spec fn least_sample_width(s: Seq<RaysView>) -> int
    decreases s.len(),
{
    if s.len() == 0 {
        u16::MAX as int
    } else {
        let m = least_sample_width(s.drop_last());
        if (s.last().width as int) < m { s.last().width as int } else { m }
    }
}

/// The samples of a glyph can be added: none is empty, their profiles cover their sizes,
/// and the samples of each size can be averaged.
pub open spec fn class_ok(s: Seq<RaysView>) -> bool {
    &&& forall|i: int| 0 <= i < s.len() ==> lengths_ok(#[trigger] s[i]) && s[i].width >= 1 && s[i].height >= 1
    &&& forall|w: u16, h: u8| #[trigger] of_size(s, w, h).len() > 0 ==> average_ok(of_size(s, w, h))
}

/// The glyph made from the samples `group` of one size: the text, the averaged profiles, and
/// the largest score of the average against the samples.
pub open spec fn class_glyph<F: Fn(RayDeltaSums) -> u32>(g: Glyph, value: Seq<char>, group: Seq<RaysView>, delta: F) -> bool {
    &&& g.value@ == value
    &&& g.ray@ == spec_average(group)
    &&& g.max_error == max_score(delta, spec_average(group), group)
}

proof fn lemma_of_size_member(s: Seq<RaysView>, w: u16, h: u8)
    ensures
        forall|i: int| 0 <= i < of_size(s, w, h).len() ==> {
            &&& (#[trigger] of_size(s, w, h)[i]).width == w
            &&& of_size(s, w, h)[i].height == h
            &&& s.contains(of_size(s, w, h)[i])
        },
    decreases s.len(),
{
    if s.len() > 0 {
        lemma_of_size_member(s.drop_last(), w, h);
        assert forall|i: int| 0 <= i < of_size(s, w, h).len() implies s.contains(#[trigger] of_size(s, w, h)[i]) by {
            if i < of_size(s.drop_last(), w, h).len() {
                let x = of_size(s.drop_last(), w, h)[i];
                assert(s.drop_last().contains(x));
                let k = choose|k: int| 0 <= k < s.drop_last().len() && s.drop_last()[k] == x;
                assert(s[k] == x);
            } else {
                assert(s[s.len() - 1] == s.last());
            }
        }
    }
}

proof fn lemma_totals_of_size(g: Seq<RaysView>, w: u16, h: u8, n: int)
    requires
        0 <= n <= g.len(),
        forall|i: int| 0 <= i < g.len() ==> (#[trigger] g[i]).width == w && g[i].height == h,
    ensures
        width_total(g, n) == n * w,
        height_total(g, n) == n * h,
    decreases n,
{
    if n > 0 {
        lemma_totals_of_size(g, w, h, n - 1);
        assert(g[n - 1].width == w && g[n - 1].height == h);
        assert(width_total(g, n) == width_total(g, n - 1) + w);
        assert(height_total(g, n) == height_total(g, n - 1) + h);
        let wi = w as int;
        let hi = h as int;
        assert(n * wi == (n - 1) * wi + wi) by (nonlinear_arith);
        assert(n * hi == (n - 1) * hi + hi) by (nonlinear_arith);
    } else {
        let wi = w as int;
        let hi = h as int;
        assert(n * wi == 0 && n * hi == 0) by (nonlinear_arith)
            requires
                n == 0,
        ;
    }
}

impl GlyphDataset {
    /// Appends `glyph` to the glyphs of its size.
    fn insert_glyph(&mut self, glyph: Glyph)
        requires
            old(self).inv(),
            glyph_fits(glyph, glyph.ray.width, glyph.ray.height),
        ensures
            final(self).inv(),
            final(self).overlap_values() == old(self).overlap_values(),
            final(self).least_width() == old(self).least_width(),
            forall|w: u16, h: u8|
                #![trigger final(self).glyphs_at(w, h)]
                !(w == glyph.ray.width && h == glyph.ray.height) ==> final(self).glyphs_at(w, h) == old(self).glyphs_at(w, h),
            final(self).glyphs_at(glyph.ray.width, glyph.ray.height) == Some(
                match old(self).glyphs_at(glyph.ray.width, glyph.ray.height) {
                    Some(gs) => gs,
                    None => Seq::<Glyph>::empty(),
                }.push(glyph),
            ),
    {
        let w = glyph.ray.width;
        let h = glyph.ray.height;
        let ghost olds = match self.glyphs_at(w, h) {
            Some(gs) => gs,
            None => Seq::<Glyph>::empty(),
        };
        let ghost old_dict = self.glyph_dict@;
        let mut inner = match self.glyph_dict.remove(&h) {
            Some(m) => m,
            None => HashMap::new(),
        };
        let ghost old_inner = inner@;
        let (mut list, fresh) = match inner.remove(&w) {
            Some(v) => (v, false),
            None => (Vec::new(), true),
        };
        assert(list@ == olds);
        assert(fresh == (old(self).glyphs_at(w, h) is None));
        list.push(glyph);
        inner.insert(w, list);
        self.glyph_dict.insert(h, inner);
        let ghost old_keys = self.size_keys@;
        if fresh {
            self.size_keys.push((w, h));
        }
        assert(self.size_order() == if fresh { old_keys.push((w, h)) } else { old_keys });
        assert(self.glyph_dict@ == old_dict.insert(h, inner));
        assert(self.overlap_values() == old(self).overlap_values());
        assert forall|w2: u16, h2: u8|
            #![trigger self.glyphs_at(w2, h2)]
            !(w2 == w && h2 == h) implies self.glyphs_at(w2, h2) == old(self).glyphs_at(w2, h2) by {
            if h2 == h {
                assert(inner@ == old_inner.remove(w).insert(w, list));
            }
        }
        assert forall|w2: u16, h2: u8| #[trigger] self.glyphs_at(w2, h2) is Some implies all_fit(self.glyphs_at(w2, h2)->0, w2, h2) by {
            if w2 == w && h2 == h {
                assert(self.glyphs_at(w, h) == Some(olds.push(glyph)));
                if old(self).glyphs_at(w, h) is Some {
                    assert(all_fit(old(self).glyphs_at(w, h)->0, w, h));
                }
                assert forall|i: int| 0 <= i < olds.push(glyph).len() implies glyph_fits(#[trigger] olds.push(glyph)[i], w, h) by {
                    if i < olds.len() {
                        assert(olds.push(glyph)[i] == olds[i]);
                    }
                }
            } else {
                assert(old(self).glyphs_at(w2, h2) is Some);
            }
        }
        assert forall|w2: u16, h2: u8| #[trigger] self.glyphs_at(w2, h2) is Some <==> self.size_order().contains((w2, h2)) by {
            if !(w2 == w && h2 == h) {
                assert(old(self).glyphs_at(w2, h2) is Some <==> old_keys.contains((w2, h2)));
                if fresh {
                    if old_keys.push((w, h)).contains((w2, h2)) {
                        let k = choose|k: int| 0 <= k < old_keys.push((w, h)).len() && old_keys.push((w, h))[k] == (w2, h2);
                        assert(k < old_keys.len());
                        assert(old_keys[k] == (w2, h2));
                    }
                    if old_keys.contains((w2, h2)) {
                        let k = choose|k: int| 0 <= k < old_keys.len() && old_keys[k] == (w2, h2);
                        assert(old_keys.push((w, h))[k] == (w2, h2));
                    }
                }
            } else if fresh {
                assert(old_keys.push((w, h))[old_keys.len() as int] == (w, h));
            }
        }
        assert forall|i: int, j: int| 0 <= i < j < self.size_order().len() implies self.size_order()[i] != self.size_order()[j] by {
            if fresh && j == old_keys.len() {
                assert(old(self).glyphs_at(w, h) is None);
                assert(old_keys[i] == self.size_order()[i]);
                assert(old_keys.contains(old_keys[i]));
            }
        }
    }
}


/// The views of a vector of sample groups.
pub open spec fn group_views(groups: Seq<Vec<GlyphRays>>) -> Seq<Seq<RaysView>> {
    Seq::new(groups.len(), |g: int| views(groups[g]@))
}

/// One of the first `k` keys is `(w, h)`.
pub open spec fn has_key(kw: Seq<u16>, kh: Seq<u8>, k: int, w: u16, h: u8) -> bool {
    exists|g: int| 0 <= g < k && kw[g] == w && kh[g] == h
}

/// `groups` holds, once each, the samples of every size present in `s`, under the keys
/// `kw`, `kh`.
pub open spec fn grouped(s: Seq<RaysView>, kw: Seq<u16>, kh: Seq<u8>, groups: Seq<Seq<RaysView>>) -> bool {
    &&& kw.len() == groups.len() && kh.len() == groups.len()
    &&& forall|g: int| 0 <= g < groups.len() ==> #[trigger] groups[g] == of_size(s, kw[g], kh[g]) && groups[g].len() > 0
    &&& forall|g1: int, g2: int| 0 <= g1 < g2 < groups.len() ==> !(kw[g1] == kw[g2] && kh[g1] == kh[g2])
    &&& forall|w: u16, h: u8| #[trigger] of_size(s, w, h).len() > 0 ==> has_key(kw, kh, groups.len() as int, w, h)
}

proof fn lemma_of_size_step(s: Seq<RaysView>, i: int, w: u16, h: u8)
    requires
        0 <= i < s.len(),
    ensures
        of_size(s.take(i + 1), w, h) == if s[i].width == w && s[i].height == h {
            of_size(s.take(i), w, h).push(s[i])
        } else {
            of_size(s.take(i), w, h)
        },
{
    assert(s.take(i + 1).drop_last() =~= s.take(i));
    assert(s.take(i + 1).last() == s[i]);
}

proof fn lemma_class_member(s: Seq<RaysView>, w: u16, h: u8, j: int)
    requires
        class_ok(s),
        0 <= j < of_size(s, w, h).len(),
    ensures
        lengths_ok(of_size(s, w, h)[j]),
        of_size(s, w, h)[j].width == w,
        of_size(s, w, h)[j].height == h,
        w >= 1,
        h >= 1,
{
    lemma_of_size_member(s, w, h);
    let x = of_size(s, w, h)[j];
    assert(s.contains(x));
    let k = choose|k: int| 0 <= k < s.len() && s[k] == x;
    assert(lengths_ok(s[k]) && s[k].width >= 1 && s[k].height >= 1);
}

proof fn lemma_of_size_take(s: Seq<RaysView>, j: int, w: u16, h: u8)
    requires
        0 <= j < s.len(),
    ensures
        of_size(s.take(j + 1), w, h) == if s[j].width == w && s[j].height == h {
            of_size(s.take(j), w, h).push(s[j])
        } else {
            of_size(s.take(j), w, h)
        },
{
    assert(s.take(j + 1).drop_last() =~= s.take(j));
    assert(s.take(j + 1).last() == s[j]);
}

proof fn lemma_of_size_has(s: Seq<RaysView>, i: int)
    requires
        0 <= i < s.len(),
    ensures
        of_size(s, s[i].width, s[i].height).len() > 0,
    decreases s.len(),
{
    if i < s.len() - 1 {
        lemma_of_size_has(s.drop_last(), i);
        assert(s.drop_last()[i] == s[i]);
    }
}

/// Copies of the samples of width `w` and height `h`, in order.
fn samples_of_size(samples: &Vec<GlyphRays>, w: u16, h: u8) -> (r: Vec<GlyphRays>)
    ensures
        views(r@) == of_size(views(samples@), w, h),
{
    let ghost s = views(samples@);
    let mut r: Vec<GlyphRays> = Vec::new();
    let mut j: usize = 0;
    assert(s.take(0) =~= Seq::<RaysView>::empty());
    assert(views(r@) =~= of_size(s.take(0), w, h));
    while j < samples.len()
        invariant
            j <= samples@.len(),
            s == views(samples@),
            views(r@) == of_size(s.take(j as int), w, h),
        decreases samples@.len() - j,
    {
        proof {
            lemma_of_size_take(s, j as int, w, h);
        }
        assert(s[j as int] == samples@[j as int]@);
        if samples[j].width == w && samples[j].height == h {
            let ghost before = r@;
            r.push(samples[j].copy());
            assert(views(r@) =~= views(before).push(s[j as int]));
        }
        j = j + 1;
    }
    assert(s.take(samples@.len() as int) =~= s);
    r
}

/// Whether the samples can be added by [`GlyphDataset::add_class`], see [`class_ok`].
pub fn class_fits(samples: &Vec<GlyphRays>) -> (r: bool)
    ensures
        r == class_ok(views(samples@)),
{
    let ghost all = views(samples@);
    let mut i: usize = 0;
    while i < samples.len()
        invariant
            i <= samples@.len(),
            all == views(samples@),
            forall|j: int| 0 <= j < i ==> lengths_ok(#[trigger] all[j]) && all[j].width >= 1 && all[j].height >= 1,
        decreases samples@.len() - i,
    {
        let g = &samples[i];
        assert(all[i as int] == g@);
        if !g.lengths_fit() || g.width < 1 || g.height < 1 {
            return false;
        }
        i = i + 1;
    }
    let mut i: usize = 0;
    while i < samples.len()
        invariant
            i <= samples@.len(),
            all == views(samples@),
            forall|j: int| 0 <= j < i ==> average_ok(of_size(all, #[trigger] all[j].width, all[j].height)),
        decreases samples@.len() - i,
    {
        assert(all[i as int] == samples@[i as int]@);
        let group = samples_of_size(samples, samples[i].width, samples[i].height);
        if !average_fits(&group) {
            proof {
                lemma_of_size_has(all, i as int);
            }
            assert(of_size(all, all[i as int].width, all[i as int].height).len() > 0);
            return false;
        }
        i = i + 1;
    }
    proof {
        assert forall|w: u16, h: u8| #[trigger] of_size(all, w, h).len() > 0 implies average_ok(of_size(all, w, h)) by {
            lemma_of_size_member(all, w, h);
            let g0 = of_size(all, w, h)[0];
            assert(all.contains(g0));
            let k = choose|k: int| 0 <= k < all.len() && all[k] == g0;
            assert(all[k].width == w && all[k].height == h);
        }
    }
    true
}

/// Splits the samples into groups of one size each, in order of first appearance; also the
/// smallest sample width (at most `least`).
fn group_by_size(samples: Vec<GlyphRays>, least: u16) -> (r: (Vec<u16>, Vec<u8>, Vec<Vec<GlyphRays>>, u16))
    ensures
        grouped(views(samples@), r.0@, r.1@, group_views(r.2@)),
        r.3 == if (least as int) < least_sample_width(views(samples@)) {
            least as int
        } else {
            least_sample_width(views(samples@))
        },
{
    let ghost all = views(samples@);
    let total = samples.len();
    let mut rest = samples;
    let mut kw: Vec<u16> = Vec::new();
    let mut kh: Vec<u8> = Vec::new();
    let mut groups: Vec<Vec<GlyphRays>> = Vec::new();
    let mut smallest = least;
    let mut i: usize = 0;
    while i < total
        invariant
            0 <= i <= total,
            total == all.len(),
            views(rest@) == all.skip(i as int),
            rest@.len() == total - i,
            grouped(all.take(i as int), kw@, kh@, group_views(groups@)),
            smallest == if (least as int) < least_sample_width(all.take(i as int)) {
                least as int
            } else {
                least_sample_width(all.take(i as int))
            },
        decreases total - i,
    {
        let ghost before = rest@;
        let ghost prefix = all.take(i as int);
        let ghost old_groups = group_views(groups@);
        let ghost old_kw = kw@;
        let ghost old_kh = kh@;
        let x = rest.remove(0);
        let xw = x.width;
        let xh = x.height;
        let ghost xv = x@;
        assert(x@ == views(before)[0]);
        assert(x@ == all[i as int]);
        assert(views(rest@) =~= all.skip(i + 1)) by {
            assert(rest@ =~= before.drop_first());
            assert forall|k: int| 0 <= k < views(rest@).len() implies views(rest@)[k] == all.skip(i + 1)[k] by {
                assert(views(before)[k + 1] == all.skip(i as int)[k + 1]);
            }
        }
        assert(all.take(i + 1).drop_last() =~= prefix);
        if x.width < smallest {
            smallest = x.width;
        }
        let mut found = false;
        let mut g: usize = 0;
        while g < kw.len() && !found
            invariant
                kw@ == old_kw,
                kh@ == old_kh,
                kw@.len() == kh@.len(),
                0 <= g <= kw@.len(),
                !found ==> forall|j: int| 0 <= j < g ==> !(kw@[j] == x.width && kh@[j] == x.height),
                found ==> g < kw@.len() && kw@[g as int] == x.width && kh@[g as int] == x.height,
            decreases kw@.len() - g + (if found { 0int } else { 1int }),
        {
            if kw[g] == x.width && kh[g] == x.height {
                found = true;
            } else {
                g = g + 1;
            }
        }
        proof {
            assert forall|w: u16, h: u8| true implies #[trigger] of_size(all.take(i + 1), w, h) == if x@.width == w && x@.height == h {
                of_size(prefix, w, h).push(x@)
            } else {
                of_size(prefix, w, h)
            } by {
                lemma_of_size_step(all, i as int, w, h);
            }
        }
        let ghost old_raw = groups@;
        if found {
            let mut grp = groups.remove(g);
            grp.push(x);
            groups.insert(g, grp);
            proof {
                assert(groups@ =~= old_raw.update(g as int, grp));
                assert(views(grp@) =~= old_groups[g as int].push(xv));
                assert(group_views(groups@) =~= old_groups.update(g as int, old_groups[g as int].push(xv)));
            }
        } else {
            let mut grp: Vec<GlyphRays> = Vec::new();
            grp.push(x);
            kw.push(xw);
            kh.push(xh);
            groups.push(grp);
            proof {
                assert(views(grp@) =~= seq![xv]);
                assert(group_views(groups@) =~= old_groups.push(seq![xv]));
                assert(!has_key(old_kw, old_kh, old_groups.len() as int, xw, xh));
                assert(of_size(prefix, xw, xh).len() == 0);
                assert(of_size(prefix, xw, xh).push(xv) =~= seq![xv]);
            }
        }
        proof {
            let ng = group_views(groups@);
            let s2 = all.take(i + 1);
            assert forall|j: int| 0 <= j < ng.len() implies #[trigger] ng[j] == of_size(s2, kw@[j], kh@[j]) && ng[j].len() > 0 by {
                if j < old_groups.len() {
                    assert(old_groups[j] == of_size(prefix, old_kw[j], old_kh[j]));
                    assert(kw@[j] == old_kw[j] && kh@[j] == old_kh[j]);
                    assert(of_size(s2, kw@[j], kh@[j]) == (if xv.width == kw@[j] && xv.height == kh@[j] {
                        of_size(prefix, kw@[j], kh@[j]).push(xv)
                    } else {
                        of_size(prefix, kw@[j], kh@[j])
                    }));
                }
            }
            assert forall|w: u16, h: u8| #[trigger] of_size(s2, w, h).len() > 0 implies has_key(kw@, kh@, ng.len() as int, w, h) by {
                assert(of_size(s2, w, h) == (if xv.width == w && xv.height == h {
                    of_size(prefix, w, h).push(xv)
                } else {
                    of_size(prefix, w, h)
                }));
                if xv.width == w && xv.height == h {
                    if found {
                        assert(kw@[g as int] == w && kh@[g as int] == h);
                    } else {
                        assert(kw@[old_kw.len() as int] == w && kh@[old_kw.len() as int] == h);
                    }
                } else {
                    assert(of_size(prefix, w, h).len() > 0);
                    assert(has_key(old_kw, old_kh, old_groups.len() as int, w, h));
                    let q = choose|q: int| 0 <= q < old_groups.len() && old_kw[q] == w && old_kh[q] == h;
                    assert(kw@[q] == w && kh@[q] == h);
                }
            }
            assert(least_sample_width(s2) == if (xv.width as int) < least_sample_width(prefix) {
                xv.width as int
            } else {
                least_sample_width(prefix)
            });
        }
        i = i + 1;
    }
    assert(all.take(total as int) =~= all);
    (kw, kh, groups, smallest)
}


/// The glyph made from `group`, the samples of width `w` and height `h`, see [`class_glyph`].
fn glyph_of_group<F: Fn(RayDeltaSums) -> u32>(value: &String, group: &Vec<GlyphRays>, w: u16, h: u8, delta: &F) -> (g: Glyph)
    requires
        scorer_ok(*delta),
        group@.len() > 0,
        average_ok(views(group@)),
        w >= 1,
        h >= 1,
        forall|j: int| 0 <= j < group@.len() ==> lengths_ok(#[trigger] group@[j]@) && group@[j].width == w && group@[j].height == h,
    ensures
        class_glyph(g, value@, views(group@), *delta),
        glyph_fits(g, w, h),
{
    let ghost s = views(group@);
    let n = group.len();
    let avg = GlyphRays::average(group);
    proof {
        assert forall|i: int| 0 <= i < s.len() implies (#[trigger] s[i]).width == w && s[i].height == h by {
            assert(s[i] == group@[i]@);
        }
        lemma_totals_of_size(s, w, h, n as int);
        vstd::arithmetic::div_mod::lemma_div_multiples_vanish(w as int, n as int);
        vstd::arithmetic::div_mod::lemma_div_multiples_vanish(h as int, n as int);
        assert(s[0] == group@[0]@);
        assert(lengths_ok(group@[0]@));
    }
    assert(avg.width == w && avg.height == h);
    let mut i: usize = 1;
    assert(group@[0]@ == s[0]);
    assert(lengths_ok(s[0]));
    let mut max_error = delta(ray_delta_sums(&avg, &group[0]));
    assert(s.take(1) =~= seq![s[0]]);
    while i < n
        invariant
            1 <= i <= n,
            n == group@.len(),
            s == views(group@),
            scorer_ok(*delta),
            avg@ == spec_average(s),
            avg.width == w && avg.height == h,
            w >= 1 && h >= 1,
            avg@.t2b.len() > 0 && avg@.b2t.len() > 0 && avg@.m2b.len() > 0 && avg@.m2t.len() > 0,
            forall|j: int| 0 <= j < group@.len() ==> lengths_ok(#[trigger] group@[j]@) && group@[j].width == w && group@[j].height == h,
            max_error == max_score(*delta, avg@, s.take(i as int)),
        decreases n - i,
    {
        assert(lengths_ok(group@[i as int]@));
        let d = delta(ray_delta_sums(&avg, &group[i]));
        assert(s.take(i + 1).drop_last() =~= s.take(i as int));
        assert(s.take(i + 1).last() == s[i as int]);
        if d > max_error {
            max_error = d;
        }
        i = i + 1;
    }
    assert(s.take(n as int) =~= s);
    Glyph { value: value.clone(), max_error, ray: avg }
}

/// The glyphs stored for width `w` and height `h`, none when there are none.
pub open spec fn stored(ds: GlyphDataset, w: u16, h: u8) -> Seq<Glyph> {
    match ds.glyphs_at(w, h) {
        Some(gs) => gs,
        None => Seq::empty(),
    }
}

/// `new` stores for width `w` and height `h` the glyphs `old` stores there followed by the
/// glyph made from `group` (see [`class_glyph`]).
pub open spec fn class_added<F: Fn(RayDeltaSums) -> u32>(
    new: GlyphDataset,
    old: GlyphDataset,
    w: u16,
    h: u8,
    value: Seq<char>,
    group: Seq<RaysView>,
    delta: F,
) -> bool {
    &&& new.glyphs_at(w, h) is Some
    &&& new.glyphs_at(w, h)->0.len() == stored(old, w, h).len() + 1
    &&& new.glyphs_at(w, h)->0.drop_last() == stored(old, w, h)
    &&& class_glyph(new.glyphs_at(w, h)->0.last(), value, group, delta)
}

impl GlyphDataset {
    /// Adds the samples of one glyph text: the samples of each size are averaged into a new
    /// glyph appended to the glyphs of that size, and the smallest width is lowered to the
    /// smallest sample width.
    pub fn add_class<F: Fn(RayDeltaSums) -> u32>(&mut self, value: String, samples: Vec<GlyphRays>, delta: &F)
        requires
            old(self).inv(),
            scorer_ok(*delta),
            class_ok(views(samples@)),
        ensures
            final(self).inv(),
            final(self).overlap_values() == old(self).overlap_values(),
            final(self).least_width() == if (old(self).least_width() as int) < least_sample_width(views(samples@)) {
                old(self).least_width() as int
            } else {
                least_sample_width(views(samples@))
            },
            forall|w: u16, h: u8|
                #![trigger final(self).glyphs_at(w, h)]
                of_size(views(samples@), w, h).len() == 0 ==> final(self).glyphs_at(w, h) == old(self).glyphs_at(w, h),
            forall|w: u16, h: u8|
                #![trigger final(self).glyphs_at(w, h)]
                of_size(views(samples@), w, h).len() > 0 ==> class_added(
                    *final(self),
                    *old(self),
                    w,
                    h,
                    value@,
                    of_size(views(samples@), w, h),
                    *delta,
                ),
            old(self).all_exact() && (forall|i: int| 0 <= i < samples@.len() ==> #[trigger] profiles_exact(samples@[i]@))
                ==> final(self).all_exact(),
    {
        let ghost all = views(samples@);
        let (kw, kh, groups, smallest) = group_by_size(samples, self.min_width);
        let ghost gv = group_views(groups@);
        let mut k: usize = 0;
        while k < groups.len()
            invariant
                0 <= k <= groups@.len(),
                gv == group_views(groups@),
                grouped(all, kw@, kh@, gv),
                class_ok(all),
                scorer_ok(*delta),
                self.inv(),
                self.overlap_values() == old(self).overlap_values(),
                self.least_width() == old(self).least_width(),
                forall|w: u16, h: u8|
                    #![trigger self.glyphs_at(w, h)]
                    !has_key(kw@, kh@, k as int, w, h) ==> self.glyphs_at(w, h) == old(self).glyphs_at(w, h),
                forall|w: u16, h: u8|
                    #![trigger self.glyphs_at(w, h)]
                    has_key(kw@, kh@, k as int, w, h) ==> class_added(*self, *old(self), w, h, value@, of_size(all, w, h), *delta),
            decreases groups@.len() - k,
        {
            let w = kw[k];
            let h = kh[k];
            let ghost group = gv[k as int];
            assert(group == of_size(all, w, h) && group.len() > 0);
            assert(views(groups@[k as int]@) == group);
            proof {
                lemma_class_member(all, w, h, 0);
                assert forall|j: int| 0 <= j < groups@[k as int]@.len() implies lengths_ok(#[trigger] groups@[k as int]@[j]@)
                    && groups@[k as int]@[j].width == w && groups@[k as int]@[j].height == h by {
                    lemma_class_member(all, w, h, j);
                    assert(group[j] == groups@[k as int]@[j]@);
                }
            }
            let glyph = glyph_of_group(&value, &groups[k], w, h, delta);
            let ghost before = *self;
            self.insert_glyph(glyph);
            proof {
                assert forall|w2: u16, h2: u8|
                    #![trigger self.glyphs_at(w2, h2)]
                    !has_key(kw@, kh@, k + 1, w2, h2) implies self.glyphs_at(w2, h2) == old(self).glyphs_at(w2, h2) by {
                    assert(!(w2 == w && h2 == h));
                    assert(!has_key(kw@, kh@, k as int, w2, h2));
                    assert(before.glyphs_at(w2, h2) == old(self).glyphs_at(w2, h2));
                }
                assert forall|w2: u16, h2: u8|
                    #![trigger self.glyphs_at(w2, h2)]
                    has_key(kw@, kh@, k + 1, w2, h2) implies class_added(*self, *old(self), w2, h2, value@, of_size(all, w2, h2), *delta) by {
                    if w2 == w && h2 == h {
                        assert(!has_key(kw@, kh@, k as int, w, h));
                        assert(before.glyphs_at(w, h) == old(self).glyphs_at(w, h));
                        assert(self.glyphs_at(w, h)->0.drop_last() =~= stored(*old(self), w, h));
                    } else {
                        let q = choose|q: int| 0 <= q < k + 1 && kw@[q] == w2 && kh@[q] == h2;
                        assert(q != k);
                        assert(has_key(kw@, kh@, k as int, w2, h2));
                        assert(class_added(before, *old(self), w2, h2, value@, of_size(all, w2, h2), *delta));
                        assert(self.glyphs_at(w2, h2) == before.glyphs_at(w2, h2));
                    }
                }
            }
            k = k + 1;
        }
        let ghost done = *self;
        self.min_width = smallest;
        proof {
            assert forall|w: u16, h: u8| #[trigger] self.glyphs_at(w, h) == done.glyphs_at(w, h) by {}
            assert(self.overlap_values() == done.overlap_values());
            assert(self.size_order() == done.size_order());
            assert forall|w: u16, h: u8| #[trigger] of_size(all, w, h).len() > 0 <==> has_key(kw@, kh@, gv.len() as int, w, h) by {
                if has_key(kw@, kh@, gv.len() as int, w, h) {
                    let q = choose|q: int| 0 <= q < gv.len() && kw@[q] == w && kh@[q] == h;
                    assert(gv[q] == of_size(all, kw@[q], kh@[q]));
                }
            }
            if old(self).all_exact() && (forall|i: int| 0 <= i < samples@.len() ==> #[trigger] profiles_exact(samples@[i]@)) {
                assert forall|w: u16, h: u8, i: int|
                    self.glyphs_at(w, h) is Some && 0 <= i < self.glyphs_at(w, h)->0.len() implies #[trigger] profiles_exact(
                    self.glyphs_at(w, h)->0[i].ray@,
                ) by {
                    let group = of_size(all, w, h);
                    if group.len() == 0 {
                        assert(self.glyphs_at(w, h) == old(self).glyphs_at(w, h));
                        assert(profiles_exact(old(self).glyphs_at(w, h)->0[i].ray@));
                    } else {
                        assert(class_added(*self, *old(self), w, h, value@, group, *delta));
                        let gs = self.glyphs_at(w, h)->0;
                        if i < gs.len() - 1 {
                            assert(gs[i] == gs.drop_last()[i]);
                            assert(stored(*old(self), w, h).len() > 0);
                            assert(old(self).glyphs_at(w, h) is Some);
                            assert(profiles_exact(old(self).glyphs_at(w, h)->0[i].ray@));
                        } else {
                            lemma_of_size_member(all, w, h);
                            assert forall|j: int| 0 <= j < group.len() implies (#[trigger] group[j]).width == w
                                && group[j].height == h && profiles_exact(group[j]) by {
                                assert(all.contains(group[j]));
                                let k = choose|k: int| 0 <= k < all.len() && all[k] == group[j];
                                assert(all[k] == samples@[k]@);
                                assert(profiles_exact(samples@[k]@));
                            }
                            lemma_average_exact(group, w, h);
                            assert(gs[i] == gs.last());
                        }
                    }
                }
            }
        }
    }
}

/// The average of samples of one size whose profile vectors have exactly that size has that
/// size and such profile vectors too.
proof fn lemma_average_exact(g: Seq<RaysView>, w: u16, h: u8)
    requires
        g.len() >= 1,
        forall|i: int| 0 <= i < g.len() ==> (#[trigger] g[i]).width == w && g[i].height == h && profiles_exact(g[i]),
    ensures
        spec_average(g).width == w,
        spec_average(g).height == h,
        profiles_exact(spec_average(g)),
{
    let n = g.len() as int;
    lemma_totals_of_size(g, w, h, n);
    let wi = w as int;
    let hi = h as int;
    assert((n * wi) / n == wi) by (nonlinear_arith)
        requires
            n >= 1,
    ;
    assert((n * hi) / n == hi) by (nonlinear_arith)
        requires
            n >= 1,
    ;
    assert(profiles_exact(g[0]));
}

/// The top of the first `width` columns of an overlap: its offset moved down by the rows
/// above their topmost pixel.
pub open spec fn valid_top(overlap: RaysView, width: int) -> int {
    overlap.pixels_from_top + byte_as_i8(seq_min(overlap.t2b, 0, width) as u8)
}

/// The height of the first `width` columns of an overlap, cropped to their pixels.
pub open spec fn valid_height(overlap: RaysView, width: int) -> int {
    overlap.height - seq_min(overlap.b2t, 0, width) - seq_min(overlap.t2b, 0, width)
}

/// The top and height of the first `width` columns can be computed: the profiles cover
/// them, the crop leaves a height of at least zero and the top fits in `i8`.
pub open spec fn valid_info_ok(overlap: RaysView, width: int) -> bool {
    &&& width <= overlap.t2b.len()
    &&& width <= overlap.b2t.len()
    &&& valid_height(overlap, width) >= 0
    &&& -128 <= valid_top(overlap, width) <= 127
}

/// The top and height of the glyph in the first `width` columns of `overlap`.
fn get_valid_info(overlap: &GlyphRays, width: u16) -> (r: (i8, u8))
    requires
        valid_info_ok(overlap@, width as int),
    ensures
        r.0 == valid_top(overlap@, width as int),
        r.1 == valid_height(overlap@, width as int),
{
    let mut min_t2b: u8 = 255;
    let mut min_b2t: u8 = 255;
    let mut i: usize = 0;
    while i < width as usize
        invariant
            i <= width,
            width <= overlap@.t2b.len(),
            width <= overlap@.b2t.len(),
            min_t2b == seq_min(overlap@.t2b, 0, i as int),
            min_b2t == seq_min(overlap@.b2t, 0, i as int),
        decreases width - i,
    {
        if overlap.t2b[i] < min_t2b {
            min_t2b = overlap.t2b[i];
        }
        if overlap.b2t[i] < min_b2t {
            min_b2t = overlap.b2t[i];
        }
        i = i + 1;
    }
    let top = overlap.pixels_from_top + signed_byte_value(min_t2b);
    let height = overlap.height - min_b2t - min_t2b;
    (top, height)
}

} // verus!
