use vstd::prelude::*;
use trees::{Node, Tree};
use crate::glyph::Glyph;
use crate::glyph_dataset::{GlyphDataset, deref_glyphs};
use crate::glyph_rays::{GlyphRays, RaysView, spec_sub_glyph, sub_glyph_ok};
use crate::sample_names::char_to_string;

verus! {

/// Entry `index` of a profile stretched past its end: indices up to `stretch` past the last
/// entry repeat it, later ones read as `max_value`.
pub open spec fn stretched16(l: Seq<u16>, index: int, max_value: int, stretch: int) -> int {
    if index < l.len() + stretch {
        if index < l.len() - 1 { l[index] as int } else { l[l.len() - 1] as int }
    } else {
        max_value
    }
}

pub open spec fn stretched8(l: Seq<u8>, index: int, max_value: int, stretch: int) -> int {
    if index < l.len() + stretch {
        if index < l.len() - 1 { l[index] as int } else { l[l.len() - 1] as int }
    } else {
        max_value
    }
}

pub open spec fn abs_diff(a: int, b: int) -> int {
    if a > b { a - b } else { b - a }
}

/// The difference of two row profiles at `index`.
fn get_vec_delta(l: &Vec<u16>, r: &Vec<u16>, index: usize, max_value: u16, stretch_limit: usize) -> (d: u16)
    requires
        index < l@.len() + stretch_limit ==> l@.len() > 0,
        index < r@.len() + stretch_limit ==> r@.len() > 0,
    ensures
        d == abs_diff(
            stretched16(l@, index as int, max_value as int, stretch_limit as int),
            stretched16(r@, index as int, max_value as int, stretch_limit as int),
        ),
{
    let left = if index < stretch_limit || index - stretch_limit < l.len() {
        l[if index < l.len() - 1 { index } else { l.len() - 1 }]
    } else {
        max_value
    };
    let right = if index < stretch_limit || index - stretch_limit < r.len() {
        r[if index < r.len() - 1 { index } else { r.len() - 1 }]
    } else {
        max_value
    };
    if right > left {
        right - left
    } else {
        left - right
    }
}

/// The difference of two column profiles at `index`.
fn get_vec_delta_u8(l: &Vec<u8>, r: &Vec<u8>, index: usize, max_value: u8, stretch_limit: usize) -> (d: u8)
    requires
        index < l@.len() + stretch_limit ==> l@.len() > 0,
        index < r@.len() + stretch_limit ==> r@.len() > 0,
    ensures
        d == abs_diff(
            stretched8(l@, index as int, max_value as int, stretch_limit as int),
            stretched8(r@, index as int, max_value as int, stretch_limit as int),
        ),
{
    let left = if index < stretch_limit || index - stretch_limit < l.len() {
        l[if index < l.len() - 1 { index } else { l.len() - 1 }]
    } else {
        max_value
    };
    let right = if index < stretch_limit || index - stretch_limit < r.len() {
        r[if index < r.len() - 1 { index } else { r.len() - 1 }]
    } else {
        max_value
    };
    if right > left {
        right - left
    } else {
        left - right
    }
}

/// The integer parts of the difference between two glyphs: the summed differences of their
/// row profiles and of their column profiles, and the largest width and height less one.
#[derive(Clone, Copy, PartialEq, Eq, Structural, Debug)]
pub struct RayDeltaSums {
    pub horizontal: u64,
    pub vertical: u64,
    pub max_width: u16,
    pub max_height: u8,
}

/// The difference of the row profiles of two glyphs in row `y`.
pub open spec fn row_delta(a: RaysView, b: RaysView, y: int, mw: int) -> int {
    abs_diff(stretched16(a.l2r, y, mw, 0), stretched16(b.l2r, y, mw, 0))
        + abs_diff(stretched16(a.r2l, y, mw, 0), stretched16(b.r2l, y, mw, 0))
        + abs_diff(stretched16(a.m2r, y, mw / 2, 0), stretched16(b.m2r, y, mw / 2, 0))
        + abs_diff(stretched16(a.m2l, y, mw / 2, 0), stretched16(b.m2l, y, mw / 2, 0))
}

/// The difference of the column profiles of two glyphs in column `x`, each profile
/// stretched by two entries.
pub open spec fn col_delta(a: RaysView, b: RaysView, x: int, mh: int) -> int {
    abs_diff(stretched8(a.t2b, x, mh, 2), stretched8(b.t2b, x, mh, 2))
        + abs_diff(stretched8(a.b2t, x, mh, 2), stretched8(b.b2t, x, mh, 2))
        + abs_diff(stretched8(a.m2b, x, mh / 2, 2), stretched8(b.m2b, x, mh / 2, 2))
        + abs_diff(stretched8(a.m2t, x, mh / 2, 2), stretched8(b.m2t, x, mh / 2, 2))
}

pub open spec fn row_delta_sum(a: RaysView, b: RaysView, n: int, mw: int) -> int
    decreases n,
{
    if n <= 0 {
        0
    } else {
        row_delta_sum(a, b, n - 1, mw) + row_delta(a, b, n - 1, mw)
    }
}

pub open spec fn col_delta_sum(a: RaysView, b: RaysView, n: int, mh: int) -> int
    decreases n,
{
    if n <= 0 {
        0
    } else {
        col_delta_sum(a, b, n - 1, mh) + col_delta(a, b, n - 1, mh)
    }
}

/// Two glyphs can be compared: neither is empty, and their column profiles hold entries.
pub open spec fn delta_ok(a: RaysView, b: RaysView) -> bool {
    &&& a.width >= 1 || b.width >= 1
    &&& a.height >= 1 || b.height >= 1
    &&& a.t2b.len() > 0 && a.b2t.len() > 0 && a.m2b.len() > 0 && a.m2t.len() > 0
    &&& b.t2b.len() > 0 && b.b2t.len() > 0 && b.m2b.len() > 0 && b.m2t.len() > 0
}

pub open spec fn max_int(a: int, b: int) -> int {
    if a >= b { a } else { b }
}

/// The integer parts of the difference of two glyphs: rows `0..=max_height` and columns
/// `0..=max_width` are compared.
pub open spec fn spec_delta_sums(a: RaysView, b: RaysView) -> RayDeltaSums {
    let mw = max_int(a.width as int, b.width as int) - 1;
    let mh = max_int(a.height as int, b.height as int) - 1;
    RayDeltaSums {
        horizontal: row_delta_sum(a, b, mh + 1, mw) as u64,
        vertical: col_delta_sum(a, b, mw + 1, mh) as u64,
        max_width: mw as u16,
        max_height: mh as u8,
    }
}

proof fn lemma_row_delta_sum_bound(a: RaysView, b: RaysView, n: int, mw: int)
    requires
        0 <= n,
        0 <= mw <= 65535,
    ensures
        0 <= row_delta_sum(a, b, n, mw) <= n * 4 * 65535,
    decreases n,
{
    if n > 0 {
        lemma_row_delta_sum_bound(a, b, n - 1, mw);
    }
}

proof fn lemma_col_delta_sum_bound(a: RaysView, b: RaysView, n: int, mh: int)
    requires
        0 <= n,
        0 <= mh <= 255,
    ensures
        0 <= col_delta_sum(a, b, n, mh) <= n * 4 * 255,
    decreases n,
{
    if n > 0 {
        lemma_col_delta_sum_bound(a, b, n - 1, mh);
    }
}

proof fn lemma_col_delta_sum_at(a: RaysView, b: RaysView, n: int, mh: int, x: int)
    requires
        0 <= x < n,
    ensures
        col_delta_sum(a, b, n, mh) >= col_delta(a, b, x, mh),
    decreases n,
{
    if x < n - 1 {
        lemma_col_delta_sum_at(a, b, n - 1, mh, x);
    }
    lemma_col_delta_sum_nonneg(a, b, n - 1, mh);
    assert(col_delta(a, b, n - 1, mh) >= 0);
    assert(col_delta_sum(a, b, n, mh) == col_delta_sum(a, b, n - 1, mh) + col_delta(a, b, n - 1, mh));
}

proof fn lemma_col_delta_sum_nonneg(a: RaysView, b: RaysView, n: int, mh: int)
    ensures
        col_delta_sum(a, b, n, mh) >= 0,
    decreases n,
{
    if n > 0 {
        lemma_col_delta_sum_nonneg(a, b, n - 1, mh);
    }
}

proof fn lemma_row_delta_sum_at(a: RaysView, b: RaysView, n: int, mw: int, y: int)
    requires
        0 <= y < n,
    ensures
        row_delta_sum(a, b, n, mw) >= row_delta(a, b, y, mw),
    decreases n,
{
    if y < n - 1 {
        lemma_row_delta_sum_at(a, b, n - 1, mw, y);
    }
    lemma_row_delta_sum_nonneg(a, b, n - 1, mw);
    assert(row_delta(a, b, n - 1, mw) >= 0);
    assert(row_delta_sum(a, b, n, mw) == row_delta_sum(a, b, n - 1, mw) + row_delta(a, b, n - 1, mw));
}

proof fn lemma_row_delta_sum_nonneg(a: RaysView, b: RaysView, n: int, mw: int)
    ensures
        row_delta_sum(a, b, n, mw) >= 0,
    decreases n,
{
    if n > 0 {
        lemma_row_delta_sum_nonneg(a, b, n - 1, mw);
    }
}

/// The difference of two glyphs of one size with profile vectors of that size counts, for
/// every column, the differences of their top, bottom and both centre column rays in it, and,
/// for every row, the differences of their left, right and both centre row rays in it.
pub proof fn law_delta_counts_every_ray(a: RaysView, b: RaysView, x: int, y: int)
    requires
        a.width == b.width,
        a.height == b.height,
        a.width >= 1,
        a.height >= 1,
        a.t2b.len() == a.width && a.b2t.len() == a.width && a.m2b.len() == a.width && a.m2t.len() == a.width,
        b.t2b.len() == b.width && b.b2t.len() == b.width && b.m2b.len() == b.width && b.m2t.len() == b.width,
        a.l2r.len() == a.height && a.r2l.len() == a.height && a.m2r.len() == a.height && a.m2l.len() == a.height,
        b.l2r.len() == b.height && b.r2l.len() == b.height && b.m2r.len() == b.height && b.m2l.len() == b.height,
        0 <= x < a.width,
        0 <= y < a.height,
    ensures
        spec_delta_sums(a, b).vertical >= abs_diff(a.t2b[x] as int, b.t2b[x] as int) + abs_diff(
            a.b2t[x] as int,
            b.b2t[x] as int,
        ) + abs_diff(a.m2b[x] as int, b.m2b[x] as int) + abs_diff(a.m2t[x] as int, b.m2t[x] as int),
        spec_delta_sums(a, b).horizontal >= abs_diff(a.l2r[y] as int, b.l2r[y] as int) + abs_diff(
            a.r2l[y] as int,
            b.r2l[y] as int,
        ) + abs_diff(a.m2r[y] as int, b.m2r[y] as int) + abs_diff(a.m2l[y] as int, b.m2l[y] as int),
{
    let mw = a.width - 1;
    let mh = a.height - 1;
    lemma_col_delta_sum_at(a, b, mw + 1, mh, x);
    lemma_row_delta_sum_at(a, b, mh + 1, mw, y);
    lemma_col_delta_sum_bound(a, b, mw + 1, mh);
    lemma_row_delta_sum_bound(a, b, mh + 1, mw);
    assert((mw + 1) * 4 * 255 <= 65536 * 4 * 255) by (nonlinear_arith)
        requires
            0 <= mw + 1 <= 65536,
    ;
    assert((mh + 1) * 4 * 65535 <= 256 * 4 * 65535) by (nonlinear_arith)
        requires
            0 <= mh + 1 <= 256,
    ;
}

/// Whether two glyphs can be compared, see [`delta_ok`].
pub fn comparable(a: &GlyphRays, b: &GlyphRays) -> (r: bool)
    ensures
        r == delta_ok(a@, b@),
{
    (a.width >= 1 || b.width >= 1) && (a.height >= 1 || b.height >= 1) && a.t2b.len() > 0 && a.b2t.len() > 0
        && a.m2b.len() > 0 && a.m2t.len() > 0 && b.t2b.len() > 0 && b.b2t.len() > 0 && b.m2b.len() > 0
        && b.m2t.len() > 0
}

/// The integer parts of the difference of two glyphs, see [`spec_delta_sums`].
pub fn ray_delta_sums(r1: &GlyphRays, r2: &GlyphRays) -> (d: RayDeltaSums)
    requires
        delta_ok(r1@, r2@),
    ensures
        d == spec_delta_sums(r1@, r2@),
{
    let max_width: u16 = (if r1.width >= r2.width { r1.width } else { r2.width }) - 1;
    let max_height: u8 = (if r1.height >= r2.height { r1.height } else { r2.height }) - 1;
    let ghost a = r1@;
    let ghost b = r2@;
    let mut horizontal: u64 = 0;
    let mut y: usize = 0;
    while y <= max_height as usize
        invariant
            a == r1@,
            b == r2@,
            y <= max_height as usize + 1,
            horizontal == row_delta_sum(a, b, y as int, max_width as int),
        decreases max_height as usize + 1 - y,
    {
        proof {
            lemma_row_delta_sum_bound(a, b, y as int, max_width as int);
        }
        let d1 = get_vec_delta(&r1.l2r, &r2.l2r, y, max_width, 0);
        let d2 = get_vec_delta(&r1.r2l, &r2.r2l, y, max_width, 0);
        let d3 = get_vec_delta(&r1.m2r, &r2.m2r, y, max_width / 2, 0);
        let d4 = get_vec_delta(&r1.m2l, &r2.m2l, y, max_width / 2, 0);
        horizontal = horizontal + d1 as u64 + d2 as u64 + d3 as u64 + d4 as u64;
        y = y + 1;
    }
    let mut vertical: u64 = 0;
    let mut x: usize = 0;
    while x <= max_width as usize
        invariant
            a == r1@,
            b == r2@,
            delta_ok(a, b),
            x <= max_width as usize + 1,
            vertical == col_delta_sum(a, b, x as int, max_height as int),
        decreases max_width as usize + 1 - x,
    {
        proof {
            lemma_col_delta_sum_bound(a, b, x as int, max_height as int);
        }
        let d1 = get_vec_delta_u8(&r1.t2b, &r2.t2b, x, max_height, 2);
        let d2 = get_vec_delta_u8(&r1.b2t, &r2.b2t, x, max_height, 2);
        let d3 = get_vec_delta_u8(&r1.m2b, &r2.m2b, x, max_height / 2, 2);
        let d4 = get_vec_delta_u8(&r1.m2t, &r2.m2t, x, max_height / 2, 2);
        vertical = vertical + d1 as u64 + d2 as u64 + d3 as u64 + d4 as u64;
        x = x + 1;
    }
    RayDeltaSums { horizontal, vertical, max_width, max_height }
}


/// A step of a recognition path: a matched glyph with its difference score, or a penalty
/// for columns that nothing matched.
pub enum RecogKind<'a> {
    Match(&'a Glyph, u32),
    Penalty(u32),
}

/// `trees::Tree`, the trees that hold recognition paths; opaque to the proofs.
#[verifier::external_type_specification]
#[verifier::external_body]
#[verifier::reject_recursive_types(T)]
pub struct ExTree<T>(Tree<T>);

/// `trees::Node`, a node of such a tree; opaque to the proofs.
#[verifier::external_type_specification]
#[verifier::external_body]
#[verifier::reject_recursive_types(T)]
pub struct ExNode<T>(Node<T>);

/// What a tree holds: its nodes in preorder, each with the number of nodes of its subtree.
/// The wrappers of the `trees` calls below state what each call does to it.
pub uninterp spec fn tree_nodes(t: Tree<RecogKind<'_>>) -> Seq<(RecogKind<'_>, nat)>;

/// The nodes below and including a node in preorder, each with the number of nodes of its
/// subtree.
pub uninterp spec fn node_nodes(n: Node<RecogKind<'_>>) -> Seq<(RecogKind<'_>, nat)>;

/// `trees::Tree::new`.  Claimed, and not proved here: the new tree is a single node holding
/// `data`, that is its encoding is that one node with a subtree of size one.
#[verifier::external_body]
fn new_tree<'a>(data: RecogKind<'a>) -> (t: Tree<RecogKind<'a>>)
    ensures
        tree_nodes(t) == seq![(data, 1nat)],
{
    Tree::new(data)
}


/// An encoded tree: its nodes in preorder, each with the size of its subtree.
pub type Enc<'a> = Seq<(RecogKind<'a>, nat)>;

/// Splits the encodings of consecutive subtrees: each starts with its root, whose count is
/// the subtree's length.
pub open spec fn split_subtrees<'a>(s: Enc<'a>) -> Seq<Enc<'a>>
    decreases s.len(),
{
    if s.len() == 0 {
        Seq::empty()
    } else {
        let k = s[0].1 as int;
        if k == 0 || k > s.len() {
            seq![s]
        } else {
            seq![s.take(k)] + split_subtrees(s.skip(k))
        }
    }
}

/// The encodings of the children of the root of `v`, in order.
pub open spec fn children_of<'a>(v: Enc<'a>) -> Seq<Enc<'a>> {
    if v.len() == 0 {
        Seq::empty()
    } else {
        split_subtrees(v.drop_first())
    }
}

/// The encoding of `t` once `c` is appended as the last child of its root.
pub open spec fn add_child<'a>(t: Enc<'a>, c: Enc<'a>) -> Enc<'a> {
    seq![(t[0].0, t[0].1 + c[0].1)] + t.drop_first() + c
}

pub proof fn lemma_split_shorter<'a>(s: Enc<'a>)
    ensures
        forall|i: int| 0 <= i < split_subtrees(s).len() ==> 1 <= #[trigger] split_subtrees(s)[i].len() <= s.len(),
    decreases s.len(),
{
    if s.len() > 0 {
        let k = s[0].1 as int;
        if !(k == 0 || k > s.len()) {
            lemma_split_shorter(s.skip(k));
            assert forall|i: int| 0 <= i < split_subtrees(s).len() implies 1 <= #[trigger] split_subtrees(s)[i].len() <= s.len() by {
                if i > 0 {
                    assert(split_subtrees(s)[i] == split_subtrees(s.skip(k))[i - 1]);
                }
            }
        }
    }
}

pub proof fn lemma_children_shorter<'a>(v: Enc<'a>)
    ensures
        forall|i: int| 0 <= i < children_of(v).len() ==> #[trigger] children_of(v)[i].len() < v.len(),
{
    if v.len() > 0 {
        lemma_split_shorter(v.drop_first());
    }
}

/// `trees::Tree::push_back`.  Claimed, and not proved here: `child` becomes the last child of
/// the root, so its encoding follows the tree's and the root's subtree grows by its size.
#[verifier::external_body]
fn push_child<'a>(t: &mut Tree<RecogKind<'a>>, child: Tree<RecogKind<'a>>)
    ensures
        tree_nodes(*final(t)) == add_child(tree_nodes(*old(t)), tree_nodes(child)),
{
    t.push_back(child)
}

/// `trees::Tree::root`.  Claimed, and not proved here: the node returned is the root, whose
/// subtree has the encoding of the whole tree.
#[verifier::external_body]
fn tree_root<'a, 'b>(t: &'b Tree<RecogKind<'a>>) -> (n: &'b Node<RecogKind<'a>>)
    ensures
        node_nodes(*n) == tree_nodes(*t),
{
    t.root()
}

/// `trees::Node::data`.  Claimed, and not proved here: the data returned is that of the node
/// itself, the first entry of its subtree's encoding.
#[verifier::external_body]
fn node_data<'a, 'b>(n: &'b Node<RecogKind<'a>>) -> (d: &'b RecogKind<'a>)
    ensures
        *d == node_nodes(*n)[0].0,
{
    n.data()
}

/// `trees::Node::has_no_child`.  Claimed, and not proved here: the result is true exactly when
/// the node's encoding lists no child subtree.
#[verifier::external_body]
fn node_has_no_child<'a>(n: &Node<RecogKind<'a>>) -> (b: bool)
    ensures
        b == (children_of(node_nodes(*n)).len() == 0),
{
    n.has_no_child()
}

/// `trees::Node::iter`, collected.  Claimed, and not proved here: the nodes returned are the
/// node's children, first to last, each with the encoding of its own subtree.
#[verifier::external_body]
fn node_children<'a, 'b>(n: &'b Node<RecogKind<'a>>) -> (cs: Vec<&'b Node<RecogKind<'a>>>)
    ensures
        cs@.len() == children_of(node_nodes(*n)).len(),
        forall|i: int| 0 <= i < cs@.len() ==> node_nodes(*#[trigger] cs@[i]) == children_of(node_nodes(*n))[i],
{
    n.iter().collect()
}


/// The text a step contributes: the matched glyph's text, or nothing for a penalty.
pub open spec fn own_text(d: RecogKind) -> Seq<char> {
    match d {
        RecogKind::Match(g, _) => g.value@,
        RecogKind::Penalty(_) => Seq::empty(),
    }
}

/// The score of a step: the match's difference score, or the penalty.
pub open spec fn own_score(d: RecogKind) -> int {
    match d {
        RecogKind::Match(_, s) => s as int,
        RecogKind::Penalty(s) => s as int,
    }
}

/// The text and total score of the best path from the root of `v`: the root's step
/// followed by the best path of the child whose best total score is smallest (the last
/// such child on ties).
pub open spec fn flat(v: Enc) -> (Seq<char>, int)
    decreases v.len(), 1nat, 0nat,
{
    let n = children_of(v).len() as int;
    if n == 0 {
        (own_text(v[0].0), own_score(v[0].0))
    } else {
        let b = best_child(v, n);
        (own_text(v[0].0) + b.0, own_score(v[0].0) + b.1)
    }
}

/// Among the first `n` children of the root of `v`, the best path with the smallest total
/// score, the later one on ties; `u32::MAX` and no text when there is none.
pub open spec fn best_child(v: Enc, n: int) -> (Seq<char>, int)
    decreases v.len(), 0nat, n,
{
    if n <= 0 || n > children_of(v).len() {
        (Seq::empty(), u32::MAX as int)
    } else {
        let prev = best_child(v, n - 1);
        proof {
            lemma_children_shorter(v);
        }
        let cur = flat(children_of(v)[n - 1]);
        if cur.1 <= prev.1 {
            cur
        } else {
            prev
        }
    }
}

/// Every score along the way of [`flat`] fits in `u32`.
pub open spec fn flat_ok(v: Enc) -> bool
    decreases v.len(), 1nat, 0nat,
{
    let n = children_of(v).len() as int;
    &&& children_flat_ok(v, n)
    &&& n > 0 ==> own_score(v[0].0) + best_child(v, n).1 <= u32::MAX
}

pub open spec fn children_flat_ok(v: Enc, n: int) -> bool
    decreases v.len(), 0nat, n,
{
    if n <= 0 || n > children_of(v).len() {
        true
    } else {
        proof {
            lemma_children_shorter(v);
        }
        children_flat_ok(v, n - 1) && flat_ok(children_of(v)[n - 1])
    }
}

/// The text and total score of the best path from `node`, see [`flat`]; `None` when a score
/// along the way does not fit in `u32` (see [`flat_ok`]).
pub fn checked_flat_trees(node: &Node<RecogKind>) -> (r: Option<(String, u32)>)
    ensures
        match r {
            Some(p) => flat_ok(node_nodes(*node)) && p.0@ == flat(node_nodes(*node)).0 && p.1 == flat(node_nodes(*node)).1,
            None => !flat_ok(node_nodes(*node)),
        },
    decreases node_nodes(*node).len(),
{
    let ghost v = node_nodes(*node);
    let (my_str, my_val) = match node_data(node) {
        RecogKind::Match(g, s) => (g.value.clone(), *s),
        RecogKind::Penalty(s) => (String::new(), *s),
    };
    if node_has_no_child(node) {
        Some((my_str, my_val))
    } else {
        let children = node_children(node);
        let ghost n = children@.len() as int;
        proof {
            lemma_children_shorter(v);
        }
        let mut min: u32 = u32::MAX;
        let mut min_child_str = String::new();
        let mut i: usize = 0;
        while i < children.len()
            invariant
                v == node_nodes(*node),
                n == children@.len(),
                n == children_of(v).len(),
                0 <= i <= n,
                forall|j: int| 0 <= j < n ==> node_nodes(*#[trigger] children@[j]) == children_of(v)[j],
                forall|j: int| 0 <= j < n ==> #[trigger] children_of(v)[j].len() < v.len(),
                children_flat_ok(v, i as int),
                min_child_str@ == best_child(v, i as int).0,
                min == best_child(v, i as int).1,
            decreases n - i,
        {
            let child = children[i];
            match checked_flat_trees(child) {
                Some((child_str, score)) => {
                    if score <= min {
                        min = score;
                        min_child_str = child_str;
                    }
                },
                None => {
                    proof {
                        if children_flat_ok(v, n) {
                            lemma_children_flat_ok(v, n, i as int);
                        }
                    }
                    return None;
                },
            }
            i = i + 1;
        }
        match my_val.checked_add(min) {
            Some(total) => {
                let joined = my_str.concat(min_child_str.as_str());
                Some((joined, total))
            },
            None => None,
        }
    }
}

/// The text and total score of the best path from `node`, see [`flat`].
pub fn get_flat_trees(node: &Node<RecogKind>) -> (r: (String, u32))
    requires
        flat_ok(node_nodes(*node)),
    ensures
        r.0@ == flat(node_nodes(*node)).0,
        r.1 == flat(node_nodes(*node)).1,
{
    match checked_flat_trees(node) {
        Some(p) => p,
        None => {
            assert(false);
            (String::new(), 0)
        },
    }
}

/// The decimal digit `d`.
pub open spec fn digit_char(d: nat) -> char {
    (d + 48) as char
}

/// The decimal digits of `n`, without leading zeros.
pub open spec fn decimal_text(n: nat) -> Seq<char>
    decreases n,
{
    if n < 10 {
        seq![digit_char(n)]
    } else {
        decimal_text(n / 10).push(digit_char(n % 10))
    }
}

/// The decimal digit `d`.
fn digit_of(d: u32) -> (c: char)
    requires
        d < 10,
    ensures
        c == digit_char(d as nat),
{
    match d {
        0 => '0',
        1 => '1',
        2 => '2',
        3 => '3',
        4 => '4',
        5 => '5',
        6 => '6',
        7 => '7',
        8 => '8',
        _ => '9',
    }
}

/// The decimal text of `n`, see [`decimal_text`].
pub fn u32_text(n: u32) -> (s: String)
    ensures
        s@ == decimal_text(n as nat),
    decreases n,
{
    if n < 10 {
        char_to_string(digit_of(n))
    } else {
        let mut s = u32_text(n / 10);
        let last = char_to_string(digit_of(n % 10));
        s.append(last.as_str());
        s
    }
}

/// The text of a step: the matched glyph's text, `_` and the score, or the penalty.
pub open spec fn step_text(d: RecogKind) -> Seq<char> {
    match d {
        RecogKind::Match(g, s) => g.value@ + seq!['_'] + decimal_text(s as nat),
        RecogKind::Penalty(s) => decimal_text(s as nat),
    }
}

/// A tree written out: the root's step, then, when it has children, `( `, each child's text
/// followed by a space, and `)`.
pub open spec fn tree_text(v: Enc) -> Seq<char>
    decreases v.len(), 1nat, 0nat,
{
    let n = children_of(v).len() as int;
    if n == 0 {
        step_text(v[0].0)
    } else {
        step_text(v[0].0) + seq!['(', ' '] + children_text(v, n) + seq![')']
    }
}

/// The texts of the first `n` children of the root of `v`, each followed by a space.
pub open spec fn children_text(v: Enc, n: int) -> Seq<char>
    decreases v.len(), 0nat, n,
{
    if n <= 0 || n > children_of(v).len() {
        Seq::empty()
    } else {
        proof {
            lemma_children_shorter(v);
        }
        children_text(v, n - 1) + tree_text(children_of(v)[n - 1]) + seq![' ']
    }
}

/// The tree below `node` written out, see [`tree_text`].
pub fn print_tree(node: &Node<RecogKind>) -> (r: String)
    ensures
        r@ == tree_text(node_nodes(*node)),
    decreases node_nodes(*node).len(),
{
    let ghost v = node_nodes(*node);
    proof {
        reveal_strlit("_");
        reveal_strlit("( ");
        reveal_strlit(" ");
        reveal_strlit(")");
    }
    let mut val = match node_data(node) {
        RecogKind::Match(g, s) => {
            let mut t = g.value.clone();
            t.append("_");
            t.append(u32_text(*s).as_str());
            t
        },
        RecogKind::Penalty(s) => u32_text(*s),
    };
    assert(val@ == step_text(v[0].0));
    if node_has_no_child(node) {
        return val;
    }
    let children = node_children(node);
    let ghost n = children@.len() as int;
    proof {
        lemma_children_shorter(v);
    }
    val.append("( ");
    let ghost head = val@;
    let mut i: usize = 0;
    while i < children.len()
        invariant
            v == node_nodes(*node),
            n == children@.len(),
            n == children_of(v).len(),
            0 <= i <= n,
            forall|j: int| 0 <= j < n ==> node_nodes(*#[trigger] children@[j]) == children_of(v)[j],
            forall|j: int| 0 <= j < n ==> #[trigger] children_of(v)[j].len() < v.len(),
            val@ == head + children_text(v, i as int),
        decreases n - i,
    {
        proof {
            reveal_strlit(" ");
        }
        let child_text = print_tree(children[i]);
        val.append(child_text.as_str());
        val.append(" ");
        assert(children_text(v, i + 1) == children_text(v, i as int) + tree_text(children_of(v)[i as int]) + seq![' ']);
        assert(val@ =~= head + children_text(v, i + 1));
        i = i + 1;
    }
    val.append(")");
    val
}

proof fn lemma_children_flat_ok(v: Enc, n: int, i: int)
    requires
        children_flat_ok(v, n),
        0 <= i < n <= children_of(v).len(),
    ensures
        flat_ok(children_of(v)[i]),
    decreases n,
{
    if i < n - 1 {
        lemma_children_flat_ok(v, n - 1, i);
    }
}


/// Recognises glyphs, and runs of overlapping glyphs, against a dataset.
pub struct GlyphRecognizer<'a> {
    pub dataset: &'a GlyphDataset,
}

/// The score that `delta` gives for the integer parts `s` of a difference.
pub open spec fn score_of<F: Fn(RayDeltaSums) -> u32>(delta: F, s: RayDeltaSums) -> u32 {
    choose|r: u32| call_ensures(delta, (s,), r)
}

/// `delta` can be called on any integer parts and always gives the same score for them.
pub open spec fn scorer_ok<F: Fn(RayDeltaSums) -> u32>(delta: F) -> bool {
    &&& forall|s: RayDeltaSums| call_requires(delta, (s,))
    &&& forall|s: RayDeltaSums, r: u32| call_ensures(delta, (s,), r) ==> r == score_of(delta, s)
}

/// The difference score of two glyphs under `delta`.
pub open spec fn glyph_score<F: Fn(RayDeltaSums) -> u32>(delta: F, a: RaysView, b: RaysView) -> u32 {
    score_of(delta, spec_delta_sums(a, b))
}

/// A score passes against a glyph when it is at most 1500 or at most one and a half times
/// the glyph's largest sample error.
pub open spec fn passes(score: int, max_error: int) -> bool {
    2 * score <= max_int(3000, 3 * max_error)
}

/// The path that charges 5000 per column of an overlap that nothing matched.
pub open spec fn penalty_paths<'a>(overlap: RaysView) -> Seq<Enc<'a>> {
    seq![seq![(RecogKind::Penalty((5000 * overlap.width) as u32), 1nat)]]
}

/// The encoding of `root` after the first `n` of `children` are appended to it in order.
pub open spec fn attach<'a>(root: Enc<'a>, children: Seq<Enc<'a>>, n: int) -> Enc<'a>
    decreases n,
{
    if n <= 0 {
        root
    } else {
        add_child(attach(root, children, n - 1), children[n - 1])
    }
}

/// The encodings of a sequence of trees.
pub open spec fn trees_nodes<'a>(s: Seq<Tree<RecogKind<'a>>>) -> Seq<Enc<'a>> {
    s.map_values(|t: Tree<RecogKind<'a>>| tree_nodes(t))
}

/// The recognition paths of an overlap.  Each glyph that may start it (see
/// [`GlyphDataset::spec_fuzzy_get`]) is tried in turn, see [`candidate_step`]; an overlap
/// that no glyph starts gets a penalty path.  `None` when a step cannot be computed.
pub open spec fn spec_paths<'a, F: Fn(RayDeltaSums) -> u32>(
    ds: GlyphDataset,
    overlap: RaysView,
    delta: F,
) -> Option<Seq<Enc<'a>>>
    decreases overlap.width, 2nat, 0nat,
{
    if !ds.fuzzy_ok(overlap) {
        None
    } else {
        match ds.spec_fuzzy_get(overlap) {
            None => Some(penalty_paths(overlap)),
            Some(cands) => match paths_from(ds, overlap, cands, cands.len() as int, delta) {
                None => None,
                Some(res) => Some(if res.len() == 0 { penalty_paths(overlap) } else { res }),
            },
        }
    }
}

/// The paths that the first `n` candidates start, in order.
pub open spec fn paths_from<'a, F: Fn(RayDeltaSums) -> u32>(
    ds: GlyphDataset,
    overlap: RaysView,
    cands: Seq<Glyph>,
    n: int,
    delta: F,
) -> Option<Seq<Enc<'a>>>
    decreases overlap.width, 1nat, n,
{
    if n <= 0 || n > cands.len() {
        Some(Seq::empty())
    } else {
        match paths_from(ds, overlap, cands, n - 1, delta) {
            None => None,
            Some(prev) => match candidate_step(ds, overlap, cands[n - 1], delta) {
                None => None,
                Some(None) => Some(prev),
                Some(Some(t)) => Some(prev.push(t)),
            },
        }
    }
}

/// Trying candidate `c` at the start of an overlap: the overlap's leading columns of the
/// candidate's width are compared with it; when they hold pixels and the score passes
/// ([`passes`]), the result is a path rooted at the match whose children are the paths of
/// the columns after the candidate's width (none when those hold no pixel).  `Some(None)`
/// when the candidate starts no path, `None` when a step cannot be computed.
pub open spec fn candidate_step<'a, F: Fn(RayDeltaSums) -> u32>(
    ds: GlyphDataset,
    overlap: RaysView,
    c: Glyph,
    delta: F,
) -> Option<Option<Enc<'a>>>
    decreases overlap.width, 0nat, 0nat,
{
    let cw = c.ray.width as int;
    if cw > overlap.width || !sub_glyph_ok(overlap, 0, cw) {
        None
    } else {
        match spec_sub_glyph(overlap, 0, cw) {
            None => Some(None),
            Some(lead) => if !delta_ok(lead, c.ray@) {
                None
            } else {
                let score = glyph_score(delta, lead, c.ray@);
                if !passes(score as int, c.max_error as int) {
                    Some(None)
                } else {
                    let nw = overlap.width - cw;
                    let node = seq![(RecogKind::Match(&c, score), 1nat)];
                    if !sub_glyph_ok(overlap, cw, nw) {
                        None
                    } else {
                        match spec_sub_glyph(overlap, cw, nw) {
                            None => Some(Some(node)),
                            Some(rest) => if rest.width >= overlap.width {
                                None
                            } else {
                                match spec_paths(ds, rest, delta) {
                                    None => None,
                                    Some(children) => Some(Some(attach(node, children, children.len() as int))),
                                }
                            },
                        }
                    }
                }
            },
        }
    }
}

pub proof fn lemma_paths_from_prefix<'a, F: Fn(RayDeltaSums) -> u32>(
    ds: GlyphDataset,
    overlap: RaysView,
    cands: Seq<Glyph>,
    m: int,
    n: int,
    delta: F,
)
    requires
        0 <= m <= n <= cands.len(),
        paths_from::<'a, F>(ds, overlap, cands, n, delta) is Some,
    ensures
        paths_from::<'a, F>(ds, overlap, cands, m, delta) is Some,
    decreases n - m,
{
    if m < n {
        lemma_paths_from_prefix::<F>(ds, overlap, cands, m, n - 1, delta);
    }
}

/// Appends `children` to the root of `t`, in order.
fn attach_children<'a>(t: &mut Tree<RecogKind<'a>>, children: Vec<Tree<RecogKind<'a>>>)
    ensures
        tree_nodes(*final(t)) == attach(tree_nodes(*old(t)), trees_nodes(children@), children@.len() as int),
{
    let ghost node = tree_nodes(*t);
    let ghost all = trees_nodes(children@);
    let total = children.len();
    let mut children = children;
    let mut j: usize = 0;
    while j < total
        invariant
            0 <= j <= total,
            total == all.len(),
            children@.len() == total - j,
            trees_nodes(children@) == all.skip(j as int),
            tree_nodes(*t) == attach(node, all, j as int),
        decreases total - j,
    {
        let ghost before = children@;
        let child = children.remove(0);
        assert(tree_nodes(child) == trees_nodes(before)[0]);
        assert(tree_nodes(child) == all[j as int]);
        push_child(t, child);
        j = j + 1;
        assert(children@ =~= before.drop_first());
        assert forall|k: int| 0 <= k < children@.len() implies trees_nodes(children@)[k] == all.skip(j as int)[k] by {
            assert(children@[k] == before[k + 1]);
            assert(trees_nodes(before)[k + 1] == all.skip(j - 1)[k + 1]);
        }
        assert(trees_nodes(children@) =~= all.skip(j as int));
    }
}

impl<'a> GlyphRecognizer<'a> {
    /// The path that `candidate` starts at the beginning of `overlap`, see [`candidate_step`]:
    /// `None` when a step cannot be computed, `Some(None)` when the candidate starts no path.
    fn try_candidate<F: Fn(RayDeltaSums) -> u32>(
        &self,
        overlap: &GlyphRays,
        candidate: &'a Glyph,
        delta: &F,
    ) -> (r: Option<Option<Tree<RecogKind<'a>>>>)
        requires
            scorer_ok(*delta),
        ensures
            match r {
                Some(Some(t)) => candidate_step::<'a, F>(*self.dataset, overlap@, *candidate, *delta) == Some(Some(tree_nodes(t))),
                Some(None) => candidate_step::<'a, F>(*self.dataset, overlap@, *candidate, *delta) == Some(None::<Enc<'a>>),
                None => candidate_step::<'a, F>(*self.dataset, overlap@, *candidate, *delta) is None,
            },
        decreases overlap.width, 0nat,
    {
        let cw = candidate.ray.width;
        if cw > overlap.width || !overlap.sub_glyph_fits(0, cw) {
            return None;
        }
        let lead = match overlap.get_sub_glyph(0, cw) {
            None => {
                return Some(None);
            },
            Some(lead) => lead,
        };
        if !comparable(&lead, &candidate.ray) {
            return None;
        }
        let sums = ray_delta_sums(&lead, &candidate.ray);
        let score = delta(sums);
        let limit: u64 = if 3000 >= 3 * (candidate.max_error as u64) {
            3000
        } else {
            3 * (candidate.max_error as u64)
        };
        if 2 * (score as u64) > limit {
            return Some(None);
        }
        let mut new_node = new_tree(RecogKind::Match(candidate, score));
        let new_width = overlap.width - cw;
        if !overlap.sub_glyph_fits(cw, new_width) {
            return None;
        }
        match overlap.get_sub_glyph(cw, new_width) {
            Some(rest) => {
                if rest.width >= overlap.width {
                    return None;
                }
                match self.checked_overlap_paths(&rest, delta) {
                    Some(children) => {
                        attach_children(&mut new_node, children);
                    },
                    None => {
                        return None;
                    },
                }
            },
            None => {},
        }
        Some(Some(new_node))
    }

    /// The recognition paths of `overlap`, see [`spec_paths`]; `None` when a step cannot be
    /// computed.
    pub fn checked_overlap_paths<F: Fn(RayDeltaSums) -> u32>(&self, overlap: &GlyphRays, delta: &F) -> (r: Option<
        Vec<Tree<RecogKind<'a>>>,
    >)
        requires
            scorer_ok(*delta),
        ensures
            match r {
                Some(v) => spec_paths::<'a, F>(*self.dataset, overlap@, *delta) == Some(trees_nodes(v@)),
                None => spec_paths::<'a, F>(*self.dataset, overlap@, *delta) is None,
            },
        decreases overlap.width, 1nat,
    {
        let ds: &'a GlyphDataset = self.dataset;
        let ghost ov = overlap@;
        if !ds.can_scan(overlap) {
            return None;
        }
        let mut results: Vec<Tree<RecogKind<'a>>> = Vec::new();
        let candidates = ds.fuzzy_get(overlap);
        match candidates {
            None => {},
            Some(candidates) => {
                let ghost cands = deref_glyphs(candidates@);
                let ghost total = cands.len() as int;
                let mut i: usize = 0;
                while i < candidates.len()
                    invariant
                        ov == overlap@,
                        scorer_ok(*delta),
                        ds == self.dataset,
                        cands == deref_glyphs(candidates@),
                        ds.spec_fuzzy_get(ov) == Some(cands),
                        ds.fuzzy_ok(ov),
                        total == candidates@.len(),
                        0 <= i <= total,
                        Some(trees_nodes(results@)) == paths_from::<'a, F>(*ds, ov, cands, i as int, *delta),
                    decreases total - i,
                {
                    let candidate: &'a Glyph = candidates[i];
                    assert(cands[i as int] == *candidate);
                    let ghost before = trees_nodes(results@);
                    match self.try_candidate(overlap, candidate, delta) {
                        Some(Some(t)) => {
                            results.push(t);
                            assert(trees_nodes(results@) =~= before.push(tree_nodes(t)));
                        },
                        Some(None) => {},
                        None => {
                            proof {
                                assert(paths_from::<'a, F>(*ds, ov, cands, i + 1, *delta) is None);
                                if paths_from::<'a, F>(*ds, ov, cands, total, *delta) is Some {
                                    lemma_paths_from_prefix::<F>(*ds, ov, cands, i + 1, total, *delta);
                                }
                            }
                            assert(paths_from::<'a, F>(*ds, ov, cands, total, *delta) is None);
                            assert(ds.spec_fuzzy_get(ov) == Some(cands));
                            return None;
                        },
                    }
                    i = i + 1;
                }
            },
        }
        if results.len() == 0 {
            let penalty = new_tree(RecogKind::Penalty(5000 * overlap.width as u32));
            results.push(penalty);
            assert(trees_nodes(results@) =~= penalty_paths(ov));
        }
        Some(results)
    }

    /// The recognition paths of `overlap`, see [`spec_paths`].
    pub fn get_overlap_paths<F: Fn(RayDeltaSums) -> u32>(&self, overlap: &GlyphRays, delta: &F) -> (r: Vec<
        Tree<RecogKind<'a>>,
    >)
        requires
            scorer_ok(*delta),
            spec_paths::<'a, F>(*self.dataset, overlap@, *delta) is Some,
        ensures
            Some(trees_nodes(r@)) == spec_paths::<'a, F>(*self.dataset, overlap@, *delta),
    {
        match self.checked_overlap_paths(overlap, delta) {
            Some(paths) => paths,
            None => {
                assert(false);
                Vec::new()
            },
        }
    }
}


/// The glyph's top lies within two rows of the ray's top.
pub open spec fn top_close(ray: RaysView, g: Glyph) -> bool {
    -2 <= ray.pixels_from_top - g.ray.pixels_from_top <= 2
}

/// Among the first `n` glyphs of `gs` whose top lies within two rows of the ray's, the
/// first one with the smallest score, with that score.
pub open spec fn best_among<F: Fn(RayDeltaSums) -> u32>(
    ray: RaysView,
    gs: Seq<Glyph>,
    n: int,
    delta: F,
) -> Option<(Glyph, u32)>
    decreases n,
{
    if n <= 0 {
        None
    } else {
        let prev = best_among(ray, gs, n - 1, delta);
        let g = gs[n - 1];
        if !top_close(ray, g) {
            prev
        } else {
            let s = glyph_score(delta, ray, g.ray@);
            match prev {
                None => Some((g, s)),
                Some(b) => if s < b.1 { Some((g, s)) } else { prev },
            }
        }
    }
}

/// Matching a single glyph against `gs` is defined: the tops can be compared within `i8`
/// and the glyphs whose top is close can be compared with the ray.
pub open spec fn best_ok(ray: RaysView, gs: Seq<Glyph>) -> bool {
    forall|i: int|
        0 <= i < gs.len() ==> {
            &&& -127 <= ray.pixels_from_top - (#[trigger] gs[i]).ray.pixels_from_top <= 127
            &&& top_close(ray, gs[i]) ==> delta_ok(ray, gs[i].ray@)
        }
}

/// The tree that joins the paths of an overlap under a root without a score.
pub open spec fn joined<'a>(paths: Seq<Enc<'a>>) -> Enc<'a> {
    attach(seq![(RecogKind::Penalty(0), 1nat)], paths, paths.len() as int)
}

/// The text recognised for a glyph: the text of the stored glyph of the same size whose top
/// is within two rows of it and whose score is smallest (the first such); when there is
/// none, the text along the best path through the glyph read as an overlap.  `None` when a
/// step cannot be computed (in particular when no glyph of that size is stored).
pub open spec fn spec_parse_glyph<F: Fn(RayDeltaSums) -> u32>(
    ds: GlyphDataset,
    ray: RaysView,
    delta: F,
) -> Option<Seq<char>> {
    match ds.glyphs_at(ray.width, ray.height) {
        None => None,
        Some(gs) => if !best_ok(ray, gs) {
            None
        } else {
            match best_among(ray, gs, gs.len() as int, delta) {
                Some(b) => Some(b.0.value@),
                None => match spec_paths(ds, ray, delta) {
                    None => None,
                    Some(paths) => if flat_ok(joined(paths)) {
                        Some(flat(joined(paths)).0)
                    } else {
                        None
                    },
                },
            }
        },
    }
}

impl<'a> GlyphRecognizer<'a> {
    /// The stored glyph of the ray's size whose top is within two rows of the ray's and whose
    /// score against the ray is smallest (the first such), see [`best_among`].
    pub fn best_match<F: Fn(RayDeltaSums) -> u32>(&self, ray: &GlyphRays, delta: &F) -> (r: Option<&'a Glyph>)
        requires
            scorer_ok(*delta),
            self.dataset.glyphs_at(ray.width, ray.height) is Some,
            best_ok(ray@, self.dataset.glyphs_at(ray.width, ray.height)->0),
        ensures
            match best_among(ray@, self.dataset.glyphs_at(ray.width, ray.height)->0, self.dataset.glyphs_at(ray.width, ray.height)->0.len() as int, *delta) {
                None => r is None,
                Some(b) => r == Some(&b.0),
            },
    {
        let ds: &'a GlyphDataset = self.dataset;
        let glyphs = ds.get(&ray.width, &ray.height).unwrap();
        let ghost gs = glyphs@;
        let mut best: Option<&'a Glyph> = None;
        let mut best_score: u32 = 0;
        let mut i: usize = 0;
        while i < glyphs.len()
            invariant
                gs == glyphs@,
                scorer_ok(*delta),
                best_ok(ray@, gs),
                0 <= i <= gs.len(),
                match best_among(ray@, gs, i as int, *delta) {
                    None => best is None,
                    Some(b) => best == Some(&b.0) && best_score == b.1,
                },
            decreases gs.len() - i,
        {
            let g = &glyphs[i];
            let d = ray.pixels_from_top as i16 - g.ray.pixels_from_top as i16;
            if -2 <= d && d <= 2 {
                let score = delta(ray_delta_sums(ray, &g.ray));
                match best {
                    None => {
                        best = Some(g);
                        best_score = score;
                    },
                    Some(_) => {
                        if score < best_score {
                            best = Some(g);
                            best_score = score;
                        }
                    },
                }
            }
            i = i + 1;
        }
        best
    }

    /// The text recognised for `ray`, see [`spec_parse_glyph`]; `None` when a step cannot be
    /// computed (in particular when no glyph of the ray's size is stored).
    pub fn checked_parse_glyph<F: Fn(RayDeltaSums) -> u32>(&self, ray: &GlyphRays, delta: &F) -> (r: Option<String>)
        requires
            scorer_ok(*delta),
        ensures
            match r {
                Some(s) => spec_parse_glyph::<F>(*self.dataset, ray@, *delta) == Some(s@),
                None => spec_parse_glyph::<F>(*self.dataset, ray@, *delta) is None,
            },
    {
        let ds: &'a GlyphDataset = self.dataset;
        match ds.get(&ray.width, &ray.height) {
            None => {
                return None;
            },
            Some(glyphs) => {
                if !best_fits(ray, glyphs) {
                    return None;
                }
            },
        }
        match self.best_match(ray, delta) {
            Some(b) => Some(b.value.clone()),
            None => {
                let paths = match self.checked_overlap_paths(ray, delta) {
                    Some(paths) => paths,
                    None => {
                        return None;
                    },
                };
                match checked_flatten_paths(paths) {
                    Some((resolved, _)) => Some(resolved),
                    None => None,
                }
            },
        }
    }

    /// The text recognised for `ray`, see [`spec_parse_glyph`].
    pub fn parse_glyph<F: Fn(RayDeltaSums) -> u32>(&self, ray: &GlyphRays, delta: &F) -> (r: String)
        requires
            scorer_ok(*delta),
            spec_parse_glyph::<F>(*self.dataset, ray@, *delta) is Some,
        ensures
            Some(r@) == spec_parse_glyph::<F>(*self.dataset, ray@, *delta),
    {
        let best = self.best_match(ray, delta);
        match best {
            Some(b) => b.value.clone(),
            None => {
                let paths = self.get_overlap_paths(ray, delta);
                let (resolved, _) = flatten_paths(paths);
                resolved
            },
        }
    }
}

/// Whether matching `ray` against `glyphs` is defined, see [`best_ok`].
pub fn best_fits(ray: &GlyphRays, glyphs: &Vec<Glyph>) -> (r: bool)
    ensures
        r == best_ok(ray@, glyphs@),
{
    let mut i: usize = 0;
    while i < glyphs.len()
        invariant
            i <= glyphs@.len(),
            forall|j: int|
                0 <= j < i ==> {
                    &&& -127 <= ray@.pixels_from_top - (#[trigger] glyphs@[j]).ray.pixels_from_top <= 127
                    &&& top_close(ray@, glyphs@[j]) ==> delta_ok(ray@, glyphs@[j].ray@)
                },
        decreases glyphs@.len() - i,
    {
        let g = &glyphs[i];
        let d: i16 = ray.pixels_from_top as i16 - g.ray.pixels_from_top as i16;
        if d < -127 || d > 127 {
            return false;
        }
        if -2 <= d && d <= 2 && !comparable(ray, &g.ray) {
            return false;
        }
        i = i + 1;
    }
    true
}

/// Among the first `n` candidates, the first one with the smallest score against the
/// overlap's leading columns of its width (candidates whose columns hold no pixel are
/// skipped), with that score.  `Some(None)` when there is none, `None` when a step cannot
/// be computed.
pub open spec fn best_step<F: Fn(RayDeltaSums) -> u32>(
    overlap: RaysView,
    cands: Seq<Glyph>,
    n: int,
    delta: F,
) -> Option<Option<(Glyph, u32)>>
    decreases n,
{
    if n <= 0 || n > cands.len() {
        Some(None)
    } else {
        match best_step(overlap, cands, n - 1, delta) {
            None => None,
            Some(prev) => {
                let c = cands[n - 1];
                let cw = c.ray.width as int;
                if cw > overlap.width || !sub_glyph_ok(overlap, 0, cw) {
                    None
                } else {
                    match spec_sub_glyph(overlap, 0, cw) {
                        None => Some(prev),
                        Some(lead) => if !delta_ok(lead, c.ray@) {
                            None
                        } else {
                            let score = glyph_score(delta, lead, c.ray@);
                            match prev {
                                None => Some(Some((c, score))),
                                Some(b) => if score < b.1 { Some(Some((c, score))) } else { Some(prev) },
                            }
                        },
                    }
                }
            },
        }
    }
}

/// Greedy reading of an overlap from the left: while it is at least as wide as the
/// narrowest stored glyph, the best candidate ([`best_step`]) is taken and the overlap is
/// cut to the columns after it, as long as those are at least that wide and hold pixels.
/// The glyphs taken, with their scores; `None` when a step cannot be computed.
pub open spec fn spec_resolve<F: Fn(RayDeltaSums) -> u32>(
    ds: GlyphDataset,
    overlap: RaysView,
    delta: F,
) -> Option<Seq<(Glyph, u32)>>
    decreases overlap.width,
{
    if (overlap.width as int) < ds.least_width() {
        Some(Seq::empty())
    } else if !ds.fuzzy_ok(overlap) {
        None
    } else {
        match ds.spec_fuzzy_get(overlap) {
            None => Some(Seq::empty()),
            Some(cands) => match best_step(overlap, cands, cands.len() as int, delta) {
                None => None,
                Some(None) => Some(Seq::empty()),
                Some(Some(b)) => {
                    let gw = b.0.ray.width as int;
                    let nw = overlap.width - gw;
                    if nw < ds.least_width() {
                        Some(seq![b])
                    } else if !sub_glyph_ok(overlap, gw, nw) {
                        None
                    } else {
                        match spec_sub_glyph(overlap, gw, nw) {
                            None => Some(seq![b]),
                            Some(rest) => if rest.width >= overlap.width {
                                None
                            } else {
                                match spec_resolve(ds, rest, delta) {
                                    None => None,
                                    Some(tail) => Some(seq![b] + tail),
                                }
                            },
                        }
                    }
                }
            },
        }
    }
}

pub proof fn lemma_best_step_prefix<F: Fn(RayDeltaSums) -> u32>(
    overlap: RaysView,
    cands: Seq<Glyph>,
    m: int,
    n: int,
    delta: F,
)
    requires
        0 <= m <= n <= cands.len(),
        best_step(overlap, cands, n, delta) is Some,
    ensures
        best_step(overlap, cands, m, delta) is Some,
    decreases n - m,
{
    if m < n {
        lemma_best_step_prefix(overlap, cands, m, n - 1, delta);
    }
}

pub proof fn lemma_best_step_fits<F: Fn(RayDeltaSums) -> u32>(
    overlap: RaysView,
    cands: Seq<Glyph>,
    n: int,
    delta: F,
)
    ensures
        best_step(overlap, cands, n, delta) matches Some(Some(b)) ==> b.0.ray.width <= overlap.width,
    decreases n,
{
    if !(n <= 0 || n > cands.len()) {
        lemma_best_step_fits(overlap, cands, n - 1, delta);
    }
}

/// The values of a sequence of (glyph reference, score) pairs.
pub open spec fn deref_steps<'a>(s: Seq<(&'a Glyph, u32)>) -> Seq<(Glyph, u32)> {
    s.map_values(|p: (&'a Glyph, u32)| (*p.0, p.1))
}

/// The best candidate at the start of `overlap`, see [`best_step`]; `None` when a step cannot
/// be computed.
fn best_candidate<'a, F: Fn(RayDeltaSums) -> u32>(overlap: &GlyphRays, candidates: &Vec<&'a Glyph>, delta: &F) -> (r: Option<
    Option<(&'a Glyph, u32)>,
>)
    requires
        scorer_ok(*delta),
    ensures
        match r {
            Some(b) => best_step(overlap@, deref_glyphs(candidates@), candidates@.len() as int, *delta) == Some(
                match b {
                    Some(p) => Some((*p.0, p.1)),
                    None => None::<(Glyph, u32)>,
                },
            ),
            None => best_step(overlap@, deref_glyphs(candidates@), candidates@.len() as int, *delta) is None,
        },
{
    let ghost cands = deref_glyphs(candidates@);
    let ghost total = candidates@.len() as int;
    let mut best: Option<(&'a Glyph, u32)> = None;
    let mut i: usize = 0;
    while i < candidates.len()
        invariant
            0 <= i <= total,
            total == candidates@.len(),
            cands == deref_glyphs(candidates@),
            scorer_ok(*delta),
            best_step(overlap@, cands, i as int, *delta) == Some(
                match best {
                    Some(p) => Some((*p.0, p.1)),
                    None => None::<(Glyph, u32)>,
                },
            ),
        decreases total - i,
    {
        let candidate: &'a Glyph = candidates[i];
        assert(cands[i as int] == *candidate);
        let cw = candidate.ray.width;
        if cw > overlap.width || !overlap.sub_glyph_fits(0, cw) {
            proof {
                assert(best_step(overlap@, cands, i + 1, *delta) is None);
                if best_step(overlap@, cands, total, *delta) is Some {
                    lemma_best_step_prefix(overlap@, cands, i + 1, total, *delta);
                }
            }
            return None;
        }
        match overlap.get_sub_glyph(0, cw) {
            None => {},
            Some(lead) => {
                if !comparable(&lead, &candidate.ray) {
                    proof {
                        assert(best_step(overlap@, cands, i + 1, *delta) is None);
                        if best_step(overlap@, cands, total, *delta) is Some {
                            lemma_best_step_prefix(overlap@, cands, i + 1, total, *delta);
                        }
                    }
                    return None;
                }
                let score = delta(ray_delta_sums(&lead, &candidate.ray));
                match best {
                    None => {
                        best = Some((candidate, score));
                    },
                    Some(b) => {
                        if score < b.1 {
                            best = Some((candidate, score));
                        }
                    },
                }
            },
        }
        i = i + 1;
    }
    Some(best)
}

/// Reads `overlap` greedily from the left, see [`spec_resolve`]: the glyphs taken, with
/// their scores; `None` when a step cannot be computed.
pub fn checked_resolve_overlap<'a, F: Fn(RayDeltaSums) -> u32>(
    overlap: GlyphRays,
    dataset: &'a GlyphDataset,
    delta: &F,
) -> (r: Option<Vec<(&'a Glyph, u32)>>)
    requires
        scorer_ok(*delta),
    ensures
        match r {
            Some(v) => spec_resolve(*dataset, overlap@, *delta) == Some(deref_steps(v@)),
            None => spec_resolve(*dataset, overlap@, *delta) is None,
        },
{
    let ghost first = overlap@;
    let mut current = overlap;
    let mut steps: Vec<(&'a Glyph, u32)> = Vec::new();
    while current.width >= dataset.smallest_width()
        invariant_except_break
            first == overlap@,
            scorer_ok(*delta),
            spec_resolve(*dataset, first, *delta) == match spec_resolve(*dataset, current@, *delta) {
                Some(rest) => Some(deref_steps(steps@) + rest),
                None => None::<Seq<(Glyph, u32)>>,
            },
        ensures
            spec_resolve(*dataset, first, *delta) == Some(deref_steps(steps@)),
        decreases current.width,
    {
        let ghost cur = current@;
        let ghost before = deref_steps(steps@);
        assert(current.width >= dataset.least_width());
        if !dataset.can_scan(&current) {
            assert(spec_resolve(*dataset, cur, *delta) is None);
            assert(spec_resolve(*dataset, first, *delta) is None);
            return None;
        }
        let candidates = match dataset.fuzzy_get(&current) {
            None => {
                assert(before + Seq::<(Glyph, u32)>::empty() =~= before);
                break;
            },
            Some(c) => c,
        };
        let best = match best_candidate(&current, &candidates, delta) {
            Some(b) => b,
            None => {
                return None;
            },
        };
        proof {
            lemma_best_step_fits(cur, deref_glyphs(candidates@), candidates@.len() as int, *delta);
        }
        match best {
            Some((glyph, score)) => {
                steps.push((glyph, score));
                assert(deref_steps(steps@) =~= before.push((*glyph, score)));
                let new_width = current.width - glyph.ray.width;
                if new_width < dataset.smallest_width() {
                    assert(before + seq![(*glyph, score)] =~= before.push((*glyph, score)));
                    break;
                }
                if !current.sub_glyph_fits(glyph.ray.width, new_width) {
                    return None;
                }
                match current.get_sub_glyph(glyph.ray.width, new_width) {
                    Some(rest) => {
                        if rest.width >= current.width {
                            return None;
                        }
                        proof {
                            match spec_resolve(*dataset, rest@, *delta) {
                                Some(tail) => {
                                    assert(before + (seq![(*glyph, score)] + tail) =~= deref_steps(steps@) + tail);
                                },
                                None => {},
                            }
                        }
                        current = rest;
                    },
                    None => {
                        assert(before + seq![(*glyph, score)] =~= before.push((*glyph, score)));
                        break;
                    },
                }
            },
            None => {
                assert(before + Seq::<(Glyph, u32)>::empty() =~= before);
                break;
            },
        }
    }
    Some(steps)
}

/// Reads `overlap` greedily from the left, see [`spec_resolve`]: the glyphs taken, with
/// their scores.
pub fn resolve_overlap<'a, F: Fn(RayDeltaSums) -> u32>(overlap: GlyphRays, dataset: &'a GlyphDataset, delta: &F) -> (r: Vec<(&'a Glyph, u32)>)
    requires
        scorer_ok(*delta),
        spec_resolve(*dataset, overlap@, *delta) is Some,
    ensures
        spec_resolve(*dataset, overlap@, *delta) == Some(deref_steps(r@)),
{
    match checked_resolve_overlap(overlap, dataset, delta) {
        Some(steps) => steps,
        None => {
            assert(false);
            Vec::new()
        },
    }
}

/// The text and total score of the best of `paths`, joined under a root without a score (see
/// [`joined`] and [`flat`]); `None` when a score along the way does not fit in `u32`.
pub fn checked_flatten_paths<'a>(paths: Vec<Tree<RecogKind<'a>>>) -> (r: Option<(String, u32)>)
    ensures
        match r {
            Some(p) => flat_ok(joined(trees_nodes(paths@))) && p.0@ == flat(joined(trees_nodes(paths@))).0 && p.1
                == flat(joined(trees_nodes(paths@))).1,
            None => !flat_ok(joined(trees_nodes(paths@))),
        },
{
    let mut tree = new_tree(RecogKind::Penalty(0));
    attach_children(&mut tree, paths);
    checked_flat_trees(tree_root(&tree))
}

/// The text and total score of the best of `paths`, joined under a root without a score (see
/// [`joined`] and [`flat`]).
pub fn flatten_paths<'a>(paths: Vec<Tree<RecogKind<'a>>>) -> (r: (String, u32))
    requires
        flat_ok(joined(trees_nodes(paths@))),
    ensures
        r.0@ == flat(joined(trees_nodes(paths@))).0,
        r.1 == flat(joined(trees_nodes(paths@))).1,
{
    match checked_flatten_paths(paths) {
        Some(p) => p,
        None => {
            assert(false);
            (String::new(), 0)
        },
    }
}

} // verus!
