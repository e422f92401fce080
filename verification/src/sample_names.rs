use vstd::prelude::*;

verus! {

/// The character is an ASCII decimal digit.
pub open spec fn is_digit(c: char) -> bool {
    '0' <= c && c <= '9'
}

/// The value of the decimal digits `d`.
pub open spec fn decimal(d: Seq<char>) -> int
    decreases d.len(),
{
    if d.len() == 0 {
        0
    } else {
        decimal(d.drop_last()) * 10 + (d.last() as int - '0' as int)
    }
}

/// The text after an optional leading `+`.
pub open spec fn digits_part(s: Seq<char>) -> Seq<char> {
    if s.len() > 0 && s[0] == '+' { s.drop_first() } else { s }
}

/// Every character of `d` is a decimal digit.
pub open spec fn all_digits(d: Seq<char>) -> bool {
    forall|i: int| 0 <= i < d.len() ==> is_digit(#[trigger] d[i])
}

/// The number a text holds the way `u32::from_str` reads it: an optional `+` followed by
/// at least one decimal digit and nothing else, with a value that fits in `u32`.
pub open spec fn parse_u32_text(s: Seq<char>) -> Option<u32> {
    let d = digits_part(s);
    if d.len() == 0 || !all_digits(d) || decimal(d) > u32::MAX {
        None
    } else {
        Some(decimal(d) as u32)
    }
}

/// The number is a Unicode scalar value.
pub open spec fn is_scalar(v: int) -> bool {
    (0 <= v <= 0xD7FF) || (0xE000 <= v <= 0x10FFFF)
}

/// The one-character text whose code point a name gives in decimal, or `None`.
pub open spec fn code_point_text(s: Seq<char>) -> Option<Seq<char>> {
    match parse_u32_text(s) {
        Some(v) => if is_scalar(v as int) { Some(seq![v as char]) } else { None },
        None => None,
    }
}

/// The text with every occurrence of `.dat` removed, scanning from the left.
pub open spec fn strip_dat(s: Seq<char>) -> Seq<char>
    decreases s.len(),
{
    if s.len() == 0 {
        s
    } else if s.len() >= 4 && s[0] == '.' && s[1] == 'd' && s[2] == 'a' && s[3] == 't' {
        strip_dat(s.skip(4))
    } else {
        seq![s[0]] + strip_dat(s.skip(1))
    }
}

/// The pieces of a text between its underscores, empty pieces included.
pub open spec fn split_underscores(s: Seq<char>) -> Seq<Seq<char>>
    decreases s.len(),
{
    if s.len() == 0 {
        seq![Seq::empty()]
    } else {
        let r = split_underscores(s.drop_last());
        if s.last() == '_' {
            r.push(Seq::empty())
        } else {
            r.update(r.len() - 1, r.last().push(s.last()))
        }
    }
}

/// The texts of the first `n` pieces, or `None` if one of them is not a code point name.
pub open spec fn piece_texts(pieces: Seq<Seq<char>>, n: int) -> Option<Seq<Seq<char>>>
    decreases n,
{
    if n <= 0 {
        Some(Seq::empty())
    } else {
        match (piece_texts(pieces, n - 1), code_point_text(pieces[n - 1])) {
            (Some(t), Some(c)) => Some(t.push(c)),
            _ => None,
        }
    }
}

/// The texts of the glyphs that an overlap file's name lists: `.dat` removed, the rest
/// split at underscores, each piece a code point in decimal.
pub open spec fn overlap_texts(name: Seq<char>) -> Option<Seq<Seq<char>>> {
    let pieces = split_underscores(strip_dat(name));
    piece_texts(pieces, pieces.len() as int)
}

/// `char::from_u32`.  Claimed, as its documentation states: a character exactly when `v` is
/// a Unicode scalar value, and then the character whose code point is `v`.
#[verifier::external_body]
fn char_from_u32(v: u32) -> (r: Option<char>)
    ensures
        r is Some <==> is_scalar(v as int),
        r matches Some(c) ==> c == v as char,
{
    char::from_u32(v)
}

/// `char::to_string`.  Claimed, as its documentation states: the text made of the one
/// character `c`.
#[verifier::external_body]
pub(crate) fn char_to_string(c: char) -> (s: String)
    ensures
        s@ == seq![c],
{
    c.to_string()
}

proof fn lemma_decimal_nonneg(d: Seq<char>)
    requires
        forall|i: int| 0 <= i < d.len() ==> is_digit(#[trigger] d[i]),
    ensures
        decimal(d) >= 0,
    decreases d.len(),
{
    if d.len() > 0 {
        assert(d.last() == d[d.len() - 1]);
        lemma_decimal_nonneg(d.drop_last());
    }
}

/// The number `chars[lo..hi]` holds, read as [`parse_u32_text`] reads it.
fn parse_decimal(chars: &Vec<char>, lo: usize, hi: usize) -> (r: Option<u32>)
    requires
        lo <= hi <= chars@.len(),
    ensures
        r == parse_u32_text(chars@.subrange(lo as int, hi as int)),
{
    let ghost s = chars@.subrange(lo as int, hi as int);
    let start = if lo < hi && chars[lo] == '+' { lo + 1 } else { lo };
    let ghost d = chars@.subrange(start as int, hi as int);
    assert(d =~= digits_part(s));
    if start == hi {
        return None;
    }
    let mut acc: u64 = 0;
    let mut over = false;
    let mut i = start;
    while i < hi
        invariant
            start <= i <= hi <= chars@.len(),
            d == chars@.subrange(start as int, hi as int),
            s == chars@.subrange(lo as int, hi as int),
            d == digits_part(s),
            forall|j: int| start <= j < i ==> is_digit(#[trigger] chars@[j]),
            !over ==> acc == decimal(chars@.subrange(start as int, i as int)) && acc <= u32::MAX,
            over ==> decimal(chars@.subrange(start as int, i as int)) > u32::MAX,
        decreases hi - i,
    {
        let c = chars[i];
        if !('0' <= c && c <= '9') {
            assert(d[i - start] == c);
            assert(!is_digit(d[i - start]));
            assert(!all_digits(d));
            return None;
        }
        let ghost p = chars@.subrange(start as int, i as int);
        let ghost q = chars@.subrange(start as int, i + 1);
        assert(q.drop_last() =~= p);
        assert(q.last() == c);
        assert forall|j: int| 0 <= j < p.len() implies is_digit(#[trigger] p[j]) by {
            assert(p[j] == chars@[start + j]);
        }
        proof {
            lemma_decimal_nonneg(p);
        }
        if !over {
            let v = acc * 10 + (c as u64 - '0' as u64);
            if v > u32::MAX as u64 {
                over = true;
            } else {
                acc = v;
            }
        }
        i = i + 1;
    }
    assert(chars@.subrange(start as int, hi as int) =~= d);
    assert forall|j: int| 0 <= j < d.len() implies is_digit(#[trigger] d[j]) by {
        assert(d[j] == chars@[start + j]);
    }
    assert(all_digits(d));
    if over {
        None
    } else {
        Some(acc as u32)
    }
}

/// The characters of a text.
fn chars_of(name: &str) -> (r: Vec<char>)
    ensures
        r@ == name@,
{
    let n = name.unicode_len();
    let mut r: Vec<char> = Vec::new();
    let mut i: usize = 0;
    while i < n
        invariant
            i <= n,
            n == name@.len(),
            r@ =~= name@.take(i as int),
        decreases n - i,
    {
        r.push(name.get_char(i));
        i = i + 1;
    }
    assert(name@.take(n as int) =~= name@);
    r
}

/// The one-character text named by a decimal code point, see [`code_point_text`].
fn text_of_code(chars: &Vec<char>, lo: usize, hi: usize) -> (r: Option<String>)
    requires
        lo <= hi <= chars@.len(),
    ensures
        match r {
            Some(t) => code_point_text(chars@.subrange(lo as int, hi as int)) == Some(t@),
            None => code_point_text(chars@.subrange(lo as int, hi as int)) is None,
        },
{
    match parse_decimal(chars, lo, hi) {
        Some(v) => match char_from_u32(v) {
            Some(c) => Some(char_to_string(c)),
            None => None,
        },
        None => None,
    }
}

/// The text whose code point a directory's name gives in decimal (`"65"` names `"A"`), see
/// [`code_point_text`].
pub fn parse_code_point(name: &str) -> (r: Option<String>)
    ensures
        match r {
            Some(t) => code_point_text(name@) == Some(t@),
            None => code_point_text(name@) is None,
        },
{
    let chars = chars_of(name);
    assert(chars@.subrange(0, chars@.len() as int) =~= name@);
    text_of_code(&chars, 0, chars.len())
}


proof fn lemma_piece_texts_none(pieces: Seq<Seq<char>>, k: int, n: int)
    requires
        0 <= k <= n,
        piece_texts(pieces, k) is None,
    ensures
        piece_texts(pieces, n) is None,
    decreases n - k,
{
    if k < n {
        lemma_piece_texts_none(pieces, k, n - 1);
    }
}

/// The text with every `.dat` removed, see [`strip_dat`].
fn strip_dat_chars(chars: &Vec<char>) -> (r: Vec<char>)
    ensures
        r@ == strip_dat(chars@),
{
    let n = chars.len();
    let mut out: Vec<char> = Vec::new();
    let mut i: usize = 0;
    assert(chars@.skip(0) =~= chars@);
    assert(out@ + strip_dat(chars@.skip(0)) =~= strip_dat(chars@));
    while i < n
        invariant
            i <= n,
            n == chars@.len(),
            strip_dat(chars@) == out@ + strip_dat(chars@.skip(i as int)),
        decreases n - i,
    {
        let ghost rest = chars@.skip(i as int);
        if n - i >= 4 && chars[i] == '.' && chars[i + 1] == 'd' && chars[i + 2] == 'a' && chars[i + 3] == 't' {
            assert(rest.skip(4) =~= chars@.skip(i + 4));
            i = i + 4;
        } else {
            assert(rest.skip(1) =~= chars@.skip(i + 1));
            let ghost before = out@;
            out.push(chars[i]);
            assert(out@ + strip_dat(chars@.skip(i + 1)) =~= before + (seq![rest[0]] + strip_dat(rest.skip(1))));
            i = i + 1;
        }
    }
    assert(chars@.skip(n as int) =~= Seq::<char>::empty());
    assert(out@ + strip_dat(chars@.skip(n as int)) =~= out@);
    out
}

/// The texts of the glyphs listed in an overlap file's name (`"65_66.dat"` lists `"A"` and
/// `"B"`), see [`overlap_texts`].
pub fn overlap_name_values(name: &str) -> (r: Option<Vec<String>>)
    ensures
        match r {
            Some(v) => overlap_texts(name@) == Some(v@.map_values(|t: String| t@)),
            None => overlap_texts(name@) is None,
        },
{
    let chars = chars_of(name);
    let st = strip_dat_chars(&chars);
    assert(st@ == strip_dat(name@));
    let n = st.len();
    let mut starts: Vec<usize> = Vec::new();
    let mut ends: Vec<usize> = Vec::new();
    let mut start: usize = 0;
    let mut j: usize = 0;
    while j < n
        invariant
            j <= n,
            n == st@.len(),
            start <= j,
            starts@.len() == ends@.len(),
            split_underscores(st@.take(j as int)).len() == starts@.len() + 1,
            split_underscores(st@.take(j as int)).last() == st@.subrange(start as int, j as int),
            forall|k: int|
                #![trigger starts@[k]]
                0 <= k < starts@.len() ==> starts@[k] <= ends@[k] <= n && split_underscores(st@.take(j as int))[k]
                    == st@.subrange(starts@[k] as int, ends@[k] as int),
        decreases n - j,
    {
        let ghost prev = split_underscores(st@.take(j as int));
        assert(st@.take(j + 1).drop_last() =~= st@.take(j as int));
        assert(st@.take(j + 1).last() == st@[j as int]);
        let ghost old_starts = starts@;
        let ghost old_ends = ends@;
        let ghost old_start = start;
        if st[j] == '_' {
            starts.push(start);
            ends.push(j);
            start = j + 1;
            assert(st@.subrange(start as int, j + 1) =~= Seq::<char>::empty());
            assert(split_underscores(st@.take(j + 1)) == prev.push(Seq::empty()));
            assert forall|k: int| 0 <= k < starts@.len() implies starts@[k] <= ends@[k] <= n && split_underscores(st@.take(j + 1))[k]
                == st@.subrange(starts@[k] as int, ends@[k] as int) by {
                if k < old_starts.len() {
                    assert(starts@[k] == old_starts[k] && ends@[k] == old_ends[k]);
                    assert(prev[k] == st@.subrange(old_starts[k] as int, old_ends[k] as int));
                } else {
                    assert(starts@[k] == old_start && ends@[k] == j);
                }
            }
        } else {
            assert(st@.subrange(start as int, j + 1) =~= st@.subrange(start as int, j as int).push(st@[j as int]));
            assert(split_underscores(st@.take(j + 1)) == prev.update(prev.len() - 1, prev.last().push(st@[j as int])));
            assert forall|k: int| 0 <= k < starts@.len() implies starts@[k] <= ends@[k] <= n && split_underscores(st@.take(j + 1))[k]
                == st@.subrange(starts@[k] as int, ends@[k] as int) by {
                assert(prev[k] == st@.subrange(starts@[k] as int, ends@[k] as int));
            }
        }
        j = j + 1;
    }
    let ghost old_starts = starts@;
    let ghost old_ends = ends@;
    assert(st@.take(j as int) =~= st@);
    assert(forall|k: int|
        #![trigger old_starts[k]]
        0 <= k < old_starts.len() ==> old_starts[k] <= old_ends[k] <= n && split_underscores(st@)[k]
            == st@.subrange(old_starts[k] as int, old_ends[k] as int));
    starts.push(start);
    ends.push(n);
    assert(st@.take(n as int) =~= st@);
    let ghost pieces = split_underscores(st@);
    assert forall|q: int| #![trigger starts@[q]] 0 <= q < starts@.len() implies starts@[q] <= ends@[q] <= st@.len() && pieces[q] == st@.subrange(starts@[q] as int, ends@[q] as int) by {
        assert(j == n);
        assert(split_underscores(st@.take(j as int)) == pieces);
        if q < old_starts.len() {
            assert(starts@[q] == old_starts[q] && ends@[q] == old_ends[q]);
            assert(old_starts[q] <= old_ends[q] <= n && pieces[q]
                == st@.subrange(old_starts[q] as int, old_ends[q] as int));
        } else {
            assert(starts@[q] == start && ends@[q] == n);
            assert(pieces[q] == pieces.last());
        }
    }
    let mut out: Vec<String> = Vec::new();
    assert(out@.map_values(|t: String| t@) =~= Seq::<Seq<char>>::empty());
    let mut k: usize = 0;
    while k < starts.len()
        invariant
            k <= starts@.len(),
            starts@.len() == ends@.len(),
            pieces == split_underscores(st@),
            st@ == strip_dat(name@),
            pieces.len() == starts@.len(),
            forall|q: int|
                #![trigger starts@[q]]
                0 <= q < starts@.len() ==> starts@[q] <= ends@[q] <= st@.len() && pieces[q] == st@.subrange(starts@[q] as int, ends@[q] as int),
            piece_texts(pieces, k as int) == Some(out@.map_values(|t: String| t@)),
        decreases starts@.len() - k,
    {
        let ghost before = out@;
        assert(pieces[k as int] == st@.subrange(starts@[k as int] as int, ends@[k as int] as int));
        match text_of_code(&st, starts[k], ends[k]) {
            Some(t) => {
                out.push(t);
                assert(out@.map_values(|t: String| t@) =~= before.map_values(|t: String| t@).push(t@));
            },
            None => {
                proof {
                    assert(code_point_text(pieces[k as int]) is None);
                    assert(piece_texts(pieces, k + 1) is None);
                    lemma_piece_texts_none(pieces, k + 1, pieces.len() as int);
                }
                return None;
            },
        }
        k = k + 1;
    }
    Some(out)
}

/// Whether two texts are equal.
fn same_text(a: &str, b: &str) -> (r: bool)
    ensures
        r == (a@ == b@),
{
    let n = a.unicode_len();
    if n != b.unicode_len() {
        return false;
    }
    let mut i: usize = 0;
    while i < n
        invariant
            i <= n,
            n == a@.len(),
            n == b@.len(),
            forall|j: int| 0 <= j < i ==> a@[j] == b@[j],
        decreases n - i,
    {
        if a.get_char(i) != b.get_char(i) {
            return false;
        }
        i = i + 1;
    }
    assert(a@ =~= b@);
    true
}

/// Whether a directory of the sample tree holds overlap files rather than the samples of
/// one glyph: its name is `overlaps`.
pub fn is_overlap_dir(name: &str) -> (r: bool)
    ensures
        r == (name@ == "overlaps"@),
{
    same_text(name, "overlaps")
}

/// Whether a file of a glyph's sample directory is used as a sample: every file but `0.dat`.
pub fn is_training_sample(file_name: &str) -> (r: bool)
    ensures
        r == (file_name@ != "0.dat"@),
{
    !same_text(file_name, "0.dat")
}

} // verus!
