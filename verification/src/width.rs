//! Display-column arithmetic: how many terminal cells characters take.
use vstd::prelude::*;
use vstd::utf8::*;
use crate::encoding::{str_chars, decode_all, char_len, lemma_encode_push, lemma_sub_boundary, lemma_sub_boundary_back, lemma_prefix_boundary};
use crate::text::{PieceTable, is_next_newline};

verus! {

/// Cells taken by `c` on a terminal: zero for combining marks and zero-width
/// characters, two for wide East Asian characters and emoji, one otherwise.
pub open spec fn char_width_spec(c: char) -> nat {
    let u = c as u32;
    if (0x0300 <= u <= 0x036f) || (0x0483 <= u <= 0x0489) || (0x0591 <= u <= 0x05c7) || (0x0610
        <= u <= 0x061a) || (0x064b <= u <= 0x065f) || u == 0x0670 || (0x06d6 <= u <= 0x06dc) || (
    0x06df <= u <= 0x06e4) || u == 0x0711 || (0x0730 <= u <= 0x074a) || (0x07a6 <= u <= 0x07b0)
        || (0x0900 <= u <= 0x0902) || u == 0x093c || (0x0941 <= u <= 0x0948) || u == 0x094d || (
    0x0951 <= u <= 0x0954) || u == 0x0e31 || (0x0e34 <= u <= 0x0e3a) || (0x0e47 <= u <= 0x0e4e)
        || (0x1ab0 <= u <= 0x1aff) || (0x1dc0 <= u <= 0x1dff) || (0x200b <= u <= 0x200f) || (
    0x20d0 <= u <= 0x20ff) || (0xfe00 <= u <= 0xfe0f) || (0xfe20 <= u <= 0xfe2f) {
        0
    } else if (0x1100 <= u <= 0x115f) || (0x2e80 <= u <= 0x303e) || (0x3041 <= u <= 0x33ff) || (
    0x3400 <= u <= 0x4dbf) || (0x4e00 <= u <= 0x9fff) || (0xa000 <= u <= 0xa4cf) || (0xac00 <= u
        <= 0xd7a3) || (0xf900 <= u <= 0xfaff) || (0xfe30 <= u <= 0xfe4f) || (0xff00 <= u <= 0xff60)
        || (0xffe0 <= u <= 0xffe6) || (0x1f300 <= u <= 0x1f64f) || (0x1f680 <= u <= 0x1f6ff) || (
    0x1f900 <= u <= 0x1f9ff) || (0x20000 <= u <= 0x2fffd) || (0x30000 <= u <= 0x3fffd) {
        2
    } else {
        1
    }
}

/// Cells `c` advances the cursor by when drawn at column `col`: a tab reaches the
/// next multiple of eight, other control characters show as two cells (`^X`).
pub open spec fn step_spec(c: char, col: int) -> int {
    if c == '\t' {
        8 - col % 8
    } else if (c as u32) < 0x20 {
        2
    } else {
        char_width_spec(c) as int
    }
}

/// Total cells of `cs` drawn from column zero.
pub open spec fn width_spec(cs: Seq<char>) -> int
    decreases cs.len(),
{
    if cs.len() == 0 {
        0
    } else {
        let w = width_spec(cs.drop_last());
        w + step_spec(cs.last(), w)
    }
}

pub proof fn lemma_width_bounds(cs: Seq<char>)
    ensures
        0 <= width_spec(cs) <= 8 * cs.len(),
    decreases cs.len(),
{
    if cs.len() > 0 {
        lemma_width_bounds(cs.drop_last());
    }
}

pub proof fn lemma_width_step(cs: Seq<char>, k: int)
    requires
        0 <= k < cs.len(),
    ensures
        width_spec(cs.take(k + 1)) == width_spec(cs.take(k)) + step_spec(cs[k], width_spec(cs.take(k))),
{
    assert(cs.take(k + 1).drop_last() =~= cs.take(k));
}

pub proof fn lemma_width_mono(cs: Seq<char>, i: int, j: int)
    requires
        0 <= i <= j <= cs.len(),
    ensures
        width_spec(cs.take(i)) <= width_spec(cs.take(j)),
    decreases j - i,
{
    if i < j {
        lemma_width_mono(cs, i, j - 1);
        lemma_width_step(cs, j - 1);
        lemma_width_bounds(cs.take(j - 1));
    }
}

/// East Asian wide and fullwidth characters take two cells: Hangul (the leading
/// jamo and the precomposed syllables), kana and Bopomofo, the CJK radicals,
/// symbols, ideographs and their extensions and compatibility forms, Yi, the
/// vertical and fullwidth forms, and the pictographic emoji blocks.
pub proof fn lemma_wide_chars(c: char)
    ensures
        0x1100 <= c as u32 <= 0x115f ==> char_width_spec(c) == 2,
        0xac00 <= c as u32 <= 0xd7a3 ==> char_width_spec(c) == 2,
        0x3041 <= c as u32 <= 0x30ff ==> char_width_spec(c) == 2,
        0x4e00 <= c as u32 <= 0x9fff ==> char_width_spec(c) == 2,
        0x3400 <= c as u32 <= 0x4dbf ==> char_width_spec(c) == 2,
        0x20000 <= c as u32 <= 0x2fffd ==> char_width_spec(c) == 2,
        0xff01 <= c as u32 <= 0xff60 ==> char_width_spec(c) == 2,
        0x1f300 <= c as u32 <= 0x1f64f ==> char_width_spec(c) == 2,
        0x2e80 <= c as u32 <= 0x303e ==> char_width_spec(c) == 2,
        0x3100 <= c as u32 <= 0x33ff ==> char_width_spec(c) == 2,
        0xa000 <= c as u32 <= 0xa4cf ==> char_width_spec(c) == 2,
        0xf900 <= c as u32 <= 0xfaff ==> char_width_spec(c) == 2,
        0xfe30 <= c as u32 <= 0xfe4f ==> char_width_spec(c) == 2,
        0xffe0 <= c as u32 <= 0xffe6 ==> char_width_spec(c) == 2,
        0x1f680 <= c as u32 <= 0x1f6ff ==> char_width_spec(c) == 2,
        0x1f900 <= c as u32 <= 0x1f9ff ==> char_width_spec(c) == 2,
        0x30000 <= c as u32 <= 0x3fffd ==> char_width_spec(c) == 2,
{
}

/// Combining marks (Latin, Hebrew, Arabic, for symbols, half marks, supplement),
/// zero-width spaces and joiners and the variation selectors take no cell;
/// printable ASCII, Latin, Cyrillic letters and general punctuation take one.
pub proof fn lemma_narrow_chars(c: char)
    ensures
        0x0300 <= c as u32 <= 0x036f ==> char_width_spec(c) == 0,
        0x200b <= c as u32 <= 0x200f ==> char_width_spec(c) == 0,
        0xfe00 <= c as u32 <= 0xfe0f ==> char_width_spec(c) == 0,
        0x20 <= c as u32 <= 0x7e ==> char_width_spec(c) == 1,
        0xa0 <= c as u32 <= 0x2ff ==> char_width_spec(c) == 1,
        0x0400 <= c as u32 <= 0x0482 ==> char_width_spec(c) == 1,
        0x0591 <= c as u32 <= 0x05c7 ==> char_width_spec(c) == 0,
        0x064b <= c as u32 <= 0x065f ==> char_width_spec(c) == 0,
        0x20d0 <= c as u32 <= 0x20ff ==> char_width_spec(c) == 0,
        0xfe20 <= c as u32 <= 0xfe2f ==> char_width_spec(c) == 0,
        0x1dc0 <= c as u32 <= 0x1dff ==> char_width_spec(c) == 0,
        0x2000 <= c as u32 <= 0x200a ==> char_width_spec(c) == 1,
        0x2010 <= c as u32 <= 0x20cf ==> char_width_spec(c) == 1,
        char_width_spec(c) <= 2,
{
}

/// Text made only of Hangul syllables and CJK ideographs is twice as wide as it is
/// long, and text of printable ASCII is as wide as it is long.
pub proof fn lemma_text_widths(cs: Seq<char>)
    ensures
        (forall|i: int| 0 <= i < cs.len() ==> (0xac00 <= #[trigger] (cs[i] as u32) <= 0xd7a3) || (0x4e00 <= cs[i] as u32 <= 0x9fff))
            ==> width_spec(cs) == 2 * cs.len(),
        (forall|i: int| 0 <= i < cs.len() ==> 0x20 <= #[trigger] (cs[i] as u32) <= 0x7e) ==> width_spec(cs) == cs.len(),
    decreases cs.len(),
{
    if cs.len() > 0 {
        let d = cs.drop_last();
        lemma_text_widths(d);
        if forall|i: int| 0 <= i < cs.len() ==> (0xac00 <= #[trigger] (cs[i] as u32) <= 0xd7a3) || (0x4e00 <= cs[i] as u32 <= 0x9fff) {
            assert forall|i: int| 0 <= i < d.len() implies (0xac00 <= #[trigger] (d[i] as u32) <= 0xd7a3) || (0x4e00 <= d[i] as u32 <= 0x9fff) by {
                assert(d[i] == cs[i]);
            }
            let x = cs[cs.len() - 1];
            assert((0xac00 <= x as u32 <= 0xd7a3) || (0x4e00 <= x as u32 <= 0x9fff));
        }
        if forall|i: int| 0 <= i < cs.len() ==> 0x20 <= #[trigger] (cs[i] as u32) <= 0x7e {
            assert forall|i: int| 0 <= i < d.len() implies 0x20 <= #[trigger] (d[i] as u32) <= 0x7e by {
                assert(d[i] == cs[i]);
            }
            let x = cs[cs.len() - 1];
            assert(0x20 <= x as u32 <= 0x7e);
        }
    }
}

/// A tab drawn at column `col` reaches the next tab stop, a multiple of eight
/// past `col`; other control characters show as two cells (`^X`); every other
/// character takes its own width.
pub proof fn lemma_step_cells(c: char, col: int)
    requires
        col >= 0,
    ensures
        c == '\t' ==> 1 <= step_spec(c, col) <= 8 && (col + step_spec(c, col)) % 8 == 0,
        c != '\t' && (c as u32) < 0x20 ==> step_spec(c, col) == 2,
        (c as u32) >= 0x20 ==> step_spec(c, col) == char_width_spec(c),
{
}

/// Cells taken by `c`.
pub fn char_width(c: char) -> (r: usize)
    ensures
        r == char_width_spec(c),
{
    let u = c as u32;
    if (0x0300 <= u && u <= 0x036f) || (0x0483 <= u && u <= 0x0489) || (0x0591 <= u && u <= 0x05c7)
        || (0x0610 <= u && u <= 0x061a) || (0x064b <= u && u <= 0x065f) || u == 0x0670 || (0x06d6
        <= u && u <= 0x06dc) || (0x06df <= u && u <= 0x06e4) || u == 0x0711 || (0x0730 <= u && u
        <= 0x074a) || (0x07a6 <= u && u <= 0x07b0) || (0x0900 <= u && u <= 0x0902) || u == 0x093c
        || (0x0941 <= u && u <= 0x0948) || u == 0x094d || (0x0951 <= u && u <= 0x0954) || u
        == 0x0e31 || (0x0e34 <= u && u <= 0x0e3a) || (0x0e47 <= u && u <= 0x0e4e) || (0x1ab0 <= u
        && u <= 0x1aff) || (0x1dc0 <= u && u <= 0x1dff) || (0x200b <= u && u <= 0x200f) || (0x20d0
        <= u && u <= 0x20ff) || (0xfe00 <= u && u <= 0xfe0f) || (0xfe20 <= u && u <= 0xfe2f) {
        0
    } else if (0x1100 <= u && u <= 0x115f) || (0x2e80 <= u && u <= 0x303e) || (0x3041 <= u && u
        <= 0x33ff) || (0x3400 <= u && u <= 0x4dbf) || (0x4e00 <= u && u <= 0x9fff) || (0xa000 <= u
        && u <= 0xa4cf) || (0xac00 <= u && u <= 0xd7a3) || (0xf900 <= u && u <= 0xfaff) || (0xfe30
        <= u && u <= 0xfe4f) || (0xff00 <= u && u <= 0xff60) || (0xffe0 <= u && u <= 0xffe6) || (
    0x1f300 <= u && u <= 0x1f64f) || (0x1f680 <= u && u <= 0x1f6ff) || (0x1f900 <= u && u
        <= 0x1f9ff) || (0x20000 <= u && u <= 0x2fffd) || (0x30000 <= u && u <= 0x3fffd) {
        2
    } else {
        1
    }
}

/// Cells `c` advances by when drawn at column `col`.
pub fn step(c: char, col: usize) -> (r: usize)
    ensures
        r == step_spec(c, col as int),
        1 <= r <= 8 || r == 0,
{
    if c == '\t' {
        8 - col % 8
    } else if (c as u32) < 0x20 {
        2
    } else {
        char_width(c)
    }
}

/// Cells a run of characters takes from column zero.
pub fn chars_width(cs: &Vec<char>) -> (r: usize)
    requires
        cs@.len() <= usize::MAX / 8,
    ensures
        r == width_spec(cs@),
{
    let mut w: usize = 0;
    let mut i: usize = 0;
    while i < cs.len()
        invariant
            i <= cs@.len() <= usize::MAX / 8,
            w == width_spec(cs@.take(i as int)),
        decreases cs@.len() - i,
    {
        proof {
            lemma_width_step(cs@, i as int);
            lemma_width_bounds(cs@.take(i + 1));
        }
        w = w + step(cs[i], w);
        i = i + 1;
    }
    assert(cs@.take(i as int) =~= cs@);
    w
}

/// Cells a string takes from column zero.
pub fn str_width(s: &str) -> (r: usize)
    requires
        s@.len() <= usize::MAX / 8,
    ensures
        r == width_spec(s@),
{
    let cs = str_chars(s);
    chars_width(&cs)
}

/// The display column of offset `at` on the line starting at `line_start`.
pub fn display_col(t: &PieceTable, line_start: usize, at: usize) -> (r: usize)
    requires
        t.wf(),
        t@.len() <= usize::MAX / 8,
        line_start < at && line_start < t@.len() ==> is_char_boundary(t@, line_start as int)
            && is_char_boundary(t@, if at < t@.len() { at as int } else { t@.len() as int }),
    ensures
        line_start < at && line_start < t@.len() ==> r == width_spec(
            decode_utf8(t@.subrange(line_start as int, if at < t@.len() { at as int } else { t@.len() as int })),
        ),
        !(line_start < at && line_start < t@.len()) ==> r == 0,
{
    let b = t.slice_bytes(line_start, at);
    proof {
        t.lemma_wf();
        if line_start < at && line_start < t@.len() {
            let e = if at < t@.len() { at as int } else { t@.len() as int };
            lemma_sub_boundary(t@, line_start as int, e, e);
        } else {
            reveal_with_fuel(valid_utf8, 1);
            assert(decode_utf8(b@) =~= Seq::<char>::empty());
        }
    }
    let cs = decode_all(&b);
    proof {
        crate::encoding::lemma_encode_len(cs@);
    }
    chars_width(&cs)
}

/// `k` is the first index whose prefix of `cs` reaches column `goal`, or the length.
pub open spec fn reaches_col(cs: Seq<char>, goal: int, k: int) -> bool {
    &&& 0 <= k <= cs.len()
    &&& k == cs.len() || width_spec(cs.take(k)) >= goal
    &&& forall|j: int| 0 <= j < k ==> width_spec(cs.take(j)) < goal
}

proof fn lemma_col_witness(t: Seq<u8>, ls: int, end: int, goal: int, k: int, r: int)
    requires
        is_next_newline(t, ls, end),
        reaches_col(decode_utf8(t.subrange(ls, end)), goal, k),
        r == ls + encode_utf8(decode_utf8(t.subrange(ls, end)).take(k)).len(),
    ensures
        exists|end: int, k: int|
            is_next_newline(t, ls, end) && reaches_col(decode_utf8(t.subrange(ls, end)), goal, k)
                && r == ls + encode_utf8(decode_utf8(t.subrange(ls, end)).take(k)).len(),
{
}

proof fn lemma_col_boundary(t: Seq<u8>, ls: int, end: int, k: int)
    requires
        valid_utf8(t),
        0 <= ls < t.len(),
        is_char_boundary(t, ls),
        is_next_newline(t, ls, end),
        0 <= k <= decode_utf8(t.subrange(ls, end)).len(),
    ensures
        ls + encode_utf8(decode_utf8(t.subrange(ls, end)).take(k)).len() <= t.len(),
        is_char_boundary(t, ls + encode_utf8(decode_utf8(t.subrange(ls, end)).take(k)).len()),
{
    is_char_boundary_start_end_of_seq(t);
    if end < t.len() {
        is_char_boundary_iff_not_is_continuation_byte(t, end);
    }
    let sub = t.subrange(ls, end);
    lemma_sub_boundary(t, ls, end, end);
    lemma_prefix_boundary(sub, k);
    let j = encode_utf8(decode_utf8(sub).take(k)).len() as int;
    assert(j <= sub.len());
    lemma_sub_boundary_back(t, ls, end, j);
}

/// The offset on the line starting at `line_start` whose column first reaches `goal`,
/// or the end of that line.
pub fn offset_at_col(t: &PieceTable, line_start: usize, goal: usize) -> (r: usize)
    requires
        t.wf(),
        t@.len() <= usize::MAX / 8,
        line_start < t@.len() ==> is_char_boundary(t@, line_start as int),
    ensures
        line_start >= t@.len() ==> r == line_start,
        line_start < t@.len() ==> exists|end: int, k: int|
            is_next_newline(t@, line_start as int, end) && reaches_col(
                decode_utf8(t@.subrange(line_start as int, end)),
                goal as int,
                k,
            ) && r == line_start + encode_utf8(
                decode_utf8(t@.subrange(line_start as int, end)).take(k),
            ).len(),
        line_start < t@.len() ==> r <= t@.len() && is_char_boundary(t@, r as int),
{
    let end = t.next_newline(line_start);
    let b = t.slice_bytes(line_start, end);
    proof {
        t.lemma_wf();
        if line_start < t@.len() {
            is_char_boundary_start_end_of_seq(t@);
            if end < t@.len() {
                is_char_boundary_iff_not_is_continuation_byte(t@, end as int);
            }
            lemma_sub_boundary(t@, line_start as int, end as int, end as int);
            if !(line_start < end) {
                assert(t@.subrange(line_start as int, end as int) =~= b@);
            }
        } else {
            reveal_with_fuel(valid_utf8, 1);
        }
    }
    let cs = decode_all(&b);
    let ghost bs = b@;
    let ghost ds = decode_utf8(t@.subrange(line_start as int, end as int));
    proof {
        crate::encoding::lemma_encode_len(cs@);
        if line_start < t@.len() {
            assert(cs@ == ds);
        }
    }
    let mut col: usize = 0;
    let mut off = line_start;
    let mut i: usize = 0;
    proof {
        assert(cs@.take(0) =~= Seq::<char>::empty());
        assert(encode_utf8(cs@.take(0)) =~= Seq::<u8>::empty());
    }
    while i < cs.len()
        invariant
            i <= cs@.len(),
            encode_utf8(cs@) == bs,
            bs.len() <= t@.len(),
            line_start < t@.len() || bs.len() == 0,
            t@.len() <= usize::MAX / 8,
            col == width_spec(cs@.take(i as int)),
            off == line_start + encode_utf8(cs@.take(i as int)).len(),
            forall|j: int| 0 <= j < i ==> width_spec(cs@.take(j)) < goal,
            cs@.len() <= bs.len(),
            line_start < t@.len() ==> cs@ == ds && is_next_newline(t@, line_start as int, end as int),
            ds == decode_utf8(t@.subrange(line_start as int, end as int)),
            t.wf(),
            line_start < t@.len() ==> is_char_boundary(t@, line_start as int),
        decreases cs@.len() - i,
    {
        if col >= goal {
            proof {
                if line_start < t@.len() {
                    assert(reaches_col(ds, goal as int, i as int));
                    assert(is_next_newline(t@, line_start as int, end as int));
                    assert(off == line_start + encode_utf8(ds.take(i as int)).len());
                    lemma_col_witness(t@, line_start as int, end as int, goal as int, i as int, off as int);
                    t.lemma_wf();
                    lemma_col_boundary(t@, line_start as int, end as int, i as int);
                }
            }
            return off;
        }
        proof {
            lemma_width_step(cs@, i as int);
            lemma_width_bounds(cs@.take(i + 1));
            assert(cs@.take(i + 1) =~= cs@.take(i as int).push(cs@[i as int]));
            lemma_encode_push(cs@.take(i as int), cs@[i as int]);
            assert(cs@ =~= cs@.take(i + 1) + cs@.skip(i + 1));
            crate::encoding::lemma_encode_concat(cs@.take(i + 1), cs@.skip(i + 1));
        }
        col = col + step(cs[i], col);
        off = off + char_len(cs[i]);
        i = i + 1;
    }
    proof {
        assert(cs@.take(i as int) =~= cs@);
        if line_start < t@.len() {
            assert(reaches_col(ds, goal as int, i as int));
            assert(is_next_newline(t@, line_start as int, end as int));
            assert(off == line_start + encode_utf8(ds.take(i as int)).len());
            lemma_col_witness(t@, line_start as int, end as int, goal as int, i as int, off as int);
            t.lemma_wf();
            lemma_col_boundary(t@, line_start as int, end as int, i as int);
        } else {
            assert(encode_utf8(cs@.take(i as int)).len() == 0);
        }
    }
    off
}

} // verus!
