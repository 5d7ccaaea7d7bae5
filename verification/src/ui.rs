//! Composing the screen: text lines with `$` truncation and horizontal scroll,
//! the reverse-video modeline and selection, and the echo area.
use vstd::prelude::*;
use vstd::utf8::*;
use crate::width::{step, step_spec, width_spec, lemma_width_step, lemma_width_bounds, lemma_width_mono};
use crate::encoding::{char_bytes, char_len, str_chars, count_nl};
use crate::editor::{Buffer, TEXT_MAX, selection_spec};
use crate::session::{Editor, Mode, view_ok};
use crate::text::{line_start_of, newline_from, is_line_start, is_next_newline};

verus! {

/// The escape that starts reverse video.
pub open spec fn rev_on() -> Seq<char> {
    seq!['\x1b', '[', '7', 'm']
}

/// The escape that ends reverse video.
pub open spec fn rev_off() -> Seq<char> {
    seq!['\x1b', '[', 'm']
}

/// `n` spaces.
pub open spec fn spaces(n: int) -> Seq<char> {
    Seq::new(if n < 0 { 0 } else { n as nat }, |i: int| ' ')
}

/// How `c` shows in `w` cells: a tab as spaces, another control character as `^`
/// and its letter, anything else as itself.
pub open spec fn glyph(c: char, w: int) -> Seq<char> {
    if c == '\t' {
        spaces(w)
    } else if (c as u32) < 0x20 {
        seq!['^', ((c as u32) + 0x40) as char]
    } else {
        seq![c]
    }
}

/// Whether byte offset `bi` of the line is selected.
pub open spec fn selected(sel: Option<(usize, usize)>, bi: int) -> bool {
    match sel {
        Some((a, z)) => a <= bi < z,
        None => false,
    }
}

/// Drawing the first `i` characters of a line whose visible part starts at column
/// `left` and is `avail` cells wide: the column reached, the cells drawn, the byte
/// offset reached, whether reverse video is on, the output, and whether drawing
/// stopped at the right edge.
pub open spec fn draw_run(cs: Seq<char>, left: int, avail: int, sel: Option<(usize, usize)>, i: int) -> (
    int,
    int,
    int,
    bool,
    Seq<char>,
    bool,
)
    decreases i,
{
    if i <= 0 || i > cs.len() {
        (0, 0, 0, false, Seq::empty(), false)
    } else {
        let (col, vw, bi, rev, out, stop) = draw_run(cs, left, avail, sel, i - 1);
        let c = cs[i - 1];
        let w = step_spec(c, col);
        if stop || col >= left + avail || col + w > left + avail {
            (col, vw, bi, rev, out, true)
        } else if col >= left {
            let want = selected(sel, bi);
            let out1 = if want != rev {
                out + if want { rev_on() } else { rev_off() }
            } else {
                out
            };
            (col + w, vw + w, bi + char_bytes(c).len(), want, out1 + glyph(c, w), false)
        } else if col + w > left {
            (col + w, vw + (col + w - left), bi + char_bytes(c).len(), rev, out + spaces(col + w - left), false)
        } else {
            (col + w, vw, bi + char_bytes(c).len(), rev, out, false)
        }
    }
}

/// What `draw_line` appends for the line `cs` shown from column `left` in `cols`
/// cells: the visible characters (a wide one that does not fit is dropped), the
/// selection `sel` (byte offsets in the line) in reverse video, then `$` when the
/// line goes on past the right edge, or a reversed space when `nl_sel` (the newline
/// is selected) and there is room.
pub open spec fn draw_spec(cs: Seq<char>, left: int, cols: int, sel: Option<(usize, usize)>, nl_sel: bool) -> Seq<char> {
    let truncated = width_spec(cs) > left + cols;
    let avail = if truncated { cols - 1 } else { cols };
    let (col, vw, bi, rev, out, stop) = draw_run(cs, left, avail, sel, cs.len() as int);
    let out1 = if rev { out + rev_off() } else { out };
    if truncated {
        out1 + spaces(cols - 1 - vw) + seq!['$']
    } else if nl_sel && vw < cols {
        out1 + rev_on() + seq![' '] + rev_off()
    } else {
        out1
    }
}

/// Drawing a prefix of a line of printable characters narrower than the screen,
/// from column zero with nothing selected, reaches the prefix's width and has drawn
/// the prefix itself.
proof fn lemma_draw_run_plain(cs: Seq<char>, cols: int, i: int)
    requires
        0 <= i <= cs.len(),
        forall|j: int| 0 <= j < cs.len() ==> (#[trigger] cs[j] as u32) >= 0x20,
        width_spec(cs) < cols,
    ensures
        draw_run(cs, 0, cols, None, i).0 == width_spec(cs.take(i)),
        draw_run(cs, 0, cols, None, i).1 == width_spec(cs.take(i)),
        !draw_run(cs, 0, cols, None, i).3,
        draw_run(cs, 0, cols, None, i).4 == cs.take(i),
        !draw_run(cs, 0, cols, None, i).5,
    decreases i,
{
    if i == 0 {
        assert(cs.take(0) =~= Seq::<char>::empty());
    } else {
        lemma_draw_run_plain(cs, cols, i - 1);
        lemma_width_step(cs, i - 1);
        lemma_width_mono(cs, i, cs.len() as int);
        lemma_width_bounds(cs.take(i - 1));
        assert(cs.take(cs.len() as int) =~= cs);
        let c = cs[i - 1];
        assert((c as u32) >= 0x20);
        assert(c != '\t');
        let prev = draw_run(cs, 0, cols, None, i - 1);
        let w = step_spec(c, prev.0);
        assert(glyph(c, w) == seq![c]);
        assert(!selected(None, prev.2));
        assert(draw_run(cs, 0, cols, None, i) == (prev.0 + w, prev.1 + w, prev.2 + char_bytes(c).len(), false, prev.4
            + glyph(c, w), false));
        assert(cs.take(i) =~= cs.take(i - 1) + seq![c]);
    }
}

/// A line of printable characters narrower than the screen, shown from its first
/// column with nothing selected, is drawn as it is.
pub proof fn lemma_plain_line_drawn(cs: Seq<char>, cols: int)
    requires
        forall|j: int| 0 <= j < cs.len() ==> (#[trigger] cs[j] as u32) >= 0x20,
        width_spec(cs) < cols,
    ensures
        draw_spec(cs, 0, cols, None, false) == cs,
{
    lemma_draw_run_plain(cs, cols, cs.len() as int);
    assert(cs.take(cs.len() as int) =~= cs);
}

/// A control character other than tab shows as a caret and the character 0x40
/// above it (`^A` for 0x01, `^[` for ESC), two cells wide; a tab shows as spaces up
/// to the next tab stop.
pub proof fn lemma_control_glyphs(c: char, cols: int)
    requires
        cols >= 9,
    ensures
        (c as u32) < 0x20 && c != '\t' ==> draw_spec(seq![c], 0, cols, None, false).len() == 2 && draw_spec(
            seq![c],
            0,
            cols,
            None,
            false,
        )[0] == '^' && draw_spec(seq![c], 0, cols, None, false)[1] as u32 == (c as u32) + 0x40,
        c == '\t' ==> draw_spec(seq![c], 0, cols, None, false) == seq![' ', ' ', ' ', ' ', ' ', ' ', ' ', ' '],
{
    let cs = seq![c];
    assert(cs.drop_last() =~= Seq::<char>::empty());
    assert(width_spec(cs.drop_last()) == 0);
    assert(cs.last() == c);
    assert(width_spec(cs) == step_spec(c, 0));
    assert(draw_run(cs, 0, cols, None, 0) == (0int, 0int, 0int, false, Seq::<char>::empty(), false));
    if (c as u32) < 0x20 && c != '\t' {
        assert((((c as u32) + 0x40) as char) as u32 == (c as u32) + 0x40);
    }
    if c == '\t' {
        assert(spaces(8) =~= seq![' ', ' ', ' ', ' ', ' ', ' ', ' ', ' ']);
    }
}

/// A line that goes on past the right edge of the screen ends its row with `$`.
pub proof fn lemma_long_line_marked(cs: Seq<char>, left: int, cols: int, sel: Option<(usize, usize)>, nl_sel: bool)
    requires
        width_spec(cs) > left + cols,
    ensures
        draw_spec(cs, left, cols, sel, nl_sel).len() > 0,
        draw_spec(cs, left, cols, sel, nl_sel).last() == '$',
{
}

fn push_seq_rev_on(v: &mut Vec<char>)
    ensures
        final(v)@ == old(v)@ + rev_on(),
{
    v.push('\x1b');
    v.push('[');
    v.push('7');
    v.push('m');
    assert(final(v)@ =~= old(v)@ + rev_on());
}

fn push_seq_rev_off(v: &mut Vec<char>)
    ensures
        final(v)@ == old(v)@ + rev_off(),
{
    v.push('\x1b');
    v.push('[');
    v.push('m');
    assert(final(v)@ =~= old(v)@ + rev_off());
}

fn push_spaces(v: &mut Vec<char>, n: usize)
    ensures
        final(v)@ == old(v)@ + spaces(n as int),
{
    let mut i: usize = 0;
    let ghost v0 = v@;
    while i < n
        invariant
            i <= n,
            v@ == v0 + spaces(i as int),
        decreases n - i,
    {
        v.push(' ');
        i = i + 1;
        assert(v@ =~= v0 + spaces(i as int));
    }
}

/// Appends `s` as it shows from column `left` in `cols` cells (see `draw_spec`).
pub fn draw_line(f: &mut String, s: &str, left: usize, cols: usize, sel: Option<(usize, usize)>, nl_sel: bool)
    requires
        s@.len() <= usize::MAX / 16,
        left <= usize::MAX / 2 + 1,
        cols <= usize::MAX / 4,
        cols > 0 || width_spec(s@) <= left,
    ensures
        final(f)@ == old(f)@ + draw_spec(s@, left as int, cols as int, sel, nl_sel),
{
    let cs = str_chars(s);
    proof {
        lemma_width_bounds(cs@);
    }
    let total = crate::width::chars_width(&cs);
    let truncated = total > left + cols;
    let avail = if truncated { cols - 1 } else { cols };
    let mut out: Vec<char> = Vec::new();
    let mut col: usize = 0;
    let mut vw: usize = 0;
    let mut bi: usize = 0;
    let mut rev = false;
    let mut i: usize = 0;
    let ghost sv = cs@;
    while i < cs.len()
        invariant
            sv == cs@,
            cs@ == s@,
            cs@.len() <= usize::MAX / 16,
            i <= cs@.len(),
            left <= usize::MAX / 2 + 1,
            avail <= usize::MAX / 4,
            draw_run(sv, left as int, avail as int, sel, i as int) == (
                col as int,
                vw as int,
                bi as int,
                rev,
                out@,
                false,
            ),
            col <= left + avail,
            vw <= col,
            bi <= 4 * i,
        ensures
            draw_run(sv, left as int, avail as int, sel, cs@.len() as int).0 == col,
            draw_run(sv, left as int, avail as int, sel, cs@.len() as int).1 == vw,
            draw_run(sv, left as int, avail as int, sel, cs@.len() as int).3 == rev,
            draw_run(sv, left as int, avail as int, sel, cs@.len() as int).4 == out@,
        decreases cs@.len() - i,
    {
        let c = cs[i];
        if col >= left + avail {
            proof {
                lemma_draw_stopped_at(sv, left as int, avail as int, sel, i as int, sv.len() as int);
            }
            break;
        }
        let w = step(c, col);
        if col + w > left + avail {
            proof {
                lemma_draw_stopped_at(sv, left as int, avail as int, sel, i as int, sv.len() as int);
            }
            break;
        }
        let ghost prev = out@;
        if col >= left {
            let want = match sel {
                Some((a, z)) => bi >= a && bi < z,
                None => false,
            };
            if want != rev {
                if want {
                    push_seq_rev_on(&mut out);
                } else {
                    push_seq_rev_off(&mut out);
                }
                rev = want;
            }
            let ghost mid = out@;
            if c == '\t' {
                push_spaces(&mut out, w);
            } else if (c as u32) < 0x20 {
                out.push('^');
                let x = ((c as u32) + 0x40) as u8;
                out.push(x as char);
                proof {
                    assert(out@ =~= mid + glyph(c, w as int));
                }
            } else {
                out.push(c);
                proof {
                    assert(out@ =~= mid + glyph(c, w as int));
                }
            }
            vw = vw + w;
        } else if col + w > left {
            push_spaces(&mut out, col + w - left);
            vw = vw + (col + w - left);
        }
        col = col + w;
        proof {
            crate::encoding::lemma_char_bytes_len(c);
        }
        bi = bi + char_len(c);
        i = i + 1;
    }
    if rev {
        push_seq_rev_off(&mut out);
    }
    if truncated {
        if vw < cols - 1 {
            push_spaces(&mut out, cols - 1 - vw);
        } else {
            proof {
                assert(spaces(cols - 1 - vw) =~= Seq::<char>::empty());
            }
        }
        out.push('$');
    } else if nl_sel && vw < cols {
        push_seq_rev_on(&mut out);
        out.push(' ');
        push_seq_rev_off(&mut out);
    }
    let t = crate::session::string_of(&out);
    *f = crate::forth::join2(f.as_str(), t.as_str());
}

proof fn lemma_draw_stopped_at(cs: Seq<char>, left: int, avail: int, sel: Option<(usize, usize)>, i: int, k: int)
    requires
        0 <= i < k <= cs.len(),
        ({
            let (col, vw, bi, rev, out, stop) = draw_run(cs, left, avail, sel, i);
            !stop && (col >= left + avail || col + step_spec(cs[i], col) > left + avail)
        }),
    ensures
        ({
            let r = draw_run(cs, left, avail, sel, k);
            let s = draw_run(cs, left, avail, sel, i);
            r.0 == s.0 && r.1 == s.1 && r.2 == s.2 && r.3 == s.3 && r.4 == s.4 && r.5
        }),
    decreases k,
{
    if k > i + 1 {
        lemma_draw_stopped_at(cs, left, avail, sel, i, k - 1);
    }
}


/// Clipping the first `i` characters of `cs` to `cols` cells: how many are kept,
/// their width, and whether clipping stopped.
pub open spec fn clip_run(cs: Seq<char>, cols: int, i: int) -> (int, int, bool)
    decreases i,
{
    if i <= 0 || i > cs.len() {
        (0, 0, false)
    } else {
        let (n, w, stop) = clip_run(cs, cols, i - 1);
        let cw = step_spec(cs[i - 1], w);
        if stop || w + cw > cols {
            (n, w, true)
        } else {
            (n + 1, w + cw, false)
        }
    }
}

/// The longest start of `s` that fits in `cols` cells, and its width.
pub open spec fn clip_spec(s: Seq<char>, cols: int) -> (Seq<char>, int) {
    let (n, w, stop) = clip_run(s, cols, s.len() as int);
    (s.take(n), w)
}

/// Clipping a prefix keeps a start of it that fits, and stops only at a character
/// that would not fit.
proof fn lemma_clip_run_fits(cs: Seq<char>, cols: int, i: int)
    requires
        cols >= 0,
        0 <= i <= cs.len(),
    ensures
        0 <= clip_run(cs, cols, i).0 <= i,
        clip_run(cs, cols, i).1 == width_spec(cs.take(clip_run(cs, cols, i).0)),
        clip_run(cs, cols, i).1 <= cols,
        !clip_run(cs, cols, i).2 ==> clip_run(cs, cols, i).0 == i,
        clip_run(cs, cols, i).2 ==> clip_run(cs, cols, i).0 < i && width_spec(cs.take(clip_run(cs, cols, i).0 + 1)) > cols,
    decreases i,
{
    if i == 0 {
        assert(cs.take(0) =~= Seq::<char>::empty());
    } else {
        lemma_clip_run_fits(cs, cols, i - 1);
        let prev = clip_run(cs, cols, i - 1);
        if !prev.2 {
            lemma_width_step(cs, i - 1);
        }
    }
}

/// The modeline and the echo area are clipped to the screen: what `clip_spec` keeps
/// of `s` is a start of it at most `cols` cells wide, of the width it reports, and
/// the next character, if any, would not have fitted.
pub proof fn lemma_clip_longest(s: Seq<char>, cols: int)
    requires
        cols >= 0,
    ensures
        clip_spec(s, cols).0 == s.take(clip_spec(s, cols).0.len() as int),
        clip_spec(s, cols).0.len() <= s.len(),
        clip_spec(s, cols).1 == width_spec(clip_spec(s, cols).0),
        clip_spec(s, cols).1 <= cols,
        clip_spec(s, cols).0.len() < s.len() ==> width_spec(s.take(clip_spec(s, cols).0.len() + 1int)) > cols,
{
    lemma_clip_run_fits(s, cols, s.len() as int);
}

proof fn lemma_clip_stopped(cs: Seq<char>, cols: int, i: int, k: int)
    requires
        0 <= i < k <= cs.len(),
        ({
            let (n, w, stop) = clip_run(cs, cols, i);
            !stop && w + step_spec(cs[i], w) > cols
        }),
    ensures
        clip_run(cs, cols, k).0 == clip_run(cs, cols, i).0,
        clip_run(cs, cols, k).1 == clip_run(cs, cols, i).1,
        clip_run(cs, cols, k).2,
    decreases k,
{
    if k > i + 1 {
        lemma_clip_stopped(cs, cols, i, k - 1);
    }
}

/// The start of `s` that fits in `cols` cells, and its width.
fn clip(s: &[char], cols: usize) -> (r: (Vec<char>, usize))
    requires
        cols <= usize::MAX / 2,
    ensures
        r.0@ == clip_spec(s@, cols as int).0,
        r.1 == clip_spec(s@, cols as int).1,
        r.1 <= cols,
{
    let mut out: Vec<char> = Vec::new();
    let mut w: usize = 0;
    let mut i: usize = 0;
    while i < s.len()
        invariant
            i <= s@.len(),
            cols <= usize::MAX / 2,
            clip_run(s@, cols as int, i as int) == (out@.len() as int, w as int, false),
            out@.len() == i,
            out@ == s@.take(out@.len() as int),
            w <= cols,
        ensures
            clip_run(s@, cols as int, s@.len() as int).0 == out@.len(),
            clip_run(s@, cols as int, s@.len() as int).1 == w,
            out@ == s@.take(out@.len() as int),
            w <= cols,
        decreases s@.len() - i,
    {
        let cw = step(s[i], w);
        if w + cw > cols {
            proof {
                lemma_clip_stopped(s@, cols as int, i as int, s@.len() as int);
            }
            break;
        }
        out.push(s[i]);
        w = w + cw;
        i = i + 1;
        proof {
            assert(out@ =~= s@.take(out@.len() as int));
        }
    }
    (out, w)
}

/// Appends the characters of `s`.
fn push_text(v: &mut Vec<char>, s: &str)
    ensures
        final(v)@ == old(v)@ + s@,
{
    let mut cs = str_chars(s);
    v.append(&mut cs);
}

/// The decimal text of `n`.
pub open spec fn num_text(n: nat) -> Seq<char> {
    decode_utf8(crate::encoding::digits_spec(n))
}

/// Appends the decimal text of `n`.
fn push_num(v: &mut Vec<char>, n: usize)
    ensures
        final(v)@ == old(v)@ + num_text(n as nat),
{
    let t = crate::encoding::uint_string(n);
    proof {
        encode_utf8_decode_utf8(t@);
    }
    push_text(v, t.as_str());
}


/// `min(width_spec(cs), cap)`.
fn width_capped(cs: &Vec<char>, cap: usize) -> (r: usize)
    requires
        cap <= usize::MAX / 2,
    ensures
        r == (if width_spec(cs@) < cap { width_spec(cs@) } else { cap as int }),
{
    let mut w: usize = 0;
    let mut i: usize = 0;
    while i < cs.len() && w <= cap
        invariant
            i <= cs@.len(),
            cap <= usize::MAX / 2,
            w == width_spec(cs@.take(i as int)),
            w <= cap + 8,
        decreases cs@.len() - i,
    {
        proof {
            lemma_width_step(cs@, i as int);
        }
        w = w + step(cs[i], w);
        i = i + 1;
    }
    proof {
        lemma_width_mono(cs@, i as int, cs@.len() as int);
        assert(cs@.take(cs@.len() as int) =~= cs@);
    }
    if w < cap { w } else { cap }
}

/// The modeline's text before clipping.
pub open spec fn modeline_text(b: Buffer, line: int, ccol: int, nlines: int) -> Seq<char> {
    "-"@ + (if b.modified { "**"@ } else { "--"@ }) + "- "@ + b.name@ + "   L"@ + num_text((line + 1) as nat) + "/"@
        + num_text(nlines as nat) + " C"@ + num_text(ccol as nat) + "   "@ + num_text(((line + 1) * 100 / nlines) as nat)
        + "%   "@ + match b.path {
        Some(p) => p@,
        None => Seq::empty(),
    }
}

/// The modeline starts with `-**-` for a modified buffer and `----` otherwise, then
/// a space and the buffer's name.
pub proof fn lemma_modeline_marks(b: Buffer, line: int, ccol: int, nlines: int)
    ensures
        modeline_text(b, line, ccol, nlines).take(4) == (if b.modified { seq!['-', '*', '*', '-'] } else { seq!['-', '-', '-', '-'] }),
        modeline_text(b, line, ccol, nlines)[4] == ' ',
        modeline_text(b, line, ccol, nlines).subrange(5, 5int + b.name@.len()) == b.name@,
{
    reveal_strlit("-");
    reveal_strlit("**");
    reveal_strlit("--");
    reveal_strlit("- ");
    let m = modeline_text(b, line, ccol, nlines);
    let head = "-"@ + (if b.modified { "**"@ } else { "--"@ }) + "- "@ + b.name@;
    assert(m.take(5int + b.name@.len()) =~= head);
    assert(m.take(4) =~= head.take(4));
    assert(m[4] == head[4]);
    assert(m.subrange(5, 5int + b.name@.len()) =~= head.subrange(5, 5int + b.name@.len()));
}

/// The modeline: its text clipped to `cols` cells and padded, in reverse video.
pub open spec fn modeline_spec(b: Buffer, cols: int, line: int, ccol: int, nlines: int) -> Seq<char> {
    let (c, w) = clip_spec(modeline_text(b, line, ccol, nlines), cols);
    rev_on() + c + spaces(cols - w) + rev_off()
}

fn modeline(b: &Buffer, v: &mut Vec<char>, cols: usize, line: usize, ccol: usize, nlines: usize)
    requires
        nlines > 0,
        line < nlines,
        nlines <= TEXT_MAX + 1,
        cols <= usize::MAX / 2,
    ensures
        final(v)@ == old(v)@ + modeline_spec(*b, cols as int, line as int, ccol as int, nlines as int),
{
    let mut s: Vec<char> = Vec::new();
    push_text(&mut s, "-");
    push_text(&mut s, if b.modified { "**" } else { "--" });
    push_text(&mut s, "- ");
    push_text(&mut s, b.name.as_str());
    push_text(&mut s, "   L");
    push_num(&mut s, line + 1);
    push_text(&mut s, "/");
    push_num(&mut s, nlines);
    push_text(&mut s, " C");
    push_num(&mut s, ccol);
    push_text(&mut s, "   ");
    let wide: u128 = (line as u128 + 1) * 100 / (nlines as u128);
    proof {
        assert((line + 1) * 100 / (nlines as int) <= 100) by (nonlinear_arith)
            requires
                line < nlines,
                nlines > 0,
        ;
    }
    let pct = wide as usize;
    push_num(&mut s, pct);
    push_text(&mut s, "%   ");
    match &b.path {
        Some(p) => push_text(&mut s, p.as_str()),
        None => {},
    }
    proof {
        assert(s@ =~= modeline_text(*b, line as int, ccol as int, nlines as int));
    }
    let (c, w) = clip(s.as_slice(), cols);
    push_seq_rev_on(v);
    let mut c = c;
    v.append(&mut c);
    push_spaces(v, cols - w);
    push_seq_rev_off(v);
}

/// The search's echo-area text.
pub open spec fn search_text(found: bool, forward: bool, needle: Seq<char>) -> Seq<char> {
    (if found { ""@ } else { "Failing "@ }) + "I-search"@ + (if forward { ""@ } else { " backward"@ }) + ": "@ + needle
}

/// What the echo area shows, clipped to `cols` cells, and the column of the cursor
/// when a prompt has it.
pub open spec fn echo_spec(ed: Editor, cols: int) -> (Seq<char>, Option<int>) {
    match ed.mode {
        Mode::Prompt(p) => {
            let s = if p.matches@.len() == 0 {
                p.label@ + p.input@
            } else {
                p.label@ + p.input@ + "  {"@ + p.matches@ + "}"@
            };
            let c = width_spec(p.label@) + width_spec(decode_utf8(encode_utf8(p.input@).take(p.cur as int)));
            (clip_spec(s, cols).0, Some(if c < cols - 1 { c } else { cols - 1 }))
        },
        Mode::Search(s) => (clip_spec(search_text(s.found, s.forward, s.needle@), cols).0, None),
        Mode::Replace(r) => (clip_spec("Query replacing "@ + r.from@ + " with "@ + r.to@ + ": (y, n, !, q)"@, cols).0, None),
        Mode::Edit => (clip_spec(ed.echo@, cols).0, None),
    }
}

fn echo_line(ed: &Editor, v: &mut Vec<char>, cols: usize) -> (r: Option<usize>)
    requires
        ed.wf(),
        1 <= cols <= usize::MAX / 4,
    ensures
        final(v)@ == old(v)@ + echo_spec(*ed, cols as int).0,
        match echo_spec(*ed, cols as int).1 {
            Some(c) => r == Some(c as usize),
            None => r is None,
        },
        r matches Some(c) ==> c < cols,
        echo_spec(*ed, cols as int).1 matches Some(c) ==> 0 <= c < cols,
{
    match &ed.mode {
        Mode::Prompt(p) => {
            let mut s: Vec<char> = Vec::new();
            push_text(&mut s, p.label.as_str());
            push_text(&mut s, p.input.as_str());
            if !p.matches.as_str().is_empty() {
                push_text(&mut s, "  {");
                push_text(&mut s, p.matches.as_str());
                push_text(&mut s, "}");
            }
            let (c, _) = clip(s.as_slice(), cols);
            let mut c = c;
            v.append(&mut c);
            let lc = str_chars(p.label.as_str());
            let ib = crate::encoding::string_bytes(&p.input);
            proof {
                encode_utf8_valid_utf8(p.input@);
                is_char_boundary_start_end_of_seq(ib@);
                crate::encoding::lemma_sub_boundary(ib@, 0, p.cur as int, p.cur as int);
                assert(ib@.subrange(0, p.cur as int) =~= ib@.take(p.cur as int));
            }
            let head = crate::encoding::decode_all(&crate::session::bytes_prefix(&ib, p.cur));
            let wl = width_capped(&lc, cols);
            let wi = width_capped(&head, cols);
            let cc = if wl + wi < cols - 1 { wl + wi } else { cols - 1 };
            proof {
                lemma_width_bounds(lc@);
                lemma_width_bounds(head@);
            }
            Some(cc)
        },
        Mode::Search(s) => {
            let mut m: Vec<char> = Vec::new();
            push_text(&mut m, if s.found { "" } else { "Failing " });
            push_text(&mut m, "I-search");
            push_text(&mut m, if s.forward { "" } else { " backward" });
            push_text(&mut m, ": ");
            push_text(&mut m, s.needle.as_str());
            let (c, _) = clip(m.as_slice(), cols);
            let mut c = c;
            v.append(&mut c);
            None
        },
        Mode::Replace(r) => {
            let mut m: Vec<char> = Vec::new();
            push_text(&mut m, "Query replacing ");
            push_text(&mut m, r.from.as_str());
            push_text(&mut m, " with ");
            push_text(&mut m, r.to.as_str());
            push_text(&mut m, ": (y, n, !, q)");
            let (c, _) = clip(m.as_slice(), cols);
            let mut c = c;
            v.append(&mut c);
            None
        },
        Mode::Edit => {
            let e = str_chars(ed.echo.as_str());
            let (c, _) = clip(e.as_slice(), cols);
            let mut c = c;
            v.append(&mut c);
            None
        },
    }
}


/// Where line `li` of `t` starts and ends (before its newline).
pub open spec fn line_span(t: Seq<u8>, li: int) -> (int, int) {
    let ls = line_start_of(t, li);
    (ls, newline_from(t, ls))
}

/// The part of selection `sel` on the line `[ls, le)`, as offsets in the line, and
/// whether the line's newline is selected.
pub open spec fn line_selection(sel: Option<(usize, usize)>, ls: int, le: int) -> (Option<(usize, usize)>, bool) {
    match sel {
        Some((a, z)) => {
            let s0 = if a < ls { ls } else { a as int };
            let s1 = if z < le { z as int } else { le };
            (if s0 < s1 { Some(((s0 - ls) as usize, (s1 - ls) as usize)) } else { None }, a <= le && z > le)
        },
        None => (None, false),
    }
}

/// Screen row `r` of the text area: cleared, then line `top + r` if there is one.
pub open spec fn row_spec(b: Buffer, cols: int, r: int) -> Seq<char> {
    let t = b.text@;
    let li = b.top + r;
    let body = if li < count_nl(t) + 1 {
        let (ls, le) = line_span(t, li);
        let (ls_sel, nl) = line_selection(selection_spec(b.mark_active, b.mark, b.cursor), ls, le);
        draw_spec(decode_utf8(t.subrange(ls, le)), b.left as int, cols, ls_sel, nl)
    } else {
        Seq::empty()
    };
    seq!['\x1b', '[', 'K'] + body + seq!['\r', '\n']
}

/// The first `n` rows of the text area.
pub open spec fn rows_spec(b: Buffer, cols: int, n: int) -> Seq<char>
    decreases n,
{
    if n <= 0 {
        Seq::empty()
    } else {
        rows_spec(b, cols, n - 1) + row_spec(b, cols, n - 1)
    }
}

/// The display column of the cursor of `b`.
pub open spec fn cursor_col(b: Buffer) -> int {
    let t = b.text@;
    let ls = line_start_of(t, count_nl(t.take(b.cursor as int)) as int);
    if ls < b.cursor { width_spec(decode_utf8(t.subrange(ls, b.cursor as int))) } else { 0 }
}

/// The frame `render` draws for `ed`: nothing on a screen under 3 rows or 8 columns;
/// otherwise the text rows, the modeline, the echo line, and the cursor placed in the
/// prompt or on the text.
pub open spec fn frame_spec(ed: Editor) -> Seq<char> {
    let rows = ed.rows as int;
    let cols = ed.cols as int;
    if rows < 3 || cols < 8 {
        Seq::empty()
    } else {
        let b = ed.cur();
        let t = b.text@;
        let line = count_nl(t.take(b.cursor as int)) as int;
        let ccol = cursor_col(b);
        let nlines = count_nl(t) as int + 1;
        let (echo, ec) = echo_spec(ed, cols);
        let (crow, ccs) = match ec {
            Some(c) => (rows, c + 1),
            None => (
                if line >= b.top { line - b.top + 1 } else { 1 },
                if ccol >= b.left { ccol - b.left + 1 } else { 1 },
            ),
        };
        seq!['\x1b', '[', '?', '2', '0', '2', '6', 'h', '\x1b', '[', '?', '2', '5', 'l', '\x1b', '[', 'H'] + rows_spec(
            b,
            cols,
            rows - 2,
        ) + modeline_spec(b, cols, line, ccol, nlines) + seq!['\r', '\n', '\x1b', '[', 'K'] + echo + seq!['\x1b', '['] + num_text(
            crow as nat,
        ) + seq![';'] + num_text(ccs as nat) + seq!['H', '\x1b', '[', '?', '2', '5', 'h', '\x1b', '[', '?', '2', '0', '2', '6', 'l']
    }
}

fn push_chars(v: &mut Vec<char>, cs: &[char])
    ensures
        final(v)@ == old(v)@ + cs@,
{
    let mut i: usize = 0;
    let ghost v0 = v@;
    while i < cs.len()
        invariant
            i <= cs@.len(),
            v@ == v0 + cs@.take(i as int),
        decreases cs@.len() - i,
    {
        v.push(cs[i]);
        i = i + 1;
        assert(v@ =~= v0 + cs@.take(i as int));
    }
    assert(cs@.take(cs@.len() as int) =~= cs@);
}

/// The text area's first `trows` rows for buffer `b`.
fn text_rows(b: &Buffer, cols: usize, trows: usize) -> (f: Vec<char>)
    requires
        view_ok(*b),
        8 <= cols <= 0xffff,
        trows <= 0xffff,
    ensures
        f@ == rows_spec(*b, cols as int, trows as int),
{
    proof {
        b.lemma_wf();
    }
    let t = &b.text;
    let top = b.top;
    let left = b.left;
    let sel = b.selection();
    let nlines = t.line_count();
    let mut f: Vec<char> = Vec::new();
    let mut r: usize = 0;
    while r < trows
        invariant
            r <= trows,
            trows <= 0xffff,
            b.wf(),
            t == b.text,
            top == b.top,
            left == b.left,
            left <= usize::MAX / 2 + 1,
            top <= TEXT_MAX + 1,
            cols <= 0xffff,
            cols >= 8,
            nlines == count_nl(t@) + 1,
            sel == selection_spec(b.mark_active, b.mark, b.cursor),
            f@ == rows_spec(*b, cols as int, r as int),
        decreases trows - r,
    {
        let ghost before = f@;
        push_text(&mut f, "\x1b[K");
        proof {
            reveal_strlit("\x1b[K");
            b.lemma_wf();
        }
        let li = top + r;
        if li < nlines {
            let ls = t.line_start(li);
            proof {
                crate::editor::lemma_line_start_boundary(t@, li as int, ls as int);
                crate::text::lemma_line_start_is(t@, li as int, ls as int);
            }
            let le = t.next_newline(ls);
            proof {
                crate::editor::lemma_newline_bound(t@, ls as int, le as int);
                crate::text::lemma_newline_is(t@, ls as int, le as int);
            }
            let s = t.slice(ls, le);
            let (line_sel, nl_sel) = match sel {
                Some((a, z)) => {
                    let s0 = if a < ls { ls } else { a };
                    let s1 = if z < le { z } else { le };
                    (if s0 < s1 { Some((s0 - ls, s1 - ls)) } else { None }, a <= le && z > le)
                },
                None => (None, false),
            };
            let mut fs = String::new();
            proof {
                if !(ls < le) {
                    reveal_with_fuel(valid_utf8, 1);
                    assert(t@.subrange(ls as int, le as int) =~= Seq::<u8>::empty());
                    assert(encode_utf8(s@) =~= Seq::<u8>::empty());
                } else {
                    crate::encoding::lemma_sub_boundary(t@, ls as int, le as int, ls as int);
                }
                encode_utf8_decode_utf8(s@);
                crate::encoding::lemma_encode_len(s@);
            }
            draw_line(&mut fs, s.as_str(), left, cols, line_sel, nl_sel);
            push_text(&mut f, fs.as_str());
        }
        push_text(&mut f, "\r\n");
        proof {
            reveal_strlit("\r\n");
            assert(f@ =~= before + row_spec(*b, cols as int, r as int));
        }
        r = r + 1;
    }
    f
}

/// Moving the cursor to row `crow`, column `ccs` (from one), showing it, and ending
/// the synchronized update.
pub open spec fn cursor_tail(crow: nat, ccs: nat) -> Seq<char> {
    seq!['\x1b', '['] + num_text(crow) + seq![';'] + num_text(ccs) + seq![
        'H',
        '\x1b',
        '[',
        '?',
        '2',
        '5',
        'h',
        '\x1b',
        '[',
        '?',
        '2',
        '0',
        '2',
        '6',
        'l',
    ]
}

fn push_cursor_tail(f: &mut Vec<char>, crow: usize, ccs: usize)
    ensures
        final(f)@ == old(f)@ + cursor_tail(crow as nat, ccs as nat),
{
    push_text(f, "\x1b[");
    push_num(f, crow);
    push_text(f, ";");
    push_num(f, ccs);
    push_text(f, "H\x1b[?25h\x1b[?2026l");
    proof {
        reveal_strlit("\x1b[");
        reveal_strlit(";");
        reveal_strlit("H\x1b[?25h\x1b[?2026l");
        assert(final(f)@ =~= old(f)@ + cursor_tail(crow as nat, ccs as nat));
    }
}

/// The whole screen for `ed`, as text with terminal escapes.
#[verifier::rlimit(80)]
pub fn render(ed: &Editor) -> (r: String)
    requires
        ed.wf(),
    ensures
        r@ == frame_spec(*ed),
{
    let rows = ed.rows;
    let cols = ed.cols;
    if rows < 3 || cols < 8 {
        return String::new();
    }
    let trows = rows - 2;
    let b = ed.buf();
    proof {
        assert(view_ok(ed.buffers@[ed.current as int]));
        b.lemma_wf();
    }
    let t = &b.text;
    let line = b.line();
    let ls0 = t.line_start(line);
    proof {
        crate::editor::lemma_line_start_boundary(t@, line as int, ls0 as int);
        crate::text::lemma_line_start_is(t@, line as int, ls0 as int);
        crate::encoding::lemma_count_nl_bound(t@.take(b.cursor as int));
        crate::encoding::lemma_count_nl_bound(t@);
        assert(t@ =~= t@.take(b.cursor as int) + t@.skip(b.cursor as int));
        crate::encoding::lemma_count_nl_concat(t@.take(b.cursor as int), t@.skip(b.cursor as int));
    }
    let ccol = crate::width::display_col(t, ls0, b.cursor);
    proof {
        if ls0 < b.cursor {
            crate::encoding::lemma_sub_boundary(t@, ls0 as int, b.cursor as int, ls0 as int);
            let cs = decode_utf8(t@.subrange(ls0 as int, b.cursor as int));
            lemma_width_bounds(cs);
            decode_utf8_encode_utf8(t@.subrange(ls0 as int, b.cursor as int));
            crate::encoding::lemma_encode_len(cs);
            assert(8 * cs.len() <= 8 * TEXT_MAX) by (nonlinear_arith)
                requires
                    cs.len() <= TEXT_MAX,
            ;
        }
        assert(ccol as int == cursor_col(*b));
    }
    let top = b.top;
    let left = b.left;
    let nlines = t.line_count();
    let mut f: Vec<char> = Vec::new();
    push_text(&mut f, "\x1b[?2026h\x1b[?25l\x1b[H");
    proof {
        reveal_strlit("\x1b[?2026h\x1b[?25l\x1b[H");
    }
    let ghost head = f@;
    let mut rows_text = text_rows(b, cols, trows);
    f.append(&mut rows_text);
    let ghost after_rows = f@;
    modeline(b, &mut f, cols, line, ccol, nlines);
    let ghost after_mode = f@;
    push_text(&mut f, "\r\n\x1b[K");
    proof {
        reveal_strlit("\r\n\x1b[K");
    }
    let ghost after_sep = f@;
    let ec = echo_line(ed, &mut f, cols);
    let ghost after_echo = f@;
    let (crow, ccs) = match ec {
        Some(c) => (rows, c + 1),
        None => (
            if line >= top { line - top + 1 } else { 1 },
            if ccol >= left { ccol - left + 1 } else { 1 },
        ),
    };
    push_cursor_tail(&mut f, crow, ccs);
    proof {
        assert(head =~= seq!['\x1b', '[', '?', '2', '0', '2', '6', 'h', '\x1b', '[', '?', '2', '5', 'l', '\x1b', '[', 'H']);
        assert(after_sep =~= after_mode + seq!['\r', '\n', '\x1b', '[', 'K']);
        assert(f@ =~= frame_spec(*ed));
    }
    crate::session::string_of(&f)
}

} // verus!
