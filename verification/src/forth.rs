//! A small Forth with named locals: lexer, compiler and interpreter.
//! The interpreter reaches the editor only through the [`Host`] trait.
use vstd::prelude::*;
use vstd::utf8::*;
use crate::editor::{Buffer, TEXT_MAX, selection_spec};
use crate::session::{snapped, clamp_line};
use crate::text::{is_line_start, is_next_newline};
use crate::encoding::{
    str_chars, is_ws, is_ws_spec, char_len, char_bytes, push_char, bytes_to_string, lemma_encode_push,
    lemma_encode_concat, push_str, push_int, int_text_spec, lemma_int_text_valid, parse_int,
    str_bytes, lemma_encode_single, parse_int_spec, occurs_at,
};

verus! {

/// A value on the data stack.
#[derive(Debug, PartialEq)]
pub enum Value {
    Int(i64),
    Str(String),
}

/// Number of primitive words.
pub const PRIM_COUNT: usize = 40;

/// Name of primitive `i` (the primitives' order is fixed).
pub open spec fn prim_name_spec(i: int) -> Seq<char> {
    if i == 0 {
        seq!['+']
    } else if i == 1 {
        seq!['-']
    } else if i == 2 {
        seq!['*']
    } else if i == 3 {
        seq!['/']
    } else if i == 4 {
        seq!['m', 'o', 'd']
    } else if i == 5 {
        seq!['n', 'e', 'g', 'a', 't', 'e']
    } else if i == 6 {
        seq!['=']
    } else if i == 7 {
        seq!['<', '>']
    } else if i == 8 {
        seq!['<']
    } else if i == 9 {
        seq!['>']
    } else if i == 10 {
        seq!['<', '=']
    } else if i == 11 {
        seq!['>', '=']
    } else if i == 12 {
        seq!['a', 'n', 'd']
    } else if i == 13 {
        seq!['o', 'r']
    } else if i == 14 {
        seq!['n', 'o', 't']
    } else if i == 15 {
        seq!['d', 'u', 'p']
    } else if i == 16 {
        seq!['d', 'r', 'o', 'p']
    } else if i == 17 {
        seq!['s', 'w', 'a', 'p']
    } else if i == 18 {
        seq!['o', 'v', 'e', 'r']
    } else if i == 19 {
        seq!['.']
    } else if i == 20 {
        seq!['>', 's', 't', 'r']
    } else if i == 21 {
        seq!['>', 'i', 'n', 't']
    } else if i == 22 {
        seq!['s', 'l', 'e', 'n']
    } else if i == 23 {
        seq!['s', '+']
    } else if i == 24 {
        seq!['l', 'e', 'n']
    } else if i == 25 {
        seq!['c', 'u', 'r', 's', 'o', 'r', '@']
    } else if i == 26 {
        seq!['c', 'u', 'r', 's', 'o', 'r', '!']
    } else if i == 27 {
        seq!['m', 'a', 'r', 'k', '@']
    } else if i == 28 {
        seq!['m', 'a', 'r', 'k', '!']
    } else if i == 29 {
        seq!['s', 'e', 'l', '@']
    } else if i == 30 {
        seq!['t', 'e', 'x', 't', '@']
    } else if i == 31 {
        seq!['i', 'n', 's', 'e', 'r', 't']
    } else if i == 32 {
        seq!['d', 'e', 'l']
    } else if i == 33 {
        seq!['l', 'i', 'n', 'e', '@']
    } else if i == 34 {
        seq!['l', 'i', 'n', 'e', 's']
    } else if i == 35 {
        seq!['b', 'o', 'l']
    } else if i == 36 {
        seq!['e', 'o', 'l']
    } else if i == 37 {
        seq!['f', 'i', 'n', 'd']
    } else if i == 38 {
        seq!['r', 'f', 'i', 'n', 'd']
    } else if i == 39 {
        seq!['m', 's', 'g']
    } else {
        Seq::empty()
    }
}

/// Name of primitive `i`.
pub fn prim_name(i: usize) -> (r: Vec<char>)
    requires
        i < PRIM_COUNT,
    ensures
        r@ == prim_name_spec(i as int),
{
    let r = {
        if i == 0 {
            vec!['+']
        } else if i == 1 {
            vec!['-']
        } else if i == 2 {
            vec!['*']
        } else if i == 3 {
            vec!['/']
        } else if i == 4 {
            vec!['m', 'o', 'd']
        } else if i == 5 {
            vec!['n', 'e', 'g', 'a', 't', 'e']
        } else if i == 6 {
            vec!['=']
        } else if i == 7 {
            vec!['<', '>']
        } else if i == 8 {
            vec!['<']
        } else if i == 9 {
            vec!['>']
        } else if i == 10 {
            vec!['<', '=']
        } else if i == 11 {
            vec!['>', '=']
        } else if i == 12 {
            vec!['a', 'n', 'd']
        } else if i == 13 {
            vec!['o', 'r']
        } else if i == 14 {
            vec!['n', 'o', 't']
        } else if i == 15 {
            vec!['d', 'u', 'p']
        } else if i == 16 {
            vec!['d', 'r', 'o', 'p']
        } else if i == 17 {
            vec!['s', 'w', 'a', 'p']
        } else if i == 18 {
            vec!['o', 'v', 'e', 'r']
        } else if i == 19 {
            vec!['.']
        } else if i == 20 {
            vec!['>', 's', 't', 'r']
        } else if i == 21 {
            vec!['>', 'i', 'n', 't']
        } else if i == 22 {
            vec!['s', 'l', 'e', 'n']
        } else if i == 23 {
            vec!['s', '+']
        } else if i == 24 {
            vec!['l', 'e', 'n']
        } else if i == 25 {
            vec!['c', 'u', 'r', 's', 'o', 'r', '@']
        } else if i == 26 {
            vec!['c', 'u', 'r', 's', 'o', 'r', '!']
        } else if i == 27 {
            vec!['m', 'a', 'r', 'k', '@']
        } else if i == 28 {
            vec!['m', 'a', 'r', 'k', '!']
        } else if i == 29 {
            vec!['s', 'e', 'l', '@']
        } else if i == 30 {
            vec!['t', 'e', 'x', 't', '@']
        } else if i == 31 {
            vec!['i', 'n', 's', 'e', 'r', 't']
        } else if i == 32 {
            vec!['d', 'e', 'l']
        } else if i == 33 {
            vec!['l', 'i', 'n', 'e', '@']
        } else if i == 34 {
            vec!['l', 'i', 'n', 'e', 's']
        } else if i == 35 {
            vec!['b', 'o', 'l']
        } else if i == 36 {
            vec!['e', 'o', 'l']
        } else if i == 37 {
            vec!['f', 'i', 'n', 'd']
        } else if i == 38 {
            vec!['r', 'f', 'i', 'n', 'd']
        } else if i == 39 {
            vec!['m', 's', 'g']
        } else {
            Vec::new()
        }
    };
    assert(r@ =~= prim_name_spec(i as int));
    r
}

/// A source of text and a cursor the interpreter edits through; all offsets are
/// byte offsets, lines count from zero.
pub trait Host: Sized {
    /// What the host keeps true across every call that changes it; nothing, unless
    /// the host says otherwise.
    open spec fn kept(&self) -> bool {
        true
    }

    /// What `kept` is measured against, which no call changes: the text an
    /// evaluation began with, how many edits the host had recorded then, and the undo
    /// group its edits go into. Nothing in particular, unless the host says otherwise.
    open spec fn anchor(&self) -> (Seq<u8>, nat, nat) {
        (Seq::empty(), 0, 0)
    }

    /// Whether the host tells, through `buffer_model` and `message_model`, the buffer
    /// it stands for and the message it shows; one that does not leaves it false, and
    /// then nothing is promised of what its calls do.
    open spec fn modeled(&self) -> bool {
        false
    }

    /// The buffer the host stands for, where `modeled` holds.
    open spec fn buffer_model(&self) -> Buffer {
        arbitrary()
    }

    /// The message the host shows, where `modeled` holds.
    open spec fn message_model(&self) -> Seq<char> {
        Seq::empty()
    }

    /// The length of the text in bytes.
    fn len(&self) -> (r: i64)
        ensures
            self.modeled() ==> r == self.buffer_model().text@.len(),
    ;

    /// The cursor.
    fn cursor(&self) -> (r: i64)
        ensures
            self.modeled() ==> r == self.buffer_model().cursor,
    ;

    /// Puts the cursor at `at`, clamped to the text and snapped back to a character
    /// boundary.
    fn set_cursor(&mut self, at: i64)
        requires
            old(self).kept(),
        ensures
            final(self).kept(),
            final(self).anchor() == old(self).anchor(),
            old(self).modeled() ==> final(self).modeled() && final(self).message_model() == old(self).message_model()
                && snapped(old(self).buffer_model().text@, at as int, final(self).buffer_model().cursor as int)
                && final(self).buffer_model() == (Buffer { cursor: final(self).buffer_model().cursor, ..old(self).buffer_model() }),
    ;

    /// The mark, or -1 when there is none.
    fn mark(&self) -> (r: i64)
        ensures
            self.modeled() ==> r == (match self.buffer_model().mark {
                Some(m) => m as int,
                None => -1,
            }),
    ;

    /// Sets the mark at `at` (clamped and snapped) and activates the region; a
    /// negative `at` removes the mark.
    fn set_mark(&mut self, at: i64)
        requires
            old(self).kept(),
        ensures
            final(self).kept(),
            final(self).anchor() == old(self).anchor(),
            old(self).modeled() ==> final(self).modeled() && final(self).message_model() == old(self).message_model()
                && final(self).buffer_model() == (Buffer {
                mark: final(self).buffer_model().mark,
                mark_active: final(self).buffer_model().mark_active,
                ..old(self).buffer_model()
            }) && (at < 0 ==> final(self).buffer_model().mark is None && !final(self).buffer_model().mark_active) && (at >= 0
                ==> final(self).buffer_model().mark_active && (final(self).buffer_model().mark matches Some(m) && snapped(
                old(self).buffer_model().text@,
                at as int,
                m as int,
            ))),
    ;

    /// The active region, or the cursor twice when there is none.
    fn selection(&self) -> (r: (i64, i64))
        ensures
            self.modeled() ==> r == (match selection_spec(
                self.buffer_model().mark_active,
                self.buffer_model().mark,
                self.buffer_model().cursor,
            ) {
                Some((a, b)) => (a as i64, b as i64),
                None => (self.buffer_model().cursor as i64, self.buffer_model().cursor as i64),
            }),
    ;

    /// The text between the offsets `a` and `b`, each clamped and snapped.
    fn slice(&self, a: i64, b: i64) -> (r: String)
        ensures
            self.modeled() ==> exists|x: int, y: int|
                snapped(self.buffer_model().text@, a as int, x) && snapped(self.buffer_model().text@, b as int, y)
                    && encode_utf8(r@) == self.buffer_model().text@.subrange(
                    if x < y { x } else { y },
                    if x < y { y } else { x },
                ),
    ;

    /// Inserts `s` at the cursor and moves the cursor after it; nothing happens when
    /// the text would grow past the buffer's limit.
    fn insert(&mut self, s: &str)
        requires
            old(self).kept(),
        ensures
            final(self).kept(),
            final(self).anchor() == old(self).anchor(),
            old(self).modeled() ==> final(self).modeled() && final(self).message_model() == old(self).message_model(),
            old(self).modeled() && old(self).buffer_model().text@.len() + encode_utf8(s@).len() <= TEXT_MAX
                ==> final(self).buffer_model().inserted_at_cursor(old(self).buffer_model(), encode_utf8(s@)),
            old(self).modeled() && old(self).buffer_model().text@.len() + encode_utf8(s@).len() > TEXT_MAX
                ==> final(self).buffer_model() == old(self).buffer_model(),
    ;

    /// Deletes the text between the offsets `a` and `b`, each clamped and snapped.
    fn delete(&mut self, a: i64, b: i64)
        requires
            old(self).kept(),
        ensures
            final(self).kept(),
            final(self).anchor() == old(self).anchor(),
            old(self).modeled() ==> final(self).modeled() && final(self).message_model() == old(self).message_model(),
            old(self).modeled() ==> exists|x: int, y: int, r: Seq<char>|
                #![trigger snapped(old(self).buffer_model().text@, a as int, x), snapped(old(self).buffer_model().text@, b as int, y), encode_utf8(r)]
                snapped(old(self).buffer_model().text@, a as int, x) && snapped(old(self).buffer_model().text@, b as int, y)
                    && final(self).buffer_model().deleted(
                    old(self).buffer_model(),
                    if x < y { x } else { y },
                    if x < y { y } else { x },
                    r,
                ),
    ;

    /// The line the cursor is on.
    fn line(&self) -> (r: i64)
        ensures
            self.modeled() ==> r == crate::encoding::count_nl(self.buffer_model().text@.take(self.buffer_model().cursor as int)),
    ;

    /// The number of lines.
    fn lines(&self) -> (r: i64)
        ensures
            self.modeled() ==> r == crate::encoding::count_nl(self.buffer_model().text@) + 1,
    ;

    /// Where line `l` (clamped to the lines there are) starts.
    fn line_start(&self, l: i64) -> (r: i64)
        ensures
            self.modeled() ==> is_line_start(self.buffer_model().text@, clamp_line(self.buffer_model().text@, l as int), r as int),
    ;

    /// Where line `l` (clamped to the lines there are) ends.
    fn line_end(&self, l: i64) -> (r: i64)
        ensures
            self.modeled() ==> exists|ls: int|
                is_line_start(self.buffer_model().text@, clamp_line(self.buffer_model().text@, l as int), ls)
                    && is_next_newline(self.buffer_model().text@, ls, r as int),
    ;

    /// The first occurrence of `s` at or after the cursor (`fwd`), or the last one
    /// ending at or before it; -1 when there is none.
    fn search(&self, s: &str, fwd: bool) -> (r: i64)
        ensures
            self.modeled() ==> found_from(self.buffer_model().text@, self.buffer_model().cursor as int, encode_utf8(s@), fwd, r as int),
    ;

    /// Shows `s` as the message.
    fn message(&mut self, s: &str)
        requires
            old(self).kept(),
        ensures
            final(self).kept(),
            final(self).anchor() == old(self).anchor(),
            old(self).modeled() ==> final(self).modeled() && final(self).message_model() == s@ && final(self).buffer_model()
                == old(self).buffer_model(),
    ;
}

/// What primitive `p` does to a host that tells its buffer and message (`modeled`):
/// `s` and `t` are the data stacks before and after, `h` and `h2` the host before and
/// after. Only `.`, `msg` and the editor words touch the host: `.` and `msg` show a
/// message, `cursor!`, `mark!`, `insert` and `del` change the buffer as the host's
/// calls say, with every offset clamped and snapped to a character boundary, and the
/// words that read the buffer push what it holds.
pub open spec fn host_effect<H: Host>(p: int, s: Seq<Value>, t: Seq<Value>, h: H, h2: H) -> bool {
    let n = s.len() as int;
    let b = h.buffer_model();
    let b2 = h2.buffer_model();
    let txt = b.text@;
    let same_msg = h2.message_model() == h.message_model();
    let same = b2 == b && same_msg;
    if p == 19 {
        b2 == b && h2.message_model() == text_spec(s[n - 1])
    } else if p == 24 {
        same && t[n] == Value::Int(txt.len() as i64)
    } else if p == 25 {
        same && t[n] == Value::Int(b.cursor as i64)
    } else if p == 26 {
        &&& same_msg
        &&& snapped(txt, s[n - 1]->Int_0 as int, b2.cursor as int)
        &&& b2 == (Buffer { cursor: b2.cursor, ..b })
    } else if p == 27 {
        same && t[n] == Value::Int(
            match b.mark {
                Some(m) => m as i64,
                None => -1i64,
            },
        )
    } else if p == 28 {
        let at = s[n - 1]->Int_0;
        &&& same_msg
        &&& b2 == (Buffer { mark: b2.mark, mark_active: b2.mark_active, ..b })
        &&& at < 0 ==> b2.mark is None && !b2.mark_active
        &&& at >= 0 ==> b2.mark_active && (b2.mark matches Some(m) && snapped(txt, at as int, m as int))
    } else if p == 29 {
        &&& same
        &&& (t[n], t[n + 1]) == (match selection_spec(b.mark_active, b.mark, b.cursor) {
            Some((x, y)) => (Value::Int(x as i64), Value::Int(y as i64)),
            None => (Value::Int(b.cursor as i64), Value::Int(b.cursor as i64)),
        })
    } else if p == 30 {
        &&& same
        &&& exists|x: int, y: int|
            #![trigger snapped(txt, s[n - 2]->Int_0 as int, x), snapped(txt, s[n - 1]->Int_0 as int, y)]
            snapped(txt, s[n - 2]->Int_0 as int, x) && snapped(txt, s[n - 1]->Int_0 as int, y) && encode_utf8(
                t[n - 2]->Str_0@,
            ) == txt.subrange(if x < y { x } else { y }, if x < y { y } else { x })
    } else if p == 31 {
        let ins = encode_utf8(s[n - 1]->Str_0@);
        &&& same_msg
        &&& txt.len() + ins.len() <= TEXT_MAX ==> b2.inserted_at_cursor(b, ins)
        &&& txt.len() + ins.len() > TEXT_MAX ==> b2 == b
    } else if p == 32 {
        &&& same_msg
        &&& exists|x: int, y: int, r: Seq<char>|
            #![trigger snapped(txt, s[n - 2]->Int_0 as int, x), snapped(txt, s[n - 1]->Int_0 as int, y), encode_utf8(r)]
            snapped(txt, s[n - 2]->Int_0 as int, x) && snapped(txt, s[n - 1]->Int_0 as int, y) && b2.deleted(
                b,
                if x < y { x } else { y },
                if x < y { y } else { x },
                r,
            )
    } else if p == 33 {
        same && t[n] == Value::Int(crate::encoding::count_nl(txt.take(b.cursor as int)) as i64)
    } else if p == 34 {
        same && t[n] == Value::Int((crate::encoding::count_nl(txt) + 1) as i64)
    } else if p == 35 {
        same && is_line_start(txt, clamp_line(txt, s[n - 1]->Int_0 as int), t[n - 1]->Int_0 as int)
    } else if p == 36 {
        &&& same
        &&& exists|ls: int|
            #[trigger] is_line_start(txt, clamp_line(txt, s[n - 1]->Int_0 as int), ls) && is_next_newline(txt, ls, t[n - 1]->Int_0 as int)
    } else if p == 37 || p == 38 {
        same && found_from(txt, b.cursor as int, encode_utf8(s[n - 1]->Str_0@), p == 37, t[n - 1]->Int_0 as int)
    } else if p == 39 {
        b2 == b && h2.message_model() == s[n - 1]->Str_0@
    } else {
        same
    }
}

/// The host shows the same buffer and message as before.
pub open spec fn host_same<H: Host>(h: H, h2: H) -> bool {
    h2.buffer_model() == h.buffer_model() && h2.message_model() == h.message_model()
}

/// `r` is what a search for `needle` from `at` in `hay` answers: forward, the first
/// occurrence at or after `at`; backward, the last one ending at or before `at`; -1
/// when there is none.
pub open spec fn found_from(hay: Seq<u8>, at: int, needle: Seq<u8>, fwd: bool, r: int) -> bool {
    if fwd {
        &&& r >= 0 ==> at <= r && occurs_at(hay, needle, r) && forall|j: int| at <= j < r ==> !occurs_at(hay, needle, j)
        &&& r < 0 ==> r == -1 && forall|j: int| at <= j <= hay.len() ==> !occurs_at(hay, needle, j)
    } else {
        &&& r >= 0 ==> r + needle.len() <= at && occurs_at(hay, needle, r) && forall|j: int|
            r < j && j + needle.len() <= at ==> !occurs_at(hay, needle, j)
        &&& r < 0 ==> r == -1 && forall|j: int| 0 <= j && j + needle.len() <= at ==> !occurs_at(hay, needle, j)
    }
}

/// `v` is an integer.
pub open spec fn is_int(v: Value) -> bool {
    v is Int
}

/// `v` is a string.
pub open spec fn is_str(v: Value) -> bool {
    v is Str
}

/// How a value prints: an integer in decimal, a string as itself.
pub open spec fn text_spec(v: Value) -> Seq<char> {
    match v {
        Value::Int(n) => decode_utf8(int_text_spec(n as int)),
        Value::Str(s) => s@,
    }
}

/// `a..b` trims the white space off both ends of `cs`.
pub open spec fn trim_ok(cs: Seq<char>, a: int, b: int) -> bool {
    &&& 0 <= a <= b <= cs.len()
    &&& forall|i: int| 0 <= i < a ==> is_ws_spec(#[trigger] cs[i])
    &&& forall|i: int| b <= i < cs.len() ==> is_ws_spec(#[trigger] cs[i])
    &&& a < b ==> !is_ws_spec(cs[a]) && !is_ws_spec(cs[b - 1])
}

/// `cs` without white space at either end.
pub open spec fn trimmed(cs: Seq<char>) -> Seq<char> {
    let (a, b) = choose|a: int, b: int| trim_ok(cs, a, b);
    cs.subrange(a, b)
}

/// Any trimming of `cs` gives `trimmed(cs)`.
pub proof fn lemma_trimmed(cs: Seq<char>, a: int, b: int)
    requires
        trim_ok(cs, a, b),
    ensures
        trimmed(cs) == cs.subrange(a, b),
{
    let (a2, b2) = choose|a: int, b: int| trim_ok(cs, a, b);
    if a < b && a2 < b2 {
        if a < a2 {
            assert(is_ws_spec(cs[a]));
        }
        if a2 < a {
            assert(is_ws_spec(cs[a2]));
        }
        if b < b2 {
            assert(is_ws_spec(cs[b2 - 1]));
        }
        if b2 < b {
            assert(is_ws_spec(cs[b - 1]));
        }
    } else if a < b {
        assert(is_ws_spec(cs[a]));
    } else if a2 < b2 {
        assert(is_ws_spec(cs[a2]));
    } else {
        assert(cs.subrange(a, b) =~= Seq::<char>::empty());
        assert(cs.subrange(a2, b2) =~= Seq::<char>::empty());
    }
}

/// What the integer primitive `p` (`+ - * / mod < > <= >= and or`) gives for `a`
/// and `b`: `None` on division by zero. Arithmetic wraps.
pub open spec fn int_binop(p: int, a: i64, b: i64) -> Option<i64> {
    if p == 0 {
        Some(a.wrapping_add(b))
    } else if p == 1 {
        Some(a.wrapping_sub(b))
    } else if p == 2 {
        Some(a.wrapping_mul(b))
    } else if p == 3 {
        if b == 0 { None } else { Some(div_spec(a, b)) }
    } else if p == 4 {
        if b == 0 { None } else { Some(rem_spec(a, b)) }
    } else if p == 8 {
        Some(if a < b { 1 } else { 0 })
    } else if p == 9 {
        Some(if a > b { 1 } else { 0 })
    } else if p == 10 {
        Some(if a <= b { 1 } else { 0 })
    } else if p == 11 {
        Some(if a >= b { 1 } else { 0 })
    } else if p == 12 {
        Some(if a != 0 && b != 0 { 1 } else { 0 })
    } else {
        Some(if a != 0 || b != 0 { 1 } else { 0 })
    }
}

/// The primitives that take two integers and give one.
pub open spec fn is_binop(p: int) -> bool {
    0 <= p <= 4 || 8 <= p <= 13
}

/// Whether primitive `p` succeeds on data stack `s` (top last): the arguments it
/// pops are there and of the right kind, what it pushes fits, it does not divide
/// by zero, and `>int` gets a number.
pub open spec fn prim_ok(p: int, s: Seq<Value>) -> bool {
    let n = s.len();
    if is_binop(p) || p == 30 || p == 32 {
        &&& n >= 2 && is_int(s[n - 1]) && is_int(s[n - 2])
        &&& (is_binop(p) ==> int_binop(p, s[n - 2]->Int_0, s[n - 1]->Int_0) is Some)
    } else if p == 5 || p == 14 || p == 26 || p == 28 || p == 35 || p == 36 {
        n >= 1 && is_int(s[n - 1])
    } else if p == 6 || p == 7 || p == 17 {
        n >= 2
    } else if p == 15 {
        1 <= n < STACK_MAX
    } else if p == 16 || p == 19 || p == 20 {
        n >= 1
    } else if p == 18 {
        2 <= n < STACK_MAX
    } else if p == 21 {
        n >= 1 && is_str(s[n - 1]) && crate::encoding::parse_int_spec(encode_utf8(trimmed(s[n - 1]->Str_0@))) is Some
    } else if p == 22 || p == 31 || p == 37 || p == 38 || p == 39 {
        n >= 1 && is_str(s[n - 1])
    } else if p == 23 {
        n >= 2 && is_str(s[n - 1]) && is_str(s[n - 2])
    } else if p == 29 {
        n + 2 <= STACK_MAX
    } else {
        n < STACK_MAX
    }
}

/// The data stack `t` that primitive `p` leaves when it succeeds on `s`; where a
/// value comes from the editor, only its kind is fixed.
pub open spec fn prim_effect(p: int, s: Seq<Value>, t: Seq<Value>) -> bool {
    let n = s.len() as int;
    let s1 = s.drop_last();
    let s2 = s.drop_last().drop_last();
    if is_binop(p) {
        t == s2.push(Value::Int(int_binop(p, s[n - 2]->Int_0, s[n - 1]->Int_0)->0))
    } else if p == 5 {
        t == s1.push(Value::Int(if s[n - 1]->Int_0 == i64::MIN { i64::MIN } else { (-s[n - 1]->Int_0) as i64 }))
    } else if p == 6 || p == 7 {
        t == s2.push(Value::Int(if (p == 6) == value_eq_spec(s[n - 2], s[n - 1]) { 1 } else { 0 }))
    } else if p == 14 {
        t == s1.push(Value::Int(if s[n - 1]->Int_0 == 0 { 1 } else { 0 }))
    } else if p == 15 {
        t == s.push(s[n - 1])
    } else if p == 16 || p == 19 || p == 26 || p == 28 || p == 31 || p == 39 {
        t == s1
    } else if p == 17 {
        t == s2.push(s[n - 1]).push(s[n - 2])
    } else if p == 18 {
        t == s.push(s[n - 2])
    } else if p == 20 {
        t.drop_last() == s1 && t.len() == n && is_str(t[n - 1]) && t[n - 1]->Str_0@ == text_spec(s[n - 1])
    } else if p == 21 {
        t == s1.push(Value::Int(crate::encoding::parse_int_spec(encode_utf8(trimmed(s[n - 1]->Str_0@)))->0))
    } else if p == 22 {
        t == s1.push(Value::Int(encode_utf8(s[n - 1]->Str_0@).len() as i64))
    } else if p == 23 {
        t.drop_last() == s2 && t.len() == n - 1 && is_str(t[n - 2]) && t[n - 2]->Str_0@ == s[n - 2]->Str_0@
            + s[n - 1]->Str_0@
    } else if p == 24 || p == 25 || p == 27 || p == 33 || p == 34 {
        t.drop_last() == s && t.len() == n + 1 && is_int(t[n])
    } else if p == 29 {
        t.drop_last().drop_last() == s && t.len() == n + 2 && is_int(t[n]) && is_int(t[n + 1])
    } else if p == 30 {
        t.drop_last() == s2 && t.len() == n - 1 && is_str(t[n - 2])
    } else if p == 32 {
        t == s2
    } else {
        t.drop_last() == s1 && t.len() == n && is_int(t[n - 1])
    }
}

/// Byte offset of character `i` of `cs`.
pub open spec fn boff(cs: Seq<char>, i: int) -> int {
    encode_utf8(cs.take(i)).len() as int
}

/// Index just past the first newline at or after `i`, or the end.
pub open spec fn after_newline(cs: Seq<char>, i: int) -> int
    decreases cs.len() - i,
{
    if i >= cs.len() {
        cs.len() as int
    } else if cs[i] == '\n' {
        i + 1
    } else {
        after_newline(cs, i + 1)
    }
}

/// Index of the first `"` at or after `i`.
pub open spec fn next_quote(cs: Seq<char>, i: int) -> Option<int>
    decreases cs.len() - i,
{
    if i >= cs.len() {
        None
    } else if cs[i] == '"' {
        Some(i)
    } else {
        next_quote(cs, i + 1)
    }
}

/// Index of the first white space at or after `i`, or the end.
pub open spec fn next_ws(cs: Seq<char>, i: int) -> int
    decreases cs.len() - i,
{
    if i >= cs.len() {
        cs.len() as int
    } else if is_ws_spec(cs[i]) {
        i
    } else {
        next_ws(cs, i + 1)
    }
}

pub proof fn lemma_after_newline(cs: Seq<char>, i: int)
    requires
        0 <= i <= cs.len(),
    ensures
        i <= after_newline(cs, i) <= cs.len(),
        i < cs.len() ==> i < after_newline(cs, i),
    decreases cs.len() - i,
{
    if i < cs.len() && cs[i] != '\n' {
        lemma_after_newline(cs, i + 1);
    }
}

pub proof fn lemma_next_quote(cs: Seq<char>, i: int)
    requires
        0 <= i,
    ensures
        next_quote(cs, i) matches Some(k) ==> i <= k < cs.len() && cs[k] == '"',
    decreases cs.len() - i,
{
    if i < cs.len() && cs[i] != '"' {
        lemma_next_quote(cs, i + 1);
    }
}

pub proof fn lemma_next_ws(cs: Seq<char>, i: int)
    requires
        0 <= i <= cs.len(),
    ensures
        i <= next_ws(cs, i) <= cs.len(),
        next_ws(cs, i) < cs.len() ==> is_ws_spec(cs[next_ws(cs, i)]),
        forall|j: int| i <= j < next_ws(cs, i) ==> !is_ws_spec(cs[j]),
    decreases cs.len() - i,
{
    if i < cs.len() && !is_ws_spec(cs[i]) {
        lemma_next_ws(cs, i + 1);
    }
}

/// The tokens of `cs` from character `i` on, each with its byte offset: white space
/// separates words, `\` starts a comment to the end of the line, and a string runs
/// from `"` to the next `"` (newlines included). `None` when a string is left open.
pub open spec fn lex_spec(cs: Seq<char>, i: int) -> Option<Seq<(int, Seq<char>)>>
    decreases cs.len() - i,
{
    if i < 0 || i >= cs.len() {
        Some(Seq::empty())
    } else if is_ws_spec(cs[i]) {
        lex_spec(cs, i + 1)
    } else if cs[i] == '\\' {
        proof {
            lemma_after_newline(cs, i + 1);
        }
        lex_spec(cs, after_newline(cs, i + 1))
    } else if cs[i] == '"' {
        proof {
            lemma_next_quote(cs, i + 1);
        }
        match next_quote(cs, i + 1) {
            None => None,
            Some(k) => match lex_spec(cs, k + 1) {
                None => None,
                Some(rest) => Some(seq![(boff(cs, i), cs.subrange(i, k + 1))] + rest),
            },
        }
    } else {
        proof {
            lemma_next_ws(cs, i + 1);
        }
        let k = next_ws(cs, i + 1);
        match lex_spec(cs, k) {
            None => None,
            Some(rest) => Some(seq![(boff(cs, i), cs.subrange(i, k))] + rest),
        }
    }
}

/// A token as the lexer makes it: non-empty, and a string literal keeps both quotes.
pub open spec fn tok_ok(t: Seq<char>) -> bool {
    &&& t.len() > 0
    &&& t[0] == '"' ==> t.len() >= 2 && t.last() == '"'
}

pub proof fn lemma_lex_toks_ok(cs: Seq<char>, i: int)
    ensures
        lex_spec(cs, i) matches Some(ts) ==> forall|j: int| 0 <= j < ts.len() ==> tok_ok(
            #[trigger] ts[j].1,
        ),
    decreases cs.len() - i,
{
    if i < 0 || i >= cs.len() {
    } else if is_ws_spec(cs[i]) {
        lemma_lex_toks_ok(cs, i + 1);
    } else if cs[i] == '\\' {
        lemma_after_newline(cs, i + 1);
        lemma_lex_toks_ok(cs, after_newline(cs, i + 1));
    } else if cs[i] == '"' {
        lemma_next_quote(cs, i + 1);
        if let Some(k) = next_quote(cs, i + 1) {
            lemma_lex_toks_ok(cs, k + 1);
            if let Some(rest) = lex_spec(cs, k + 1) {
                let ts = seq![(boff(cs, i), cs.subrange(i, k + 1))] + rest;
                assert forall|j: int| 0 <= j < ts.len() implies tok_ok(#[trigger] ts[j].1) by {
                    if j > 0 {
                        assert(ts[j] == rest[j - 1]);
                    }
                }
            }
        }
    } else {
        lemma_next_ws(cs, i + 1);
        let k = next_ws(cs, i + 1);
        lemma_lex_toks_ok(cs, k);
        if let Some(rest) = lex_spec(cs, k) {
            let ts = seq![(boff(cs, i), cs.subrange(i, k))] + rest;
            assert forall|j: int| 0 <= j < ts.len() implies tok_ok(#[trigger] ts[j].1) by {
                if j > 0 {
                    assert(ts[j] == rest[j - 1]);
                }
            }
        }
    }
}

/// The bytes between the offsets of characters `a` and `b` encode `cs[a..b]`.
pub proof fn lemma_boff_slice(cs: Seq<char>, a: int, b: int)
    requires
        0 <= a <= b <= cs.len(),
    ensures
        boff(cs, a) <= boff(cs, b) <= encode_utf8(cs).len(),
        encode_utf8(cs).subrange(boff(cs, a), boff(cs, b)) == encode_utf8(cs.subrange(a, b)),
        boff(cs, b) - boff(cs, a) >= b - a,
{
    assert(cs.take(b) =~= cs.take(a) + cs.subrange(a, b));
    lemma_encode_concat(cs.take(a), cs.subrange(a, b));
    assert(cs =~= cs.take(b) + cs.skip(b));
    lemma_encode_concat(cs.take(b), cs.skip(b));
    crate::encoding::lemma_encode_len(cs.subrange(a, b));
    let e = encode_utf8(cs);
    assert(e.subrange(boff(cs, a), boff(cs, b)) =~= encode_utf8(cs.subrange(a, b)));
}

/// Byte offsets grow with character indices.
pub proof fn lemma_boff_order(cs: Seq<char>, a: int, b: int)
    requires
        0 <= a <= cs.len(),
        0 <= b <= cs.len(),
        boff(cs, a) <= boff(cs, b),
    ensures
        a <= b,
{
    if b < a {
        lemma_boff_slice(cs, b, a);
    }
}

/// Each token of `ts` is a run `cs[a..b]` with `a >= i`, at byte offset `boff(cs, a)`.
pub open spec fn toks_positioned(cs: Seq<char>, ts: Seq<(int, Seq<char>)>, i: int) -> bool {
    forall|j: int|
        0 <= j < ts.len() ==> exists|a: int, b: int|
            i <= a < b <= cs.len() && (#[trigger] ts[j]).0 == boff(cs, a) && ts[j].1 == cs.subrange(a, b)
}

/// The tokens the lexer makes from `i` on are positioned runs of `cs`.
pub open spec fn lex_positioned(cs: Seq<char>, i: int) -> bool {
    match lex_spec(cs, i) {
        Some(ts) => toks_positioned(cs, ts, 0),
        None => true,
    }
}

proof fn lemma_positioned_cons(cs: Seq<char>, rest: Seq<(int, Seq<char>)>, i: int, k: int)
    requires
        0 <= i < k <= cs.len(),
        toks_positioned(cs, rest, 0),
    ensures
        toks_positioned(cs, seq![(boff(cs, i), cs.subrange(i, k))] + rest, 0),
{
    let ts = seq![(boff(cs, i), cs.subrange(i, k))] + rest;
    assert forall|j: int| 0 <= j < ts.len() implies exists|a: int, b: int|
        0 <= a < b <= cs.len() && (#[trigger] ts[j]).0 == boff(cs, a) && ts[j].1 == cs.subrange(a, b) by {
        if j > 0 {
            assert(ts[j] == rest[j - 1]);
            let (a, b) = choose|a: int, b: int|
                0 <= a < b <= cs.len() && (#[trigger] rest[j - 1]).0 == boff(cs, a) && rest[j - 1].1 == cs.subrange(a, b);
            assert(0 <= a < b <= cs.len() && ts[j].0 == boff(cs, a) && ts[j].1 == cs.subrange(a, b));
        } else {
            assert(0 <= i < k <= cs.len() && ts[j].0 == boff(cs, i) && ts[j].1 == cs.subrange(i, k));
        }
    }
}

/// Each token the lexer makes is a run `cs[a..b]` of the input, at byte offset
/// `boff(cs, a)`.
pub proof fn lemma_lex_positions(cs: Seq<char>, i: int)
    requires
        0 <= i,
    ensures
        lex_positioned(cs, i),
    decreases cs.len() - i,
{
    if i < 0 || i >= cs.len() {
    } else if is_ws_spec(cs[i]) {
        lemma_lex_positions(cs, i + 1);
    } else if cs[i] == '\\' {
        lemma_after_newline(cs, i + 1);
        let k = after_newline(cs, i + 1);
        lemma_lex_positions(cs, k);
    } else if cs[i] == '"' {
        lemma_next_quote(cs, i + 1);
        if let Some(k) = next_quote(cs, i + 1) {
            lemma_lex_positions(cs, k + 1);
            if let Some(rest) = lex_spec(cs, k + 1) {
                lemma_positioned_cons(cs, rest, i, k + 1);
            }
        }
    } else {
        lemma_next_ws(cs, i + 1);
        let k = next_ws(cs, i + 1);
        lemma_lex_positions(cs, k);
        if let Some(rest) = lex_spec(cs, k) {
            lemma_positioned_cons(cs, rest, i, k);
        }
    }
}

/// What a token list looks like to the specification.
pub open spec fn toks_view(ts: Seq<(usize, String)>) -> Seq<(int, Seq<char>)> {
    ts.map_values(|t: (usize, String)| (t.0 as int, t.1@))
}

/// Prepends `done` to an optional token list.
pub open spec fn prefixed(
    done: Seq<(int, Seq<char>)>,
    rest: Option<Seq<(int, Seq<char>)>>,
) -> Option<Seq<(int, Seq<char>)>> {
    match rest {
        None => None,
        Some(r) => Some(done + r),
    }
}

/// Index of the first `;` token at or after `i`; the number of tokens when there is none.
pub open spec fn first_semi(ts: Seq<(int, Seq<char>)>, i: int) -> int
    decreases ts.len() - i,
{
    if i >= ts.len() {
        ts.len() as int
    } else if ts[i].1 == ";"@ {
        i
    } else {
        first_semi(ts, i + 1)
    }
}

/// `first_semi` from `j` lands between `j` and the end.
pub proof fn lemma_first_semi_bound(ts: Seq<(int, Seq<char>)>, j: int)
    ensures
        j <= ts.len() ==> j <= first_semi(ts, j) <= ts.len(),
    decreases ts.len() - j,
{
    if j < ts.len() {
        lemma_first_semi_bound(ts, j + 1);
    }
}

/// The names that the definitions among `ts[i..]` give, in order: each `: name` opens a
/// definition whose body runs to the next `;`.
pub open spec fn defs_from(ts: Seq<(int, Seq<char>)>, i: int) -> Seq<Seq<char>>
    decreases ts.len() + 1 - i,
{
    if i >= ts.len() {
        Seq::empty()
    } else if ts[i].1 == ":"@ && i + 1 < ts.len() {
        proof {
            lemma_first_semi_bound(ts, i + 2);
        }
        seq![ts[i + 1].1] + defs_from(ts, first_semi(ts, i + 2) + 1)
    } else {
        defs_from(ts, i + 1)
    }
}

/// The names that the definitions in the source `src` give, in order.
pub open spec fn defined_names(src: Seq<char>) -> Seq<Seq<char>> {
    match lex_spec(src, 0) {
        Some(ts) => defs_from(ts, 0),
        None => Seq::empty(),
    }
}

proof fn lemma_prefixed_assoc(
    a: Seq<(int, Seq<char>)>,
    b: Seq<(int, Seq<char>)>,
    x: Option<Seq<(int, Seq<char>)>>,
)
    ensures
        prefixed(a, prefixed(b, x)) == prefixed(a + b, x),
{
    if let Some(r) = x {
        assert(a + (b + r) =~= (a + b) + r);
    }
}

/// The string made of `cs[a..b]`.
pub(crate) fn chars_string(cs: &Vec<char>, a: usize, b: usize) -> (r: String)
    requires
        a <= b <= cs@.len(),
    ensures
        r@ == cs@.subrange(a as int, b as int),
{
    let mut v: Vec<u8> = Vec::new();
    let mut k = a;
    proof {
        assert(cs@.subrange(a as int, a as int) =~= Seq::<char>::empty());
    }
    while k < b
        invariant
            a <= k <= b <= cs@.len(),
            v@ == encode_utf8(cs@.subrange(a as int, k as int)),
        decreases b - k,
    {
        proof {
            assert(cs@.subrange(a as int, k + 1) =~= cs@.subrange(a as int, k as int).push(cs@[k as int]));
            lemma_encode_push(cs@.subrange(a as int, k as int), cs@[k as int]);
        }
        push_char(&mut v, cs[k]);
        k = k + 1;
    }
    proof {
        encode_utf8_valid_utf8(cs@.subrange(a as int, b as int));
        encode_utf8_decode_utf8(cs@.subrange(a as int, b as int));
    }
    bytes_to_string(v)
}

proof fn lemma_boff_step(cs: Seq<char>, i: int)
    requires
        0 <= i < cs.len(),
    ensures
        boff(cs, i + 1) == boff(cs, i) + char_bytes(cs[i]).len(),
{
    assert(cs.take(i + 1) =~= cs.take(i).push(cs[i]));
    lemma_encode_push(cs.take(i), cs[i]);
}

/// Splits Forth source into tokens, each with the byte offset where it starts.
pub fn lex(src: &str) -> (r: Result<Vec<(usize, String)>, String>)
    ensures
        r is Err <==> lex_spec(src@, 0) is None,
        r matches Ok(ts) ==> lex_spec(src@, 0) == Some(toks_view(ts@)),
        r matches Err(e) ==> e@ == "unterminated string"@,
{
    let cs = str_chars(src);
    let n = cs.len();
    let ghost c = cs@;
    let mut out: Vec<(usize, String)> = Vec::new();
    let mut i: usize = 0;
    let mut off: usize = 0;
    proof {
        assert(c.take(0) =~= Seq::<char>::empty());
        assert(toks_view(out@) =~= Seq::<(int, Seq<char>)>::empty());
        assert(c.take(n as int) =~= c);
        crate::encoding::lemma_encode_len(c);
    }
    while i < n
        invariant
            n == c.len(),
            c == src@,
            cs@ == c,
            i <= n,
            off == boff(c, i as int),
            boff(c, n as int) == encode_utf8(c).len(),
            encode_utf8(c).len() <= usize::MAX,
            lex_spec(c, 0) == prefixed(toks_view(out@), lex_spec(c, i as int)),
        decreases n - i,
    {
        let ch = cs[i];
        proof {
            lemma_boff_step(c, i as int);
            crate::encoding::lemma_encode_len(c.take(i + 1));
            assert(c =~= c.take(i + 1) + c.skip(i + 1));
            lemma_encode_concat(c.take(i + 1), c.skip(i + 1));
        }
        if is_ws(ch) {
            proof {
                assert(lex_spec(c, i as int) == lex_spec(c, i + 1));
            }
            off = off + char_len(ch);
            i = i + 1;
        } else if ch == '\\' {
            off = off + char_len(ch);
            i = i + 1;
            let ghost i0 = i;
            proof {
                lemma_after_newline(c, i as int);
            }
            while i < n
                invariant_except_break
                    after_newline(c, i0 as int) == after_newline(c, i as int),
                invariant
                    n == c.len(),
                    cs@ == c,
                    i0 <= i <= n,
                    off == boff(c, i as int),
                    boff(c, n as int) == encode_utf8(c).len(),
                    encode_utf8(c).len() <= usize::MAX,
                ensures
                    after_newline(c, i0 as int) == i,
                    i <= n,
                    off == boff(c, i as int),
                decreases n - i,
            {
                let d = cs[i];
                proof {
                    lemma_boff_step(c, i as int);
                    assert(c =~= c.take(i + 1) + c.skip(i + 1));
                    lemma_encode_concat(c.take(i + 1), c.skip(i + 1));
                }
                off = off + char_len(d);
                i = i + 1;
                if d == '\n' {
                    break;
                }
            }
            proof {
                assert(lex_spec(c, (i0 - 1) as int) == lex_spec(c, i as int));
            }
        } else if ch == '"' {
            let start = off;
            let i_start = i;
            off = off + char_len(ch);
            i = i + 1;
            let ghost i0 = i;
            let mut found = false;
            while i < n
                invariant_except_break
                    !found,
                    next_quote(c, i0 as int) == next_quote(c, i as int),
                invariant
                    n == c.len(),
                    cs@ == c,
                    i0 <= i <= n,
                    off == boff(c, i as int),
                    boff(c, n as int) == encode_utf8(c).len(),
                    encode_utf8(c).len() <= usize::MAX,
                ensures
                    i <= n,
                    off == boff(c, i as int),
                    !found ==> next_quote(c, i0 as int) is None,
                    found ==> i > i0 && next_quote(c, i0 as int) == Some(i - 1),
                decreases n - i,
            {
                let d = cs[i];
                proof {
                    lemma_boff_step(c, i as int);
                    assert(c =~= c.take(i + 1) + c.skip(i + 1));
                    lemma_encode_concat(c.take(i + 1), c.skip(i + 1));
                }
                off = off + char_len(d);
                i = i + 1;
                if d == '"' {
                    found = true;
                    break;
                }
            }
            if !found {
                proof {
                    assert(lex_spec(c, i_start as int) is None);
                }
                return Err("unterminated string".to_owned());
            }
            let text = chars_string(&cs, i_start, i);
            proof {
                lemma_next_quote(c, i0 as int);
                let ghost t = (start, text);
                let tok = seq![(boff(c, i_start as int), c.subrange(i_start as int, i as int))];
                assert(toks_view(out@.push(t)) =~= toks_view(out@) + tok);
                assert(lex_spec(c, i_start as int) == prefixed(tok, lex_spec(c, i as int)));
                lemma_prefixed_assoc(toks_view(out@), tok, lex_spec(c, i as int));
            }
            out.push((start, text));
        } else {
            let start = off;
            let i_start = i;
            off = off + char_len(ch);
            i = i + 1;
            let ghost i0 = i;
            proof {
                lemma_next_ws(c, i as int);
            }
            while i < n
                invariant
                    n == c.len(),
                    cs@ == c,
                    i0 <= i <= n,
                    off == boff(c, i as int),
                    next_ws(c, i0 as int) == next_ws(c, i as int),
                    boff(c, n as int) == encode_utf8(c).len(),
                    encode_utf8(c).len() <= usize::MAX,
                ensures
                    i <= n,
                    off == boff(c, i as int),
                    next_ws(c, i0 as int) == next_ws(c, i as int),
                    i == n || is_ws_spec(c[i as int]),
                decreases n - i,
            {
                let d = cs[i];
                if is_ws(d) {
                    break;
                }
                proof {
                    lemma_boff_step(c, i as int);
                    assert(c =~= c.take(i + 1) + c.skip(i + 1));
                    lemma_encode_concat(c.take(i + 1), c.skip(i + 1));
                }
                off = off + char_len(d);
                i = i + 1;
            }
            let text = chars_string(&cs, i_start, i);
            proof {
                lemma_next_ws(c, i as int);
                let ghost t = (start, text);
                let tok = seq![(boff(c, i_start as int), c.subrange(i_start as int, i as int))];
                assert(toks_view(out@.push(t)) =~= toks_view(out@) + tok);
                assert(next_ws(c, i as int) == i);
                assert(lex_spec(c, i_start as int) == prefixed(tok, lex_spec(c, i as int)));
                lemma_prefixed_assoc(toks_view(out@), tok, lex_spec(c, i as int));
            }
            out.push((start, text));
        }
    }
    proof {
        assert(toks_view(out@) + Seq::<(int, Seq<char>)>::empty() =~= toks_view(out@));
    }
    Ok(out)
}

/// A compiled instruction.
enum Op {
    Lit(Value),
    Call(usize),
    Prim(usize),
    Enter(usize),
    Leave,
    LocalGet(usize),
    LocalSet(usize),
    Branch(usize),
    BranchIf0(usize),
    Ret,
}

/// A defined word.
struct Word {
    name: Vec<char>,
    ops: Vec<Op>,
}

/// The interpreter: a dictionary of defined words and the data stack.
pub struct Vm {
    words: Vec<Word>,
    stack: Vec<Value>,
}

/// Most values the data stack holds.
pub const STACK_MAX: usize = 1024;

/// Most nested calls.
pub const CALL_MAX: usize = 256;

/// Most locals alive at once.
pub const LOCALS_MAX: usize = 4096;

/// Most instructions one evaluation may run.
pub const STEP_BUDGET: u32 = 1000000;

const KIND_IF: u8 = 0;

const KIND_BEGIN: u8 = 1;

const KIND_WHILE: u8 = 2;

spec fn op_ok(op: Op, len: int, nwords: int) -> bool {
    match op {
        Op::Call(w) => w < nwords,
        Op::Branch(t) => t < len,
        Op::BranchIf0(t) => t < len,
        Op::Prim(p) => p < PRIM_COUNT,
        _ => true,
    }
}

/// Every jump lands inside the code, every call names an existing word, and the
/// code ends with a return.
spec fn ops_ok(ops: Seq<Op>, nwords: int) -> bool {
    &&& 1 <= ops.len() <= usize::MAX
    &&& ops.last() is Ret
    &&& forall|i: int| 0 <= i < ops.len() ==> op_ok(#[trigger] ops[i], ops.len() as int, nwords)
}

/// The machine between two instructions: the code running (a word's index, or
/// `None` for the code being evaluated) and the position in it, the return stack,
/// the locals, the bases of the local frames, and the data stack.
struct Machine {
    wi: Option<usize>,
    ip: usize,
    rstack: Seq<(Option<usize>, usize)>,
    locals: Seq<Value>,
    bases: Seq<usize>,
    stack: Seq<Value>,
}

/// The code that `wi` names.
spec fn code_of(words: Seq<Word>, entry: Seq<Op>, wi: Option<usize>) -> Seq<Op> {
    match wi {
        Some(w) => words[w as int].ops@,
        None => entry,
    }
}

/// The machine about to run `entry` on the data stack `stack`.
spec fn machine_start(stack: Seq<Value>) -> Machine {
    Machine { wi: None, ip: 0, rstack: Seq::empty(), locals: Seq::empty(), bases: Seq::empty(), stack }
}

/// `n` zeros.
spec fn zeros(n: nat) -> Seq<Value> {
    Seq::new(n, |j: int| Value::Int(0))
}

/// One instruction takes the machine from `m` to `n` without an error: a literal
/// or a local is pushed, a primitive does what `prim_effect` says, a call enters a
/// word, a frame of zeroed locals is entered or left, a local is set from the top of
/// the stack, a jump is taken (a conditional one when the popped integer is zero),
/// or a return goes back to the caller.
spec fn vm_step(words: Seq<Word>, entry: Seq<Op>, m: Machine, n: Machine) -> bool {
    let code = code_of(words, entry, m.wi);
    let next = (m.ip + 1) as usize;
    let sl = m.stack.len();
    &&& m.ip < code.len()
    &&& match code[m.ip as int] {
        Op::Lit(v) => sl < STACK_MAX && n == Machine { ip: next, stack: m.stack.push(v), ..m },
        Op::Prim(p) => prim_ok(p as int, m.stack) && prim_effect(p as int, m.stack, n.stack) && n == Machine {
            ip: next,
            stack: n.stack,
            ..m
        },
        Op::Call(w) => m.rstack.len() < CALL_MAX && n == Machine {
            wi: Some(w),
            ip: 0,
            rstack: m.rstack.push((m.wi, next)),
            ..m
        },
        Op::Enter(k) => m.locals.len() + k <= LOCALS_MAX && n == Machine {
            ip: next,
            bases: m.bases.push(m.locals.len() as usize),
            locals: m.locals + zeros(k as nat),
            ..m
        },
        Op::Leave => m.bases.len() > 0 && n == Machine {
            ip: next,
            locals: m.locals.take(m.bases.last() as int),
            bases: m.bases.drop_last(),
            ..m
        },
        Op::LocalGet(x) => {
            &&& m.bases.len() > 0
            &&& m.bases.last() + x < m.locals.len()
            &&& sl < STACK_MAX
            &&& n == Machine { ip: next, stack: m.stack.push(m.locals[m.bases.last() + x]), ..m }
        },
        Op::LocalSet(x) => {
            &&& m.bases.len() > 0
            &&& sl > 0
            &&& m.bases.last() + x < m.locals.len()
            &&& n == Machine {
                ip: next,
                stack: m.stack.drop_last(),
                locals: m.locals.update(m.bases.last() + x, m.stack.last()),
                ..m
            }
        },
        Op::Branch(t) => n == Machine { ip: t, ..m },
        Op::BranchIf0(t) => {
            &&& sl > 0
            &&& m.stack.last() is Int
            &&& n == Machine {
                ip: if m.stack.last()->Int_0 == 0 { t } else { next },
                stack: m.stack.drop_last(),
                ..m
            }
        },
        Op::Ret => m.rstack.len() > 0 && n == Machine {
            wi: m.rstack.last().0,
            ip: m.rstack.last().1,
            rstack: m.rstack.drop_last(),
            ..m
        },
    }
}

/// The machine has returned from the code it was started on.
spec fn vm_halted(words: Seq<Word>, entry: Seq<Op>, m: Machine) -> bool {
    let code = code_of(words, entry, m.wi);
    &&& m.ip < code.len()
    &&& code[m.ip as int] is Ret
    &&& m.rstack.len() == 0
}

/// `tr` is a run of the machine: each state follows from the one before it by one
/// instruction.
spec fn vm_trace(words: Seq<Word>, entry: Seq<Op>, tr: Seq<Machine>) -> bool {
    forall|i: int| 0 <= i < tr.len() - 1 ==> #[trigger] vm_step(words, entry, tr[i], tr[i + 1])
}

/// Running `entry` on the data stack `s` returns, within the step budget, with the
/// data stack `t`.
spec fn vm_runs(words: Seq<Word>, entry: Seq<Op>, s: Seq<Value>, t: Seq<Value>) -> bool {
    exists|tr: Seq<Machine>|
        1 <= tr.len() <= STEP_BUDGET && tr[0] == machine_start(s) && #[trigger] vm_trace(words, entry, tr)
            && vm_halted(words, entry, tr.last()) && tr.last().stack == t
}

/// A literal as compiled code states it: an integer, or a string by its text.
enum LitV {
    Int(i64),
    Str(Seq<char>),
}

/// An instruction as compiled code states it, string literals by their text.
enum Instr {
    Lit(LitV),
    Call(usize),
    Prim(usize),
    Enter(usize),
    Leave,
    LocalGet(usize),
    LocalSet(usize),
    Branch(usize),
    BranchIf0(usize),
    Ret,
}

/// What the instruction `op` states.
spec fn instr_of(op: Op) -> Instr {
    match op {
        Op::Lit(Value::Int(n)) => Instr::Lit(LitV::Int(n)),
        Op::Lit(Value::Str(s)) => Instr::Lit(LitV::Str(s@)),
        Op::Call(w) => Instr::Call(w),
        Op::Prim(p) => Instr::Prim(p),
        Op::Enter(n) => Instr::Enter(n),
        Op::Leave => Instr::Leave,
        Op::LocalGet(i) => Instr::LocalGet(i),
        Op::LocalSet(i) => Instr::LocalSet(i),
        Op::Branch(t) => Instr::Branch(t),
        Op::BranchIf0(t) => Instr::BranchIf0(t),
        Op::Ret => Instr::Ret,
    }
}

/// What the code `ops` states.
spec fn code_view(ops: Seq<Op>) -> Seq<Instr> {
    ops.map_values(|o: Op| instr_of(o))
}

/// The names of the primitives, in order.
pub open spec fn prim_names() -> Seq<Seq<char>> {
    Seq::new(PRIM_COUNT as nat, |i: int| prim_name_spec(i))
}

/// The index of the primitive named `t`.
pub open spec fn prim_of(t: Seq<char>) -> Option<int> {
    prim_names().index_of_first(t)
}

/// The two stacks hold the same values, strings compared by their text.
spec fn values_eq(a: Seq<Value>, b: Seq<Value>) -> bool {
    &&& a.len() == b.len()
    &&& forall|i: int| #![trigger a[i], b[i]] 0 <= i < a.len() ==> value_eq_spec(a[i], b[i])
}

/// Whether primitive `p` reads from the editor: what it pushes is the editor's to
/// say (`len`, `cursor@`, `mark@`, `sel@`, `text@`, `line@`, `lines`, `bol`, `eol`,
/// `find`, `rfind`).
pub open spec fn host_reads(p: int) -> bool {
    p == 24 || p == 25 || p == 27 || p == 29 || p == 30 || (33 <= p && p <= 38)
}

/// Stacks that hold the same values give a primitive the same chance to succeed.
proof fn lemma_prim_ok_congruent(p: int, s: Seq<Value>, s2: Seq<Value>)
    requires
        values_eq(s, s2),
    ensures
        prim_ok(p, s) == prim_ok(p, s2),
{
    let n = s.len() as int;
    if n >= 1 {
        assert(value_eq_spec(s[n - 1], s2[n - 1]));
    }
    if n >= 2 {
        assert(value_eq_spec(s[n - 2], s2[n - 2]));
    }
}

/// Stacks `t` and `t2` agree with `s` and `s2` below `k` and hold the same values
/// from `k` up.
proof fn lemma_values_eq_from(s: Seq<Value>, s2: Seq<Value>, t: Seq<Value>, t2: Seq<Value>, k: int)
    requires
        values_eq(s, s2),
        0 <= k <= s.len(),
        k <= t.len(),
        t.len() == t2.len(),
        forall|i: int| 0 <= i < k ==> t[i] == s[i] && t2[i] == s2[i],
        forall|i: int| k <= i < t.len() ==> value_eq_spec(t[i], t2[i]),
    ensures
        values_eq(t, t2),
{
    assert forall|i: int| #![trigger t[i], t2[i]] 0 <= i < t.len() implies value_eq_spec(t[i], t2[i]) by {
        if i < k {
            assert(value_eq_spec(s[i], s2[i]));
        }
    }
}

/// A primitive that does not read from the editor, run on stacks that hold the same
/// values, leaves stacks that hold the same values.
#[verifier::rlimit(60)]
proof fn lemma_prim_effect_congruent(p: int, s: Seq<Value>, s2: Seq<Value>, t: Seq<Value>, t2: Seq<Value>)
    requires
        0 <= p < PRIM_COUNT,
        !host_reads(p),
        values_eq(s, s2),
        prim_ok(p, s),
        prim_effect(p, s, t),
        prim_effect(p, s2, t2),
    ensures
        values_eq(t, t2),
{
    lemma_prim_ok_congruent(p, s, s2);
    let n = s.len() as int;
    if n >= 1 {
        assert(value_eq_spec(s[n - 1], s2[n - 1]));
    }
    if n >= 2 {
        assert(value_eq_spec(s[n - 2], s2[n - 2]));
    }
    if is_binop(p) || p == 6 || p == 7 || p == 17 || p == 23 || p == 32 {
        assert forall|i: int| 0 <= i < n - 2 implies t[i] == s[i] && t2[i] == s2[i] by {
            if p == 23 {
                assert(t[i] == t.drop_last()[i] && t2[i] == t2.drop_last()[i]);
            }
        }
        lemma_values_eq_from(s, s2, t, t2, n - 2);
    } else if p == 15 || p == 18 {
        lemma_values_eq_from(s, s2, t, t2, n);
    } else {
        assert forall|i: int| 0 <= i < n - 1 implies t[i] == s[i] && t2[i] == s2[i] by {
            if p == 20 {
                assert(t[i] == t.drop_last()[i] && t2[i] == t2.drop_last()[i]);
            }
        }
        lemma_values_eq_from(s, s2, t, t2, n - 1);
    }
}

/// The two machines agree, values compared by their text.
spec fn mach_eq(m: Machine, m2: Machine) -> bool {
    &&& m.wi == m2.wi
    &&& m.ip == m2.ip
    &&& m.rstack == m2.rstack
    &&& m.bases == m2.bases
    &&& values_eq(m.locals, m2.locals)
    &&& values_eq(m.stack, m2.stack)
}

/// The two word lists have the same names and state the same code.
spec fn words_eq(ws: Seq<Word>, ws2: Seq<Word>) -> bool {
    &&& ws.len() == ws2.len()
    &&& forall|i: int| #![trigger ws[i], ws2[i]] 0 <= i < ws.len() ==> ws[i].name@ == ws2[i].name@
        && code_view(ws[i].ops@) == code_view(ws2[i].ops@)
}

/// The instruction the machine `m` is at.
spec fn op_at(words: Seq<Word>, entry: Seq<Op>, m: Machine) -> Op {
    code_of(words, entry, m.wi)[m.ip as int]
}

/// The machine is at an instruction of existing code.
spec fn at_code(words: Seq<Word>, entry: Seq<Op>, m: Machine) -> bool {
    &&& m.wi matches Some(w) ==> w < words.len()
    &&& m.ip < code_of(words, entry, m.wi).len()
}

/// The instruction the machine `m` is at can run without an error.
spec fn vm_enabled(words: Seq<Word>, entry: Seq<Op>, m: Machine) -> bool {
    let sl = m.stack.len();
    &&& m.ip < code_of(words, entry, m.wi).len()
    &&& match op_at(words, entry, m) {
        Op::Lit(_) => sl < STACK_MAX,
        Op::Prim(p) => prim_ok(p as int, m.stack),
        Op::Call(_) => m.rstack.len() < CALL_MAX,
        Op::Enter(k) => m.locals.len() + k <= LOCALS_MAX,
        Op::Leave => m.bases.len() > 0,
        Op::LocalGet(x) => m.bases.len() > 0 && m.bases.last() + x < m.locals.len() && sl < STACK_MAX,
        Op::LocalSet(x) => m.bases.len() > 0 && sl > 0 && m.bases.last() + x < m.locals.len(),
        Op::Branch(_) => true,
        Op::BranchIf0(_) => sl > 0 && m.stack.last() is Int,
        Op::Ret => m.rstack.len() > 0,
    }
}

/// The run `tr` never reads from the editor: what it does is fixed by the code and
/// the stack it starts on.
spec fn no_reads(words: Seq<Word>, entry: Seq<Op>, tr: Seq<Machine>) -> bool {
    forall|i: int| 0 <= i < tr.len() - 1 ==> !(#[trigger] op_at(words, entry, tr[i]) matches Op::Prim(p) && host_reads(
        p as int,
    ))
}

/// `tr` runs `entry` from the data stack `s` to its return, within the step budget,
/// without reading from the editor.
spec fn runs_from(words: Seq<Word>, entry: Seq<Op>, s: Seq<Value>, tr: Seq<Machine>) -> bool {
    &&& 1 <= tr.len() <= STEP_BUDGET
    &&& tr[0] == machine_start(s)
    &&& vm_trace(words, entry, tr)
    &&& vm_halted(words, entry, tr.last())
    &&& no_reads(words, entry, tr)
}

/// Every run of code like `entry` from a stack like `s` that does not read from the
/// editor is, after `k` steps, in a state like `m`.
spec fn tracks(words: Seq<Word>, entry: Seq<Op>, s: Seq<Value>, m: Machine, k: nat) -> bool {
    forall|ws2: Seq<Word>, e2: Seq<Op>, s2: Seq<Value>, tr: Seq<Machine>|
        #![trigger runs_from(ws2, e2, s2, tr), words_eq(ws2, words)]
        words_eq(ws2, words) && code_view(e2) == code_view(entry) && values_eq(s2, s) && runs_from(ws2, e2, s2, tr)
            ==> k < tr.len() && mach_eq(tr[k as int], m)
}

/// No run of code like `entry` from a stack like `s` avoids reading from the editor.
spec fn no_run_from(words: Seq<Word>, entry: Seq<Op>, s: Seq<Value>) -> bool {
    forall|ws2: Seq<Word>, e2: Seq<Op>, s2: Seq<Value>, tr: Seq<Machine>|
        #![trigger runs_from(ws2, e2, s2, tr), words_eq(ws2, words)]
        words_eq(ws2, words) && code_view(e2) == code_view(entry) && values_eq(s2, s) ==> !runs_from(ws2, e2, s2, tr)
}

/// Every run of code like `entry` from a stack like `s` that does not read from the
/// editor ends with a stack like `t`.
spec fn runs_end_like(words: Seq<Word>, entry: Seq<Op>, s: Seq<Value>, t: Seq<Value>) -> bool {
    forall|ws2: Seq<Word>, e2: Seq<Op>, s2: Seq<Value>, tr: Seq<Machine>|
        #![trigger runs_from(ws2, e2, s2, tr), words_eq(ws2, words)]
        words_eq(ws2, words) && code_view(e2) == code_view(entry) && values_eq(s2, s) && runs_from(ws2, e2, s2, tr)
            ==> values_eq(tr.last().stack, t)
}

proof fn lemma_values_eq_push(a: Seq<Value>, b: Seq<Value>, x: Value, y: Value)
    requires
        values_eq(a, b),
        value_eq_spec(x, y),
    ensures
        values_eq(a.push(x), b.push(y)),
{
    assert forall|i: int| #![trigger a.push(x)[i], b.push(y)[i]] 0 <= i < a.len() + 1 implies value_eq_spec(a.push(x)[i], b.push(y)[i]) by {
        if i < a.len() {
            assert(value_eq_spec(a[i], b[i]));
        }
    }
}

proof fn lemma_values_eq_take(a: Seq<Value>, b: Seq<Value>, k: int)
    requires
        values_eq(a, b),
        0 <= k <= a.len(),
    ensures
        values_eq(a.take(k), b.take(k)),
{
    assert forall|i: int| #![trigger a.take(k)[i], b.take(k)[i]] 0 <= i < k implies value_eq_spec(a.take(k)[i], b.take(k)[i]) by {
        assert(value_eq_spec(a[i], b[i]));
    }
}

proof fn lemma_values_eq_update(a: Seq<Value>, b: Seq<Value>, k: int, x: Value, y: Value)
    requires
        values_eq(a, b),
        0 <= k < a.len(),
        value_eq_spec(x, y),
    ensures
        values_eq(a.update(k, x), b.update(k, y)),
{
    assert forall|i: int| #![trigger a.update(k, x)[i], b.update(k, y)[i]] 0 <= i < a.len() implies value_eq_spec(
        a.update(k, x)[i],
        b.update(k, y)[i],
    ) by {
        if i != k {
            assert(value_eq_spec(a[i], b[i]));
        }
    }
}

proof fn lemma_values_eq_zeros(a: Seq<Value>, b: Seq<Value>, n: nat)
    requires
        values_eq(a, b),
    ensures
        values_eq(a + zeros(n), b + zeros(n)),
{
    assert forall|i: int| #![trigger (a + zeros(n))[i], (b + zeros(n))[i]] 0 <= i < a.len() + n implies value_eq_spec(
        (a + zeros(n))[i],
        (b + zeros(n))[i],
    ) by {
        if i < a.len() {
            assert(value_eq_spec(a[i], b[i]));
        }
    }
}

/// Machines alike at code alike are at the same instruction, literals compared by
/// their text.
proof fn lemma_same_op(ws: Seq<Word>, e: Seq<Op>, m: Machine, ws2: Seq<Word>, e2: Seq<Op>, m2: Machine)
    requires
        mach_eq(m, m2),
        words_eq(ws, ws2),
        code_view(e) == code_view(e2),
        at_code(ws, e, m),
    ensures
        at_code(ws2, e2, m2),
        instr_of(op_at(ws, e, m)) == instr_of(op_at(ws2, e2, m2)),
        op_at(ws, e, m) matches Op::Lit(v) ==> op_at(ws2, e2, m2) matches Op::Lit(v2) && value_eq_spec(v, v2),
        !(op_at(ws, e, m) is Lit) ==> op_at(ws2, e2, m2) == op_at(ws, e, m),
{
    let c = code_of(ws, e, m.wi);
    let c2 = code_of(ws2, e2, m2.wi);
    if let Some(w) = m.wi {
        assert(ws[w as int].name@ == ws2[w as int].name@ && code_view(ws[w as int].ops@) == code_view(ws2[w as int].ops@));
    }
    assert(code_view(c) == code_view(c2));
    assert(code_view(c).len() == c.len() && code_view(c2).len() == c2.len());
    assert(code_view(c)[m.ip as int] == instr_of(c[m.ip as int]));
    assert(code_view(c2)[m.ip as int] == instr_of(c2[m.ip as int]));
}

/// Alike machines at alike code can run their instruction alike, and are halted alike.
proof fn lemma_enabled_congruent(ws: Seq<Word>, e: Seq<Op>, m: Machine, ws2: Seq<Word>, e2: Seq<Op>, m2: Machine)
    requires
        mach_eq(m, m2),
        words_eq(ws, ws2),
        code_view(e) == code_view(e2),
        at_code(ws, e, m),
    ensures
        vm_enabled(ws, e, m) == vm_enabled(ws2, e2, m2),
        vm_halted(ws, e, m) == vm_halted(ws2, e2, m2),
{
    lemma_same_op(ws, e, m, ws2, e2, m2);
    if let Op::Prim(p) = op_at(ws, e, m) {
        lemma_prim_ok_congruent(p as int, m.stack, m2.stack);
    }
    let n = m.stack.len() as int;
    if n > 0 {
        assert(value_eq_spec(m.stack[n - 1], m2.stack[n - 1]));
    }
}

/// One instruction, not one that reads from the editor, takes alike machines at alike
/// code to alike machines.
#[verifier::rlimit(60)]
proof fn lemma_step_congruent(
    ws: Seq<Word>,
    e: Seq<Op>,
    m: Machine,
    n: Machine,
    ws2: Seq<Word>,
    e2: Seq<Op>,
    m2: Machine,
    n2: Machine,
)
    requires
        mach_eq(m, m2),
        words_eq(ws, ws2),
        code_view(e) == code_view(e2),
        at_code(ws, e, m),
        op_at(ws, e, m) matches Op::Prim(p) ==> p < PRIM_COUNT && !host_reads(p as int),
        m.bases.len() > 0 ==> m.bases.last() <= m.locals.len(),
        vm_step(ws, e, m, n),
        vm_step(ws2, e2, m2, n2),
    ensures
        mach_eq(n, n2),
{
    lemma_same_op(ws, e, m, ws2, e2, m2);
    let sl = m.stack.len() as int;
    if sl > 0 {
        assert(value_eq_spec(m.stack[sl - 1], m2.stack[sl - 1]));
        lemma_values_eq_take(m.stack, m2.stack, sl - 1);
        assert(m.stack.drop_last() == m.stack.take(sl - 1));
        assert(m2.stack.drop_last() == m2.stack.take(sl - 1));
    }
    match op_at(ws, e, m) {
        Op::Lit(v) => {
            let v2 = op_at(ws2, e2, m2)->Lit_0;
            lemma_values_eq_push(m.stack, m2.stack, v, v2);
        },
        Op::Prim(p) => {
            lemma_prim_effect_congruent(p as int, m.stack, m2.stack, n.stack, n2.stack);
        },
        Op::Enter(k) => {
            lemma_values_eq_zeros(m.locals, m2.locals, k as nat);
        },
        Op::Leave => {
            lemma_values_eq_take(m.locals, m2.locals, m.bases.last() as int);
        },
        Op::LocalGet(x) => {
            let j = m.bases.last() + x;
            assert(value_eq_spec(m.locals[j], m2.locals[j]));
            lemma_values_eq_push(m.stack, m2.stack, m.locals[j], m2.locals[j]);
        },
        Op::LocalSet(x) => {
            lemma_values_eq_update(m.locals, m2.locals, m.bases.last() + x, m.stack.last(), m2.stack.last());
        },
        _ => {},
    }
}

/// The runs `tracks` speaks of go on alike after one more instruction.
proof fn lemma_track_step(ws: Seq<Word>, e: Seq<Op>, s: Seq<Value>, cur: Machine, nxt: Machine, k: nat)
    requires
        tracks(ws, e, s, cur, k),
        at_code(ws, e, cur),
        op_at(ws, e, cur) matches Op::Prim(p) ==> p < PRIM_COUNT,
        cur.bases.len() > 0 ==> cur.bases.last() <= cur.locals.len(),
        vm_step(ws, e, cur, nxt),
        !vm_halted(ws, e, cur),
    ensures
        tracks(ws, e, s, nxt, k + 1),
{
    assert forall|ws2: Seq<Word>, e2: Seq<Op>, s2: Seq<Value>, tr: Seq<Machine>|
        #![trigger runs_from(ws2, e2, s2, tr), words_eq(ws2, ws)]
        words_eq(ws2, ws) && code_view(e2) == code_view(e) && values_eq(s2, s) && runs_from(ws2, e2, s2, tr)
            implies k + 1 < tr.len() && mach_eq(tr[k as int + 1], nxt) by {
        let m2 = tr[k as int];
        assert(k < tr.len() && mach_eq(m2, cur));
        lemma_words_eq_sym(ws2, ws);
        lemma_mach_eq_sym(m2, cur);
        lemma_enabled_congruent(ws, e, cur, ws2, e2, m2);
        if k + 1 >= tr.len() {
            assert(tr.last() == m2);
        }
        assert(vm_step(ws2, e2, tr[k as int], tr[k as int + 1]));
        assert(!(op_at(ws2, e2, tr[k as int]) matches Op::Prim(p) && host_reads(p as int)));
        lemma_same_op(ws, e, cur, ws2, e2, m2);
        lemma_step_congruent(ws, e, cur, nxt, ws2, e2, m2, tr[k as int + 1]);
        lemma_mach_eq_sym(nxt, tr[k as int + 1]);
    }
}

/// Where the machine cannot go on, and is not done, no run like it gets anywhere.
proof fn lemma_track_stuck(ws: Seq<Word>, e: Seq<Op>, s: Seq<Value>, cur: Machine, k: nat)
    requires
        tracks(ws, e, s, cur, k),
        at_code(ws, e, cur),
        !vm_enabled(ws, e, cur),
        !vm_halted(ws, e, cur),
    ensures
        no_run_from(ws, e, s),
{
    assert forall|ws2: Seq<Word>, e2: Seq<Op>, s2: Seq<Value>, tr: Seq<Machine>|
        #![trigger runs_from(ws2, e2, s2, tr), words_eq(ws2, ws)]
        words_eq(ws2, ws) && code_view(e2) == code_view(e) && values_eq(s2, s) implies !runs_from(ws2, e2, s2, tr) by {
        if runs_from(ws2, e2, s2, tr) {
            let m2 = tr[k as int];
            assert(k < tr.len() && mach_eq(m2, cur));
            lemma_words_eq_sym(ws2, ws);
            lemma_mach_eq_sym(m2, cur);
            lemma_enabled_congruent(ws, e, cur, ws2, e2, m2);
            if k + 1 >= tr.len() {
                assert(tr.last() == m2);
            } else {
                assert(vm_step(ws2, e2, tr[k as int], tr[k as int + 1]));
            }
        }
    }
}

/// Past the step budget no run like the machine's gets anywhere.
proof fn lemma_track_budget(ws: Seq<Word>, e: Seq<Op>, s: Seq<Value>, cur: Machine, k: nat)
    requires
        tracks(ws, e, s, cur, k),
        k >= STEP_BUDGET,
    ensures
        no_run_from(ws, e, s),
{
    assert forall|ws2: Seq<Word>, e2: Seq<Op>, s2: Seq<Value>, tr: Seq<Machine>|
        #![trigger runs_from(ws2, e2, s2, tr), words_eq(ws2, ws)]
        words_eq(ws2, ws) && code_view(e2) == code_view(e) && values_eq(s2, s) implies !runs_from(ws2, e2, s2, tr) by {
        if runs_from(ws2, e2, s2, tr) {
            assert(k < tr.len());
        }
    }
}

/// Where the machine has returned, every run like it ends with a stack like its own.
proof fn lemma_track_halt(ws: Seq<Word>, e: Seq<Op>, s: Seq<Value>, cur: Machine, k: nat)
    requires
        tracks(ws, e, s, cur, k),
        at_code(ws, e, cur),
        vm_halted(ws, e, cur),
    ensures
        runs_end_like(ws, e, s, cur.stack),
{
    assert forall|ws2: Seq<Word>, e2: Seq<Op>, s2: Seq<Value>, tr: Seq<Machine>|
        #![trigger runs_from(ws2, e2, s2, tr), words_eq(ws2, ws)]
        words_eq(ws2, ws) && code_view(e2) == code_view(e) && values_eq(s2, s) && runs_from(ws2, e2, s2, tr)
            implies values_eq(tr.last().stack, cur.stack) by {
        let m2 = tr[k as int];
        assert(k < tr.len() && mach_eq(m2, cur));
        lemma_words_eq_sym(ws2, ws);
        lemma_mach_eq_sym(m2, cur);
        lemma_enabled_congruent(ws, e, cur, ws2, e2, m2);
        if k + 1 < tr.len() {
            assert(vm_step(ws2, e2, tr[k as int], tr[k as int + 1]));
        }
        assert(tr.last() == m2);
    }
}

proof fn lemma_words_eq_sym(a: Seq<Word>, b: Seq<Word>)
    requires
        words_eq(a, b),
    ensures
        words_eq(b, a),
{
    assert forall|i: int| #![trigger b[i], a[i]] 0 <= i < b.len() implies b[i].name@ == a[i].name@ && code_view(b[i].ops@)
        == code_view(a[i].ops@) by {
        assert(a[i].name@ == b[i].name@);
    }
}

proof fn lemma_values_eq_sym(a: Seq<Value>, b: Seq<Value>)
    requires
        values_eq(a, b),
    ensures
        values_eq(b, a),
{
    assert forall|i: int| #![trigger b[i], a[i]] 0 <= i < b.len() implies value_eq_spec(b[i], a[i]) by {
        assert(value_eq_spec(a[i], b[i]));
    }
}

proof fn lemma_mach_eq_sym(a: Machine, b: Machine)
    requires
        mach_eq(a, b),
    ensures
        mach_eq(b, a),
{
    lemma_values_eq_sym(a.locals, b.locals);
    lemma_values_eq_sym(a.stack, b.stack);
}

/// Running the pending immediate tokens `imm` with the words `ws` takes the data
/// stack from `s` to `t` without reading from the editor: nothing happens when there
/// are none; otherwise they compile, as a whole, into code that runs from `s` to `t`.
spec fn flush_fixed(ws: Seq<Word>, imm: Seq<(int, Seq<char>)>, s: Seq<Value>, t: Seq<Value>) -> bool {
    if imm.len() == 0 {
        t == s
    } else {
        exists|c: Seq<Op>, tr: Seq<Machine>|
            #[trigger] runs_from(ws, c, s, tr) && tr.last().stack == t && (body_from(
                names_of(ws),
                imm,
                0,
                building_start(),
                false,
            ) matches Some((code, _)) && code == code_view(c))
    }
}

/// No run of `imm` from words and a stack like `ws` and `s` avoids reading from the
/// editor.
spec fn no_flush_from(ws: Seq<Word>, imm: Seq<(int, Seq<char>)>, s: Seq<Value>) -> bool {
    forall|ws2: Seq<Word>, s2: Seq<Value>, t: Seq<Value>|
        #![trigger flush_fixed(ws2, imm, s2, t), words_eq(ws2, ws)]
        words_eq(ws2, ws) && values_eq(s2, s) ==> !flush_fixed(ws2, imm, s2, t)
}

/// Every run of `imm` from words and a stack like `ws` and `s` that does not read
/// from the editor ends with a stack like `t`.
spec fn flush_ends_like(ws: Seq<Word>, imm: Seq<(int, Seq<char>)>, s: Seq<Value>, t: Seq<Value>) -> bool {
    forall|ws2: Seq<Word>, s2: Seq<Value>, t2: Seq<Value>|
        #![trigger flush_fixed(ws2, imm, s2, t2), words_eq(ws2, ws)]
        words_eq(ws2, ws) && values_eq(s2, s) && flush_fixed(ws2, imm, s2, t2) ==> values_eq(t2, t)
}

/// Word lists alike have the same names.
proof fn lemma_names_of_eq(a: Seq<Word>, b: Seq<Word>)
    requires
        words_eq(a, b),
    ensures
        names_of(a) == names_of(b),
{
    assert forall|i: int| 0 <= i < a.len() implies names_of(a)[i] == names_of(b)[i] by {
        assert(a[i].name@ == b[i].name@);
    }
    assert(names_of(a) =~= names_of(b));
}

/// The step `e` of evaluating `ts` takes words `ws` and data stack `s` to `ws2` and
/// `s2` without an error and without reading from the editor.
spec fn ev_fixed(ts: Seq<(int, Seq<char>)>, e: Event, ws: Seq<Word>, s: Seq<Value>, ws2: Seq<Word>, s2: Seq<Value>) -> bool {
    match e {
        Event::Flush(imm) => ws2 == ws && flush_fixed(ws, imm, s, s2),
        Event::Define(_) => ev_step(ts, e, ws, s, ws2, s2),
    }
}

/// `wss` and `ss` hold the words and data stacks before and after each step of `ev`,
/// none of which reads from the editor.
spec fn chain_fixed(ts: Seq<(int, Seq<char>)>, ev: Seq<Event>, wss: Seq<Seq<Word>>, ss: Seq<Seq<Value>>) -> bool {
    &&& wss.len() == ev.len() + 1
    &&& ss.len() == ev.len() + 1
    &&& forall|k: int| 0 <= k < ev.len() ==> #[trigger] ev_fixed(ts, ev[k], wss[k], ss[k], wss[k + 1], ss[k + 1])
}

/// Evaluating the tokens `ts` from words `ws` and data stack `s` can succeed without
/// reading from the editor.
spec fn eval_fixed(ts: Seq<(int, Seq<char>)>, ws: Seq<Word>, s: Seq<Value>) -> bool {
    exists|wss: Seq<Seq<Word>>, ss: Seq<Seq<Value>>|
        #[trigger] chain_fixed(ts, events(ts, 0, Seq::empty()), wss, ss) && wss[0] == ws && ss[0] == s
}

/// Every evaluation of `ts` from `ws` and `s` that does not read from the editor ends
/// with a stack like `t`.
spec fn eval_ends_like(ts: Seq<(int, Seq<char>)>, ws: Seq<Word>, s: Seq<Value>, t: Seq<Value>) -> bool {
    forall|wss: Seq<Seq<Word>>, ss: Seq<Seq<Value>>|
        #[trigger] chain_fixed(ts, events(ts, 0, Seq::empty()), wss, ss) && wss[0] == ws && ss[0] == s ==> values_eq(
            ss.last(),
            t,
        )
}

/// Every such evaluation is, after `k` steps, at words and a stack like `ws` and `s`.
spec fn chain_at(ts: Seq<(int, Seq<char>)>, w0: Seq<Word>, s0: Seq<Value>, k: int, ws: Seq<Word>, s: Seq<Value>) -> bool {
    forall|wss: Seq<Seq<Word>>, ss: Seq<Seq<Value>>|
        #[trigger] chain_fixed(ts, events(ts, 0, Seq::empty()), wss, ss) && wss[0] == w0 && ss[0] == s0 ==> words_eq(
            wss[k],
            ws,
        ) && values_eq(ss[k], s)
}

proof fn lemma_words_eq_refl(a: Seq<Word>)
    ensures
        words_eq(a, a),
{
}

proof fn lemma_values_eq_refl(a: Seq<Value>)
    ensures
        values_eq(a, a),
{
    assert forall|i: int| #![trigger a[i], a[i]] 0 <= i < a.len() implies value_eq_spec(a[i], a[i]) by {
    }
}

proof fn lemma_values_eq_trans(a: Seq<Value>, b: Seq<Value>, c: Seq<Value>)
    requires
        values_eq(a, b),
        values_eq(b, c),
    ensures
        values_eq(a, c),
{
    assert forall|i: int| #![trigger a[i], c[i]] 0 <= i < a.len() implies value_eq_spec(a[i], c[i]) by {
        assert(value_eq_spec(a[i], b[i]) && value_eq_spec(b[i], c[i]));
    }
}

proof fn lemma_chain_start(ts: Seq<(int, Seq<char>)>, w0: Seq<Word>, s0: Seq<Value>)
    ensures
        chain_at(ts, w0, s0, 0, w0, s0),
{
    lemma_words_eq_refl(w0);
    lemma_values_eq_refl(s0);
}

/// Pending tokens that ran take every such evaluation along.
proof fn lemma_chain_flush(
    ts: Seq<(int, Seq<char>)>,
    w0: Seq<Word>,
    s0: Seq<Value>,
    k: int,
    ws: Seq<Word>,
    s: Seq<Value>,
    s2: Seq<Value>,
    iv: Seq<(int, Seq<char>)>,
)
    requires
        chain_at(ts, w0, s0, k, ws, s),
        0 <= k < events(ts, 0, Seq::empty()).len(),
        events(ts, 0, Seq::empty())[k] == Event::Flush(iv),
        flush_ends_like(ws, iv, s, s2),
    ensures
        chain_at(ts, w0, s0, k + 1, ws, s2),
{
    let ev0 = events(ts, 0, Seq::empty());
    assert forall|wss: Seq<Seq<Word>>, ss: Seq<Seq<Value>>|
        #[trigger] chain_fixed(ts, ev0, wss, ss) && wss[0] == w0 && ss[0] == s0 implies words_eq(wss[k + 1], ws)
            && values_eq(ss[k + 1], s2) by {
        assert(words_eq(wss[k], ws) && values_eq(ss[k], s));
        assert(ev_fixed(ts, ev0[k], wss[k], ss[k], wss[k + 1], ss[k + 1]));
        assert(flush_fixed(wss[k], iv, ss[k], ss[k + 1]) && words_eq(wss[k], ws));
    }
}

/// Pending tokens that cannot run without reading from the editor leave no such
/// evaluation.
proof fn lemma_chain_flush_fails(
    ts: Seq<(int, Seq<char>)>,
    w0: Seq<Word>,
    s0: Seq<Value>,
    k: int,
    ws: Seq<Word>,
    s: Seq<Value>,
    iv: Seq<(int, Seq<char>)>,
)
    requires
        chain_at(ts, w0, s0, k, ws, s),
        0 <= k < events(ts, 0, Seq::empty()).len(),
        events(ts, 0, Seq::empty())[k] == Event::Flush(iv),
        no_flush_from(ws, iv, s),
    ensures
        !eval_fixed(ts, w0, s0),
{
    let ev0 = events(ts, 0, Seq::empty());
    if eval_fixed(ts, w0, s0) {
        let (wss, ss) = choose|wss: Seq<Seq<Word>>, ss: Seq<Seq<Value>>|
            #[trigger] chain_fixed(ts, ev0, wss, ss) && wss[0] == w0 && ss[0] == s0;
        assert(words_eq(wss[k], ws) && values_eq(ss[k], s));
        assert(ev_fixed(ts, ev0[k], wss[k], ss[k], wss[k + 1], ss[k + 1]));
        assert(flush_fixed(wss[k], iv, ss[k], ss[k + 1]) && words_eq(wss[k], ws));
    }
}

/// A definition compiled as the step says takes every such evaluation along.
proof fn lemma_chain_define(
    ts: Seq<(int, Seq<char>)>,
    w0: Seq<Word>,
    s0: Seq<Value>,
    k: int,
    ws: Seq<Word>,
    s: Seq<Value>,
    ws2: Seq<Word>,
    at: int,
)
    requires
        chain_at(ts, w0, s0, k, ws, s),
        0 <= k < events(ts, 0, Seq::empty()).len(),
        events(ts, 0, Seq::empty())[k] == Event::Define(at),
        ws2.len() == ws.len() + 1,
        ws2.drop_last() == ws,
        at + 1 < ts.len(),
        ws2.last().name@ == ts[at + 1].1,
        body_from(names_of(ws), ts, at + 2, building_start(), true) matches Some((code, _)) && code == code_view(
            ws2.last().ops@,
        ),
    ensures
        chain_at(ts, w0, s0, k + 1, ws2, s),
{
    let ev0 = events(ts, 0, Seq::empty());
    assert forall|wss: Seq<Seq<Word>>, ss: Seq<Seq<Value>>|
        #[trigger] chain_fixed(ts, ev0, wss, ss) && wss[0] == w0 && ss[0] == s0 implies words_eq(wss[k + 1], ws2)
            && values_eq(ss[k + 1], s) by {
        let a = wss[k];
        let b = wss[k + 1];
        assert(words_eq(a, ws) && values_eq(ss[k], s));
        assert(ev_fixed(ts, ev0[k], a, ss[k], b, ss[k + 1]));
        lemma_names_of_eq(a, ws);
        assert forall|i: int| #![trigger b[i], ws2[i]] 0 <= i < b.len() implies b[i].name@ == ws2[i].name@ && code_view(b[i].ops@)
            == code_view(ws2[i].ops@) by {
            if i < a.len() {
                assert(b[i] == b.drop_last()[i]);
                assert(ws2[i] == ws2.drop_last()[i]);
                assert(a[i].name@ == ws[i].name@);
            }
        }
    }
}

/// A definition the compiler refuses, or one without a name, leaves no such
/// evaluation.
proof fn lemma_chain_define_fails(
    ts: Seq<(int, Seq<char>)>,
    w0: Seq<Word>,
    s0: Seq<Value>,
    k: int,
    ws: Seq<Word>,
    s: Seq<Value>,
    at: int,
)
    requires
        chain_at(ts, w0, s0, k, ws, s),
        0 <= k < events(ts, 0, Seq::empty()).len(),
        events(ts, 0, Seq::empty())[k] == Event::Define(at),
        !(at + 1 < ts.len() && ts[at + 1].1 != ";"@ && ts[at + 1].1 != ":"@ && body_ok(names_of(ws), ts, at + 2, true)),
    ensures
        !eval_fixed(ts, w0, s0),
{
    let ev0 = events(ts, 0, Seq::empty());
    if eval_fixed(ts, w0, s0) {
        let (wss, ss) = choose|wss: Seq<Seq<Word>>, ss: Seq<Seq<Value>>|
            #[trigger] chain_fixed(ts, ev0, wss, ss) && wss[0] == w0 && ss[0] == s0;
        assert(words_eq(wss[k], ws) && values_eq(ss[k], s));
        assert(ev_fixed(ts, ev0[k], wss[k], ss[k], wss[k + 1], ss[k + 1]));
        lemma_names_of_eq(wss[k], ws);
    }
}

/// At the end every such evaluation has a stack like the one reached.
proof fn lemma_chain_end(ts: Seq<(int, Seq<char>)>, w0: Seq<Word>, s0: Seq<Value>, ws: Seq<Word>, s: Seq<Value>)
    requires
        chain_at(ts, w0, s0, events(ts, 0, Seq::empty()).len() as int, ws, s),
    ensures
        eval_ends_like(ts, w0, s0, s),
{
    let ev0 = events(ts, 0, Seq::empty());
    assert forall|wss: Seq<Seq<Word>>, ss: Seq<Seq<Value>>|
        #[trigger] chain_fixed(ts, ev0, wss, ss) && wss[0] == w0 && ss[0] == s0 implies values_eq(ss.last(), s) by {
        assert(values_eq(ss[ev0.len() as int], s));
    }
}

/// Whether `t` is a string literal: at least two characters, quoted at both ends.
pub open spec fn is_str_lit(t: Seq<char>) -> bool {
    t.len() >= 2 && t[0] == '"' && t[t.len() - 1] == '"'
}

/// The jump at `at` of `ops` made to go to `target`.
spec fn patched(ops: Seq<Instr>, at: usize, target: usize) -> Seq<Instr> {
    if ops[at as int] is Branch {
        ops.update(at as int, Instr::Branch(target))
    } else {
        ops.update(at as int, Instr::BranchIf0(target))
    }
}

/// What the compiler has while it reads a body: the code so far, the local names in
/// order of first use, and the open control structures (kind and position),
/// innermost last.
type Building = (Seq<Instr>, Seq<Seq<char>>, Seq<(u8, usize)>);

/// What the compiler has after the token `t`, or `None` where `t` is an error there.
/// `dict` holds the names of the defined words, oldest first; a `;` is dealt with by
/// `body_from`. `if` and `while` compile a jump taken on zero whose target `else`,
/// `then` or `repeat` fills in; `else` and `repeat` compile a jump, `until` a jump
/// on zero back to its `begin`. A string literal pushes its text, `>name` stores into
/// a local (made on first use), and any other token reads a local, calls the newest
/// word, runs a primitive or pushes a number, whichever it names first.
spec fn body_step(dict: Seq<Seq<char>>, t: Seq<char>, st: Building) -> Option<Building> {
    let (ops, locals, ctrl) = st;
    let here = ops.len() as usize;
    let open_is = |k: u8| ctrl.len() > 0 && ctrl.last().0 == k;
    if t == ":"@ {
        None
    } else if t == "if"@ {
        Some((ops.push(Instr::BranchIf0(0)), locals, ctrl.push((KIND_IF, here))))
    } else if t == "else"@ {
        if open_is(KIND_IF) {
            let ops2 = ops.push(Instr::Branch(0));
            Some((patched(ops2, ctrl.last().1, ops2.len() as usize), locals, ctrl.drop_last().push((KIND_IF, here))))
        } else {
            None
        }
    } else if t == "then"@ {
        if open_is(KIND_IF) {
            Some((patched(ops, ctrl.last().1, here), locals, ctrl.drop_last()))
        } else {
            None
        }
    } else if t == "begin"@ {
        Some((ops, locals, ctrl.push((KIND_BEGIN, here))))
    } else if t == "until"@ {
        if open_is(KIND_BEGIN) {
            Some((ops.push(Instr::BranchIf0(ctrl.last().1)), locals, ctrl.drop_last()))
        } else {
            None
        }
    } else if t == "while"@ {
        if open_is(KIND_BEGIN) {
            Some((ops.push(Instr::BranchIf0(0)), locals, ctrl.push((KIND_WHILE, here))))
        } else {
            None
        }
    } else if t == "repeat"@ {
        if ctrl.len() >= 2 && ctrl.last().0 == KIND_WHILE && ctrl[ctrl.len() - 2].0 == KIND_BEGIN {
            let ops2 = ops.push(Instr::Branch(ctrl[ctrl.len() - 2].1));
            Some((patched(ops2, ctrl.last().1, ops2.len() as usize), locals, ctrl.drop_last().drop_last()))
        } else {
            None
        }
    } else if is_str_lit(t) {
        Some((ops.push(Instr::Lit(LitV::Str(t.subrange(1, t.len() - 1)))), locals, ctrl))
    } else if t.len() >= 2 && t[0] == '>' && prim_of(t) is None {
        let name = t.subrange(1, t.len() as int);
        match locals.index_of_first(name) {
            Some(k) => Some((ops.push(Instr::LocalSet(k as usize)), locals, ctrl)),
            None => Some((ops.push(Instr::LocalSet(locals.len() as usize)), locals.push(name), ctrl)),
        }
    } else if locals.index_of_first(t) is Some {
        Some((ops.push(Instr::LocalGet(locals.index_of_first(t)->0 as usize)), locals, ctrl))
    } else if dict.index_of_last(t) is Some {
        Some((ops.push(Instr::Call(dict.index_of_last(t)->0 as usize)), locals, ctrl))
    } else if prim_of(t) is Some {
        Some((ops.push(Instr::Prim(prim_of(t)->0 as usize)), locals, ctrl))
    } else if parse_int_spec(encode_utf8(t)) is Some {
        Some((ops.push(Instr::Lit(LitV::Int(parse_int_spec(encode_utf8(t))->0))), locals, ctrl))
    } else {
        None
    }
}

/// The finished code: a frame for the locals around the body, then a return.
spec fn finished(st: Building) -> Seq<Instr> {
    st.0.update(0, Instr::Enter(st.1.len() as usize)).push(Instr::Leave).push(Instr::Ret)
}

/// The compiler at the start of a body: a frame entry still to be sized.
spec fn building_start() -> Building {
    (seq![Instr::Enter(0)], Seq::empty(), Seq::empty())
}

/// The code of a body read from token `i` on and where it ends (just past its `;`
/// when `until_semi`, else at the end of the tokens), or `None` where the compiler
/// refuses it: an erroneous token, a `;` outside a definition or a missing one, or a
/// control structure left open.
spec fn body_from(dict: Seq<Seq<char>>, ts: Seq<(int, Seq<char>)>, i: int, st: Building, until_semi: bool) -> Option<
    (Seq<Instr>, int),
>
    decreases ts.len() - i,
{
    if i >= ts.len() {
        if !until_semi && st.2.len() == 0 { Some((finished(st), i)) } else { None }
    } else if ts[i].1 == ";"@ {
        if until_semi && st.2.len() == 0 { Some((finished(st), i + 1)) } else { None }
    } else {
        match body_step(dict, ts[i].1, st) {
            None => None,
            Some(st2) => body_from(dict, ts, i + 1, st2, until_semi),
        }
    }
}

/// Whether the body read from token `i` on compiles.
pub closed spec fn body_ok(dict: Seq<Seq<char>>, ts: Seq<(int, Seq<char>)>, i: int, until_semi: bool) -> bool {
    body_from(dict, ts, i, building_start(), until_semi) is Some
}

/// Whether the tokens from `i` on are definitions only, each `: name … ;` with a name
/// and a body the compiler takes against the words defined before it.
pub open spec fn defs_ok(dict: Seq<Seq<char>>, ts: Seq<(int, Seq<char>)>, i: int) -> bool
    decreases ts.len() + 1 - i,
{
    if i >= ts.len() {
        true
    } else if ts[i].1 != ":"@ || i + 1 >= ts.len() || ts[i + 1].1 == ";"@ || ts[i + 1].1 == ":"@ {
        false
    } else {
        proof {
            lemma_first_semi_bound(ts, i + 2);
        }
        &&& body_ok(dict, ts, i + 2, true)
        &&& defs_ok(dict.push(ts[i + 1].1), ts, first_semi(ts, i + 2) + 1)
    }
}

/// The names of the words `ws`, oldest first.
spec fn names_of(ws: Seq<Word>) -> Seq<Seq<char>> {
    ws.map_values(|w: Word| w.name@)
}

/// Running the pending immediate tokens `imm` with the words `ws` takes the data
/// stack from `s` to `t`: nothing happens when there are none; otherwise they
/// compile, as a whole, into code that runs from `s` to `t`.
spec fn flush_runs(ws: Seq<Word>, imm: Seq<(int, Seq<char>)>, s: Seq<Value>, t: Seq<Value>) -> bool {
    if imm.len() == 0 {
        t == s
    } else {
        exists|c: Seq<Op>|
            #[trigger] vm_runs(ws, c, s, t) && (body_from(names_of(ws), imm, 0, building_start(), false) matches Some(
                (code, _),
            ) && code == code_view(c))
    }
}

/// One step of an evaluation: running the immediate tokens gathered so far, or
/// defining the word that the `:` at token `i` opens.
enum Event {
    Flush(Seq<(int, Seq<char>)>),
    Define(int),
}

/// The steps of evaluating `ts` from token `i` on, with the immediate tokens `imm`
/// still pending: at each `:` and at the end the pending tokens run, and each `:`
/// then defines a word whose body runs to the next `;`.
spec fn events(ts: Seq<(int, Seq<char>)>, i: int, imm: Seq<(int, Seq<char>)>) -> Seq<Event>
    decreases ts.len() + 1 - i,
{
    if i >= ts.len() {
        seq![Event::Flush(imm)]
    } else if ts[i].1 == ":"@ {
        if i + 1 < ts.len() {
            proof {
                lemma_first_semi_bound(ts, i + 2);
            }
            seq![Event::Flush(imm), Event::Define(i)] + events(ts, first_semi(ts, i + 2) + 1, Seq::empty())
        } else {
            seq![Event::Flush(imm), Event::Define(i)]
        }
    } else {
        events(ts, i + 1, imm.push(ts[i]))
    }
}

/// The step `e` of evaluating `ts` takes words `ws` and data stack `s` to `ws2` and
/// `s2` without an error: pending tokens run (`flush_runs`), or a word is added whose
/// name follows the `:` and whose code is what its body compiles to against `ws`.
spec fn ev_step(ts: Seq<(int, Seq<char>)>, e: Event, ws: Seq<Word>, s: Seq<Value>, ws2: Seq<Word>, s2: Seq<Value>) -> bool {
    match e {
        Event::Flush(imm) => ws2 == ws && flush_runs(ws, imm, s, s2),
        Event::Define(i) => {
            &&& s2 == s
            &&& i + 1 < ts.len()
            &&& ts[i + 1].1 != ";"@
            &&& ts[i + 1].1 != ":"@
            &&& ws2.len() == ws.len() + 1
            &&& ws2.drop_last() == ws
            &&& ws2.last().name@ == ts[i + 1].1
            &&& body_from(names_of(ws), ts, i + 2, building_start(), true) == Some(
                (code_view(ws2.last().ops@), first_semi(ts, i + 2) + 1),
            )
        },
    }
}

/// `wss` and `ss` hold the words and data stacks before and after each step of `ev`.
spec fn chain_ok(ts: Seq<(int, Seq<char>)>, ev: Seq<Event>, wss: Seq<Seq<Word>>, ss: Seq<Seq<Value>>) -> bool {
    &&& wss.len() == ev.len() + 1
    &&& ss.len() == ev.len() + 1
    &&& forall|k: int| 0 <= k < ev.len() ==> #[trigger] ev_step(ts, ev[k], wss[k], ss[k], wss[k + 1], ss[k + 1])
}

/// Evaluating the tokens `ts` takes the words `ws` and data stack `s` to `ws2` and
/// `t` without an error.
spec fn evaluates(ts: Seq<(int, Seq<char>)>, ws: Seq<Word>, s: Seq<Value>, ws2: Seq<Word>, t: Seq<Value>) -> bool {
    exists|wss: Seq<Seq<Word>>, ss: Seq<Seq<Value>>|
        #[trigger] chain_ok(ts, events(ts, 0, Seq::empty()), wss, ss) && wss[0] == ws && ss[0] == s && wss.last()
            == ws2 && ss.last() == t
}

/// A chain grows by one step.
proof fn lemma_chain_push(
    ts: Seq<(int, Seq<char>)>,
    ev: Seq<Event>,
    wss: Seq<Seq<Word>>,
    ss: Seq<Seq<Value>>,
    e: Event,
    w2: Seq<Word>,
    s2: Seq<Value>,
)
    requires
        chain_ok(ts, ev, wss, ss),
        ev_step(ts, e, wss.last(), ss.last(), w2, s2),
    ensures
        chain_ok(ts, ev.push(e), wss.push(w2), ss.push(s2)),
{
    let ev2 = ev.push(e);
    let wss2 = wss.push(w2);
    let ss2 = ss.push(s2);
    assert forall|k: int| 0 <= k < ev2.len() implies #[trigger] ev_step(ts, ev2[k], wss2[k], ss2[k], wss2[k + 1], ss2[k + 1]) by {
        if k < ev.len() {
            assert(ev2[k] == ev[k] && wss2[k] == wss[k] && wss2[k + 1] == wss[k + 1] && ss2[k] == ss[k] && ss2[k + 1] == ss[k + 1]);
        } else {
            assert(ev2[k] == e && wss2[k] == wss.last() && wss2[k + 1] == w2 && ss2[k] == ss.last() && ss2[k + 1] == s2);
        }
    }
}

/// The texts of a list of names.
spec fn names_view(v: Seq<Vec<char>>) -> Seq<Seq<char>> {
    v.map_values(|x: Vec<char>| x@)
}

/// `after` is `before` with words named `names`, in that order, added at the end.
spec fn new_names(before: Seq<Word>, after: Seq<Word>, names: Seq<Seq<char>>) -> bool {
    &&& after.len() == before.len() + names.len()
    &&& forall|k: int| 0 <= k < names.len() ==> #[trigger] after[before.len() + k].name@ == names[k]
}

/// The same value, copied.
pub fn copy_value(v: &Value) -> (r: Value)
    ensures
        r == *v,
{
    match v {
        Value::Int(n) => Value::Int(*n),
        Value::Str(s) => Value::Str(s.clone()),
    }
}

/// Equality of values: same kind and same contents.
pub open spec fn value_eq_spec(a: Value, b: Value) -> bool {
    match (a, b) {
        (Value::Int(x), Value::Int(y)) => x == y,
        (Value::Str(x), Value::Str(y)) => x@ == y@,
        _ => false,
    }
}

/// The word `t` names primitive `i` when `i` is the first primitive so named.
proof fn lemma_prim_named(t: Seq<char>, i: int)
    requires
        0 <= i < PRIM_COUNT,
        prim_name_spec(i) == t,
        forall|j: int| 0 <= j < i ==> prim_name_spec(j) != t,
    ensures
        prim_of(t) == Some(i),
{
    prim_names().index_of_first_ensures(t);
    assert(prim_names()[i] == t);
    assert(prim_names().contains(t));
    let k = prim_of(t)->0;
    if k < i {
        assert(prim_names()[k] == prim_name_spec(k));
    }
}

/// No primitive before `i` is called `t`, for a word `t` of at most seven
/// characters that primitive `i` is called.
proof fn lemma_first_named(t: Seq<char>, i: int)
    requires
        0 <= i < PRIM_COUNT,
        prim_name_spec(i) == t,
        t.len() <= 7,
    ensures
        prim_of(t) == Some(i),
{
    assert forall|j: int| 0 <= j < i implies prim_name_spec(j) != t by {
        let n = prim_name_spec(j);
        if n == t {
            assert(n.len() == t.len());
            assert(n[0] == t[0]);
            if t.len() > 1 {
                assert(n[1] == t[1]);
            }
            if t.len() > 2 {
                assert(n[2] == t[2]);
            }
            if t.len() > 3 {
                assert(n[3] == t[3]);
            }
            if t.len() > 4 {
                assert(n[4] == t[4]);
            }
            if t.len() > 5 {
                assert(n[5] == t[5]);
            }
            if t.len() > 6 {
                assert(n[6] == t[6]);
            }
        }
    }
    lemma_prim_named(t, i);
}

/// What the arithmetic, comparison, logic and stack words do to a data stack whose
/// top two values are the integers `a` (second) and `b` (top): `+ - *` give the
/// wrapped sum, difference and product; `< > <= >= = <>` give 1 when `a` stands in
/// that relation to `b` and 0 otherwise; `and` and `or` combine truth values;
/// `dup`, `drop`, `swap` and `over` copy, drop, exchange and copy the second value.
/// Each of these words is a primitive, and succeeds on such a stack (`dup` and
/// `over` when there is room).
pub proof fn lemma_word_meanings(s: Seq<Value>, a: i64, b: i64, t: Seq<Value>)
    requires
        s.len() >= 2,
        s[s.len() - 2] == Value::Int(a),
        s[s.len() - 1] == Value::Int(b),
    ensures
        ({
            let r = s.drop_last().drop_last();
            let word = |w: Seq<char>| prim_of(w) is Some && prim_effect(prim_of(w)->0, s, t);
            &&& forall|w: Seq<char>| #![trigger prim_of(w)] (w == seq!['+'] || w == seq!['-'] || w == seq!['*'] || w == seq!['<']
                || w == seq!['>'] || w == seq!['<', '='] || w == seq!['>', '='] || w == seq!['='] || w == seq!['<', '>']
                || w == seq!['a', 'n', 'd'] || w == seq!['o', 'r'] || w == seq!['d', 'r', 'o', 'p'] || w == seq!['s', 'w', 'a', 'p'])
                ==> prim_of(w) is Some && prim_ok(prim_of(w)->0, s)
            &&& word(seq!['+']) ==> t == r.push(Value::Int(a.wrapping_add(b)))
            &&& word(seq!['-']) ==> t == r.push(Value::Int(a.wrapping_sub(b)))
            &&& word(seq!['*']) ==> t == r.push(Value::Int(a.wrapping_mul(b)))
            &&& word(seq!['<']) ==> t == r.push(Value::Int(if a < b { 1 } else { 0 }))
            &&& word(seq!['>']) ==> t == r.push(Value::Int(if a > b { 1 } else { 0 }))
            &&& word(seq!['<', '=']) ==> t == r.push(Value::Int(if a <= b { 1 } else { 0 }))
            &&& word(seq!['>', '=']) ==> t == r.push(Value::Int(if a >= b { 1 } else { 0 }))
            &&& word(seq!['=']) ==> t == r.push(Value::Int(if a == b { 1 } else { 0 }))
            &&& word(seq!['<', '>']) ==> t == r.push(Value::Int(if a != b { 1 } else { 0 }))
            &&& word(seq!['a', 'n', 'd']) ==> t == r.push(Value::Int(if a != 0 && b != 0 { 1 } else { 0 }))
            &&& word(seq!['o', 'r']) ==> t == r.push(Value::Int(if a != 0 || b != 0 { 1 } else { 0 }))
            &&& word(seq!['d', 'u', 'p']) ==> t == s.push(Value::Int(b))
            &&& word(seq!['d', 'r', 'o', 'p']) ==> t == s.drop_last()
            &&& word(seq!['s', 'w', 'a', 'p']) ==> t == r.push(Value::Int(b)).push(Value::Int(a))
            &&& word(seq!['o', 'v', 'e', 'r']) ==> t == s.push(Value::Int(a))
        }),
{
    lemma_first_named(seq!['+'], 0);
    lemma_first_named(seq!['-'], 1);
    lemma_first_named(seq!['*'], 2);
    lemma_first_named(seq!['='], 6);
    lemma_first_named(seq!['<', '>'], 7);
    lemma_first_named(seq!['<'], 8);
    lemma_first_named(seq!['>'], 9);
    lemma_first_named(seq!['<', '='], 10);
    lemma_first_named(seq!['>', '='], 11);
    lemma_first_named(seq!['a', 'n', 'd'], 12);
    lemma_first_named(seq!['o', 'r'], 13);
    lemma_first_named(seq!['d', 'u', 'p'], 15);
    lemma_first_named(seq!['d', 'r', 'o', 'p'], 16);
    lemma_first_named(seq!['s', 'w', 'a', 'p'], 17);
    lemma_first_named(seq!['o', 'v', 'e', 'r'], 18);
    let n = s.len() as int;
    assert(s.drop_last().last() == s[n - 2]);
    assert(s.last() == s[n - 1]);
}

/// `/` and `mod` on the integers `a` (second) and `b` (top), `b` not zero: the
/// quotient `q` and the remainder `m` they leave satisfy `q * b + m == a`, with `m`
/// smaller than `b` in size and of the sign of `a` (division rounds toward zero),
/// except for `i64::MIN / -1`, which wraps.
pub proof fn lemma_div_mod_words(s: Seq<Value>, a: i64, b: i64, t1: Seq<Value>, t2: Seq<Value>)
    requires
        s.len() >= 2,
        s[s.len() - 2] == Value::Int(a),
        s[s.len() - 1] == Value::Int(b),
        b != 0,
        !(a == i64::MIN && b == -1),
        prim_of(seq!['/']) is Some && prim_effect(prim_of(seq!['/'])->0, s, t1),
        prim_of(seq!['m', 'o', 'd']) is Some && prim_effect(prim_of(seq!['m', 'o', 'd'])->0, s, t2),
    ensures
        t1.len() == s.len() - 1 && t1.last() is Int,
        t2.len() == s.len() - 1 && t2.last() is Int,
        ({
            let q = t1.last()->Int_0 as int;
            let m = t2.last()->Int_0 as int;
            &&& q * b + m == a
            &&& (if m < 0 { -m } else { m }) < (if b < 0 { -b } else { b as int })
            &&& m == 0 || ((m < 0) == (a < 0))
        }),
{
    lemma_first_named(seq!['/'], 3);
    lemma_first_named(seq!['m', 'o', 'd'], 4);
    let aa: int = if a >= 0 { a as int } else { -a };
    let bb: int = if b >= 0 { b as int } else { -b };
    let qq = aa / bb;
    let rr = aa % bb;
    assert(aa == qq * bb + rr && 0 <= rr < bb) by {
        vstd::arithmetic::div_mod::lemma_fundamental_div_mod(aa, bb);
        vstd::arithmetic::div_mod::lemma_mod_pos_bound(aa, bb);
        vstd::arithmetic::mul::lemma_mul_is_commutative(bb, qq);
    }
    let q: int = if (a >= 0) == (b >= 0) { qq } else { -qq };
    assert(0 <= qq <= aa) by {
        vstd::arithmetic::div_mod::lemma_div_pos_is_pos(aa, bb);
        vstd::arithmetic::div_mod::lemma_div_is_ordered_by_denominator(aa, 1, bb);
        vstd::arithmetic::div_mod::lemma_div_basics(aa);
    }
    assert(i64::MIN <= q <= i64::MAX) by {
        if aa == 0x8000_0000_0000_0000 && bb == 1 {
        } else if aa == 0x8000_0000_0000_0000 {
            assert(qq <= aa / 2) by {
                vstd::arithmetic::div_mod::lemma_div_is_ordered_by_denominator(aa, 2, bb);
            }
        }
    }
    assert(div_spec(a, b) == q);
    assert(q * b == (if a >= 0 { qq * bb } else { -(qq * bb) })) by (nonlinear_arith)
        requires
            q == (if (a >= 0) == (b >= 0) { qq } else { -qq }),
            bb == (if b >= 0 { b as int } else { -b }),
    ;
    assert(a - q * b == (if a >= 0 { rr } else { -rr }));
    assert(rem_spec(a, b) == a - q * b);
    let n = s.len() as int;
    assert(t1.last() == t1[n - 2]);
    assert(t2.last() == t2[n - 2]);
}

/// The string words on a data stack whose top two values are the strings `x`
/// (second) and `y` (top): `s+` leaves their concatenation, `slen` the length of
/// `y` in bytes; and on an integer `k` on top, `not` gives 1 exactly for 0 and
/// `negate` gives `-k` (`i64::MIN` staying itself).
pub proof fn lemma_string_and_unary_words(s: Seq<Value>, t: Seq<Value>)
    requires
        s.len() >= 2,
    ensures
        ({
            let n = s.len() as int;
            let word = |w: Seq<char>| prim_of(w) is Some && prim_effect(prim_of(w)->0, s, t);
            &&& (s[n - 2] is Str && s[n - 1] is Str) ==> prim_of(seq!['s', '+']) is Some && prim_ok(
                prim_of(seq!['s', '+'])->0,
                s,
            ) && prim_of(seq!['s', 'l', 'e', 'n']) is Some && prim_ok(prim_of(seq!['s', 'l', 'e', 'n'])->0, s)
            &&& (s[n - 2] is Str && s[n - 1] is Str && word(seq!['s', '+'])) ==> t.len() == n - 1 && t.take(n - 2)
                == s.take(n - 2) && (t[n - 2] is Str && t[n - 2]->Str_0@ == s[n - 2]->Str_0@ + s[n - 1]->Str_0@)
            &&& (s[n - 1] is Str && word(seq!['s', 'l', 'e', 'n'])) ==> t == s.drop_last().push(
                Value::Int(encode_utf8(s[n - 1]->Str_0@).len() as i64),
            )
            &&& (s[n - 1] is Int && word(seq!['n', 'o', 't'])) ==> t == s.drop_last().push(
                Value::Int(if s[n - 1]->Int_0 == 0 { 1 } else { 0 }),
            )
            &&& (s[n - 1] is Int && word(seq!['n', 'e', 'g', 'a', 't', 'e'])) ==> t == s.drop_last().push(
                Value::Int(if s[n - 1]->Int_0 == i64::MIN { i64::MIN } else { (0 - s[n - 1]->Int_0) as i64 }),
            )
        }),
{
    lemma_first_named(seq!['s', '+'], 23);
    lemma_first_named(seq!['s', 'l', 'e', 'n'], 22);
    lemma_first_named(seq!['n', 'o', 't'], 14);
    assert forall|j: int| 0 <= j < 5 implies prim_name_spec(j) != seq!['n', 'e', 'g', 'a', 't', 'e'] by {
        assert(prim_name_spec(j).len() != 6);
    }
    lemma_prim_named(seq!['n', 'e', 'g', 'a', 't', 'e'], 5);
    let n = s.len() as int;
    if s[n - 2] is Str && s[n - 1] is Str && prim_effect(23, s, t) {
        assert(t.drop_last() == s.drop_last().drop_last());
        assert(t.take(n - 2) =~= t.drop_last());
        assert(s.take(n - 2) =~= s.drop_last().drop_last());
    }
}

/// The editor words, on a host that shows its buffer (`modeled`): `len`, `cursor@`
/// and `mark@` push the text's length in bytes, the cursor and the mark (-1 when
/// there is none) and change nothing; `lines` and `line@` push the number of lines
/// and the cursor's line (from 0); `cursor!` moves the cursor to the given offset
/// snapped to a character boundary; `insert` puts the string at the cursor (when
/// it fits); `msg` and `.` show the string or the printed value; `find` searches
/// forward from the cursor and `rfind` backward.
pub proof fn lemma_editor_words<H: Host>(s: Seq<Value>, t: Seq<Value>, h: H, h2: H)
    requires
        s.len() >= 1,
    ensures
        ({
            let n = s.len() as int;
            let b = h.buffer_model();
            let b2 = h2.buffer_model();
            let txt = b.text@;
            let word = |w: Seq<char>|
                prim_of(w) is Some && prim_effect(prim_of(w)->0, s, t) && host_effect(prim_of(w)->0, s, t, h, h2);
            let same = b2 == b && h2.message_model() == h.message_model();
            &&& word(seq!['l', 'e', 'n']) ==> same && t == s.push(Value::Int(txt.len() as i64))
            &&& word(seq!['c', 'u', 'r', 's', 'o', 'r', '@']) ==> same && t == s.push(Value::Int(b.cursor as i64))
            &&& word(seq!['m', 'a', 'r', 'k', '@']) ==> same && t == s.push(
                Value::Int(
                    match b.mark {
                        Some(m) => m as i64,
                        None => -1i64,
                    },
                ),
            )
            &&& word(seq!['l', 'i', 'n', 'e', 's']) ==> same && t == s.push(
                Value::Int((crate::encoding::count_nl(txt) + 1) as i64),
            )
            &&& word(seq!['l', 'i', 'n', 'e', '@']) ==> same && t == s.push(
                Value::Int(crate::encoding::count_nl(txt.take(b.cursor as int)) as i64),
            )
            &&& word(seq!['c', 'u', 'r', 's', 'o', 'r', '!']) ==> t == s.drop_last() && b2.text@ == txt
                && crate::session::snapped(txt, s[n - 1]->Int_0 as int, b2.cursor as int)
            &&& (word(seq!['i', 'n', 's', 'e', 'r', 't']) && txt.len() + encode_utf8(s[n - 1]->Str_0@).len()
                <= TEXT_MAX) ==> t == s.drop_last() && b2.inserted_at_cursor(b, encode_utf8(s[n - 1]->Str_0@))
            &&& word(seq!['m', 's', 'g']) ==> t == s.drop_last() && b2 == b && h2.message_model() == s[n - 1]->Str_0@
            &&& word(seq!['.']) ==> t == s.drop_last() && b2 == b && h2.message_model() == text_spec(s[n - 1])
            &&& word(seq!['f', 'i', 'n', 'd']) ==> same && t.drop_last() == s.drop_last() && found_from(
                txt,
                b.cursor as int,
                encode_utf8(s[n - 1]->Str_0@),
                true,
                t.last()->Int_0 as int,
            )
            &&& word(seq!['r', 'f', 'i', 'n', 'd']) ==> same && t.drop_last() == s.drop_last() && found_from(
                txt,
                b.cursor as int,
                encode_utf8(s[n - 1]->Str_0@),
                false,
                t.last()->Int_0 as int,
            )
        }),
{
    lemma_first_named(seq!['l', 'e', 'n'], 24);
    lemma_first_named(seq!['c', 'u', 'r', 's', 'o', 'r', '@'], 25);
    lemma_first_named(seq!['c', 'u', 'r', 's', 'o', 'r', '!'], 26);
    lemma_first_named(seq!['m', 'a', 'r', 'k', '@'], 27);
    lemma_first_named(seq!['i', 'n', 's', 'e', 'r', 't'], 31);
    lemma_first_named(seq!['l', 'i', 'n', 'e', '@'], 33);
    lemma_first_named(seq!['l', 'i', 'n', 'e', 's'], 34);
    lemma_first_named(seq!['f', 'i', 'n', 'd'], 37);
    lemma_first_named(seq!['r', 'f', 'i', 'n', 'd'], 38);
    lemma_first_named(seq!['m', 's', 'g'], 39);
    lemma_first_named(seq!['.'], 19);
    let n = s.len() as int;
    if prim_effect(24, s, t) || prim_effect(25, s, t) || prim_effect(27, s, t) || prim_effect(33, s, t) || prim_effect(34, s, t) {
        assert(t =~= t.drop_last().push(t[n]));
    }
    if prim_effect(37, s, t) || prim_effect(38, s, t) {
        assert(t.last() == t[n - 1]);
    }
}

/// `mark!` sets the mark at the given offset snapped to a character boundary
/// (clears it for a negative one), leaving text and cursor; `sel@` pushes the
/// region's ends, the cursor twice when there is no region.
pub proof fn lemma_mark_words<H: Host>(s: Seq<Value>, t: Seq<Value>, h: H, h2: H)
    requires
        s.len() >= 1,
    ensures
        ({
            let n = s.len() as int;
            let b = h.buffer_model();
            let b2 = h2.buffer_model();
            let txt = b.text@;
            let at = s[n - 1]->Int_0;
            &&& prim_of(seq!['m', 'a', 'r', 'k', '!']) is Some
            &&& prim_of(seq!['s', 'e', 'l', '@']) is Some
            &&& (prim_effect(prim_of(seq!['m', 'a', 'r', 'k', '!'])->0, s, t) && host_effect(
                prim_of(seq!['m', 'a', 'r', 'k', '!'])->0,
                s,
                t,
                h,
                h2,
            )) ==> t == s.drop_last() && b2.text@ == txt && b2.cursor == b.cursor && (at < 0 ==> b2.mark is None
                && !b2.mark_active) && (at >= 0 ==> b2.mark_active && (b2.mark matches Some(m) && crate::session::snapped(
                txt,
                at as int,
                m as int,
            )))
            &&& (prim_effect(prim_of(seq!['s', 'e', 'l', '@'])->0, s, t) && host_effect(
                prim_of(seq!['s', 'e', 'l', '@'])->0,
                s,
                t,
                h,
                h2,
            )) ==> b2 == b && t.len() == n + 2 && t.take(n) == s && (t[n], t[n + 1]) == (match selection_spec(
                b.mark_active,
                b.mark,
                b.cursor,
            ) {
                Some((x, y)) => (Value::Int(x as i64), Value::Int(y as i64)),
                None => (Value::Int(b.cursor as i64), Value::Int(b.cursor as i64)),
            })
        }),
{
    lemma_first_named(seq!['m', 'a', 'r', 'k', '!'], 28);
    lemma_first_named(seq!['s', 'e', 'l', '@'], 29);
    let n = s.len() as int;
    if prim_effect(29, s, t) {
        assert(t.take(n) =~= t.drop_last().drop_last());
    }
}

/// `del` pops two offsets and deletes text between them: the text gets no longer,
/// and the message stays.
pub proof fn lemma_del_word<H: Host>(s: Seq<Value>, t: Seq<Value>, h: H, h2: H)
    requires
        s.len() >= 2,
        h.buffer_model().text@.len() <= TEXT_MAX,
    ensures
        prim_of(seq!['d', 'e', 'l']) is Some,
        (prim_effect(prim_of(seq!['d', 'e', 'l'])->0, s, t) && host_effect(prim_of(seq!['d', 'e', 'l'])->0, s, t, h, h2))
            ==> t == s.drop_last().drop_last() && h2.message_model() == h.message_model()
            && h2.buffer_model().text@.len() <= h.buffer_model().text@.len(),
{
    lemma_first_named(seq!['d', 'e', 'l'], 32);
}

/// `bol` and `eol` replace a line number (clamped to the buffer's lines) by where
/// that line starts and ends.
pub proof fn lemma_line_words<H: Host>(s: Seq<Value>, t: Seq<Value>, h: H, h2: H)
    requires
        s.len() >= 1,
    ensures
        ({
            let n = s.len() as int;
            let b = h.buffer_model();
            let txt = b.text@;
            let l = crate::session::clamp_line(txt, s[n - 1]->Int_0 as int);
            &&& prim_of(seq!['b', 'o', 'l']) is Some
            &&& prim_of(seq!['e', 'o', 'l']) is Some
            &&& (prim_effect(prim_of(seq!['b', 'o', 'l'])->0, s, t) && host_effect(prim_of(seq!['b', 'o', 'l'])->0, s, t, h, h2))
                ==> h2.buffer_model() == b && t.drop_last() == s.drop_last() && is_line_start(txt, l, t.last()->Int_0 as int)
            &&& (prim_effect(prim_of(seq!['e', 'o', 'l'])->0, s, t) && host_effect(prim_of(seq!['e', 'o', 'l'])->0, s, t, h, h2))
                ==> h2.buffer_model() == b && t.drop_last() == s.drop_last() && exists|ls: int|
                #[trigger] is_line_start(txt, l, ls) && is_next_newline(txt, ls, t.last()->Int_0 as int)
        }),
{
    lemma_first_named(seq!['b', 'o', 'l'], 35);
    lemma_first_named(seq!['e', 'o', 'l'], 36);
    let n = s.len() as int;
    if prim_effect(35, s, t) || prim_effect(36, s, t) {
        assert(t.last() == t[n - 1]);
    }
}

/// Whether two values are equal.
pub fn value_eq(a: &Value, b: &Value) -> (r: bool)
    ensures
        r == value_eq_spec(*a, *b),
{
    match (a, b) {
        (Value::Int(x), Value::Int(y)) => *x == *y,
        (Value::Str(x), Value::Str(y)) => *x == *y,
        _ => false,
    }
}

fn copy_op(op: &Op) -> (r: Op)
    ensures
        r == *op,
{
    match op {
        Op::Lit(v) => Op::Lit(copy_value(v)),
        Op::Call(w) => Op::Call(*w),
        Op::Prim(p) => Op::Prim(*p),
        Op::Enter(n) => Op::Enter(*n),
        Op::Leave => Op::Leave,
        Op::LocalGet(i) => Op::LocalGet(*i),
        Op::LocalSet(i) => Op::LocalSet(*i),
        Op::Branch(t) => Op::Branch(*t),
        Op::BranchIf0(t) => Op::BranchIf0(*t),
        Op::Ret => Op::Ret,
    }
}

fn copy_values(v: &Vec<Value>) -> (r: Vec<Value>)
    ensures
        r@ == v@,
{
    let mut out: Vec<Value> = Vec::new();
    let mut i: usize = 0;
    while i < v.len()
        invariant
            i <= v@.len(),
            out@ == v@.take(i as int),
        decreases v@.len() - i,
    {
        out.push(copy_value(&v[i]));
        i = i + 1;
        assert(out@ =~= v@.take(i as int));
    }
    assert(v@.take(i as int) =~= v@);
    out
}

pub(crate) fn chars_eq(a: &Vec<char>, b: &Vec<char>) -> (r: bool)
    ensures
        r == (a@ == b@),
{
    if a.len() != b.len() {
        return false;
    }
    let mut i: usize = 0;
    while i < a.len()
        invariant
            i <= a@.len() == b@.len(),
            forall|j: int| 0 <= j < i ==> a@[j] == b@[j],
        decreases a@.len() - i,
    {
        if a[i] != b[i] {
            return false;
        }
        i = i + 1;
    }
    assert(a@ =~= b@);
    true
}

/// The index of the primitive called `t`.
fn prim_index(t: &Vec<char>) -> (r: Option<usize>)
    ensures
        r matches Some(i) ==> i < PRIM_COUNT && prim_name_spec(i as int) == t@ && prim_of(t@) == Some(i as int),
        r is None ==> forall|i: int| 0 <= i < PRIM_COUNT ==> prim_name_spec(i) != t@,
        r is None <==> prim_of(t@) is None,
{
    let mut i: usize = 0;
    while i < PRIM_COUNT
        invariant
            i <= PRIM_COUNT,
            forall|j: int| 0 <= j < i ==> prim_name_spec(j) != t@,
        decreases PRIM_COUNT - i,
    {
        let name = prim_name(i);
        if chars_eq(&name, t) {
            proof {
                prim_names().index_of_first_ensures(t@);
                assert(prim_names()[i as int] == t@);
                if prim_of(t@) != Some(i as int) {
                    let k = prim_of(t@)->0;
                    assert(prim_names()[k] == t@);
                }
            }
            return Some(i);
        }
        i = i + 1;
    }
    proof {
        prim_names().index_of_first_ensures(t@);
        if prim_of(t@) is Some {
            let k = prim_of(t@)->0;
            assert(prim_names()[k] == prim_name_spec(k));
        }
    }
    None
}

/// A string made of valid UTF-8 pieces.
fn text_of(v: Vec<u8>) -> (r: String)
    requires
        valid_utf8(v@),
    ensures
        encode_utf8(r@) == v@,
{
    bytes_to_string(v)
}

/// `a` followed by `b`.
pub(crate) fn join2(a: &str, b: &str) -> (r: String)
    ensures
        r@ == a@ + b@,
{
    let mut v: Vec<u8> = Vec::new();
    push_str(&mut v, a);
    push_str(&mut v, b);
    proof {
        lemma_encode_concat(a@, b@);
        assert(v@ =~= encode_utf8(a@ + b@));
        encode_utf8_valid_utf8(a@ + b@);
        encode_utf8_decode_utf8(a@ + b@);
    }
    bytes_to_string(v)
}

/// `a`, `b` and `c` in a row.
pub(crate) fn join3(a: &str, b: &str, c: &str) -> (r: String)
    ensures
        r@ == a@ + b@ + c@,
{
    let ab = join2(a, b);
    join2(ab.as_str(), c)
}

/// Decimal text of `n`.
pub fn int_string(n: i64) -> (r: String)
    ensures
        encode_utf8(r@) == int_text_spec(n as int),
{
    let mut v: Vec<u8> = Vec::new();
    push_int(&mut v, n);
    proof {
        lemma_int_text_valid(n as int);
        assert(v@ =~= int_text_spec(n as int));
    }
    text_of(v)
}

impl Value {
    /// The value as text: the decimal number, or the string itself.
    pub fn text(&self) -> (r: String)
        ensures
            self matches Value::Int(n) ==> encode_utf8(r@) == int_text_spec(n as int),
            self matches Value::Str(s) ==> r@ == s@,
    {
        match self {
            Value::Int(n) => int_string(*n),
            Value::Str(s) => s.clone(),
        }
    }
}

/// Quotient rounded toward zero; `i64::MIN / -1` wraps to `i64::MIN`.
pub open spec fn div_spec(a: i64, b: i64) -> i64 {
    if a == i64::MIN && b == -1 {
        i64::MIN
    } else {
        let q = (if a >= 0 { a as int } else { -a }) / (if b >= 0 { b as int } else { -b });
        (if (a >= 0) == (b >= 0) { q } else { -q }) as i64
    }
}

/// Remainder with the sign of the dividend; `i64::MIN % -1` wraps to zero.
pub open spec fn rem_spec(a: i64, b: i64) -> i64 {
    if a == i64::MIN && b == -1 {
        0
    } else {
        (a - div_spec(a, b) * b) as i64
    }
}

fn wrapping_div(a: i64, b: i64) -> (r: i64)
    requires
        b != 0,
    ensures
        r == div_spec(a, b),
{
    if a == i64::MIN && b == -1 {
        return i64::MIN;
    }
    let ua: u64 = if a >= 0 { a as u64 } else { (0i128 - a as i128) as u64 };
    let ub: u64 = if b >= 0 { b as u64 } else { (0i128 - b as i128) as u64 };
    let q = ua / ub;
    proof {
        assert(q <= ua) by (nonlinear_arith)
            requires
                q == ua / ub,
                ub >= 1,
        ;
    }
    if (a >= 0) == (b >= 0) {
        q as i64
    } else {
        (0i128 - q as i128) as i64
    }
}

fn wrapping_rem(a: i64, b: i64) -> (r: i64)
    requires
        b != 0,
    ensures
        r == rem_spec(a, b),
{
    if a == i64::MIN && b == -1 {
        return 0;
    }
    let q = wrapping_div(a, b);
    proof {
        let ua: int = if a >= 0 { a as int } else { -a };
        let ub: int = if b >= 0 { b as int } else { -b };
        let qq = ua / ub;
        assert(0 <= ua - qq * ub < ub) by (nonlinear_arith)
            requires
                ub >= 1,
                ua >= 0,
                qq == ua / ub,
        ;
        assert(ua - qq * ub <= ua) by (nonlinear_arith)
            requires
                ub >= 1,
                ua >= 0,
                qq == ua / ub,
        ;
        assert(0 <= qq <= ua) by (nonlinear_arith)
            requires
                ub >= 1,
                ua >= 0,
                qq == ua / ub,
        ;
        assert(ub >= 2 ==> qq * 2 <= ua) by (nonlinear_arith)
            requires
                ub >= 1,
                ua >= 0,
                qq == ua / ub,
        ;
        if (a >= 0) == (b >= 0) {
            assert(q == qq);
            if a >= 0 {
                assert(a - q * b == ua - qq * ub);
            } else {
                assert(a - q * b == -(ua - qq * ub)) by (nonlinear_arith)
                    requires
                        a == -ua,
                        b == -ub,
                        q == qq,
                ;
            }
        } else {
            assert(q == -qq);
            if a >= 0 {
                assert(a - q * b == ua - qq * ub) by (nonlinear_arith)
                    requires
                        a == ua,
                        b == -ub,
                        q == -qq,
                ;
            } else {
                assert(a - q * b == -(ua - qq * ub)) by (nonlinear_arith)
                    requires
                        a == -ua,
                        b == ub,
                        q == -qq,
                ;
            }
        }
    }
    ((a as i128) - (q as i128) * (b as i128)) as i64
}

fn wrapping_neg(a: i64) -> (r: i64)
    ensures
        r == (if a == i64::MIN { i64::MIN as int } else { -a }),
{
    if a == i64::MIN {
        i64::MIN
    } else {
        -a
    }
}

/// Host for definitions-only evaluation; nothing ever runs against it. It stands
/// for an empty buffer: no text, cursor at 0, no mark, one line, nothing found.
struct NoHost;

impl Host for NoHost {

    fn len(&self) -> (r: i64)
        ensures
            r == 0,
    {
        0
    }

    fn cursor(&self) -> (r: i64)
        ensures
            r == 0,
    {
        0
    }

    fn set_cursor(&mut self, at: i64) {
    }

    fn mark(&self) -> (r: i64)
        ensures
            r == -1,
    {
        -1
    }

    fn set_mark(&mut self, at: i64) {
    }

    fn selection(&self) -> (r: (i64, i64))
        ensures
            r == (0i64, 0i64),
    {
        (0, 0)
    }

    fn slice(&self, a: i64, b: i64) -> (r: String)
        ensures
            r@.len() == 0,
    {
        String::new()
    }

    fn insert(&mut self, s: &str) {
    }

    fn delete(&mut self, a: i64, b: i64) {
    }

    fn line(&self) -> (r: i64)
        ensures
            r == 0,
    {
        0
    }

    fn lines(&self) -> (r: i64)
        ensures
            r == 1,
    {
        1
    }

    fn line_start(&self, l: i64) -> (r: i64)
        ensures
            r == 0,
    {
        0
    }

    fn line_end(&self, l: i64) -> (r: i64)
        ensures
            r == 0,
    {
        0
    }

    fn search(&self, s: &str, fwd: bool) -> (r: i64)
        ensures
            r == -1,
    {
        -1
    }

    fn message(&mut self, s: &str) {
    }
}

/// How the echo area shows one value: a number in decimal, a string in quotes with
/// at most its first sixteen characters and `…` when it is longer.
pub open spec fn value_repr(v: Value) -> Seq<char> {
    match v {
        Value::Int(n) => decode_utf8(int_text_spec(n as int)),
        Value::Str(t) => if t@.len() > 16 {
            seq!['"'] + t@.take(16) + seq!['…'] + seq!['"']
        } else {
            seq!['"'] + t@ + seq!['"']
        },
    }
}

/// Each value preceded by a space.
pub open spec fn show_items(vs: Seq<Value>) -> Seq<char>
    decreases vs.len(),
{
    if vs.len() == 0 {
        Seq::empty()
    } else {
        show_items(vs.drop_last()) + seq![' '] + value_repr(vs.last())
    }
}

/// The echo-area view of a stack.
pub open spec fn show_spec(stack: Seq<Value>) -> Seq<char> {
    let start: int = if stack.len() > 8 { stack.len() - 8 } else { 0 };
    "ok ("@ + (if start > 0 { " …"@ } else { Seq::empty() }) + show_items(stack.skip(start)) + " )"@
}

/// Appends how the echo area shows `val`.
fn push_repr(v: &mut Vec<u8>, val: &Value)
    ensures
        final(v)@ == old(v)@ + encode_utf8(value_repr(*val)),
{
    match val {
        Value::Int(n) => {
            push_int(v, *n);
            proof {
                lemma_int_text_valid(*n as int);
                decode_utf8_encode_utf8(int_text_spec(*n as int));
            }
        },
        Value::Str(t) => {
            let cs = str_chars(t.as_str());
            let k: usize = if cs.len() > 16 { 16 } else { cs.len() };
            let ghost v0 = v@;
            push_char(v, '"');
            let mut i: usize = 0;
            proof {
                assert(cs@.take(0) =~= Seq::<char>::empty());
                assert(v@ =~= v0 + encode_utf8(seq!['"'] + cs@.take(0))) by {
                    lemma_encode_single('"');
                    assert(seq!['"'] + cs@.take(0) =~= seq!['"']);
                }
            }
            while i < k
                invariant
                    i <= k <= cs@.len(),
                    v@ == v0 + encode_utf8(seq!['"'] + cs@.take(i as int)),
                decreases k - i,
            {
                proof {
                    assert(seq!['"'] + cs@.take(i + 1) =~= (seq!['"'] + cs@.take(i as int)).push(cs@[i as int]));
                    lemma_encode_push(seq!['"'] + cs@.take(i as int), cs@[i as int]);
                }
                push_char(v, cs[i]);
                i = i + 1;
            }
            let ghost pre = seq!['"'] + cs@.take(k as int);
            let ghost ell: Seq<char> = if cs@.len() > 16 { seq!['…'] } else { Seq::empty() };
            if cs.len() > 16 {
                push_char(v, '…');
                proof {
                    lemma_encode_push(pre, '…');
                    assert(pre.push('…') =~= pre + ell);
                }
            } else {
                assert(pre + ell =~= pre);
            }
            push_char(v, '"');
            proof {
                lemma_encode_push(pre + ell, '"');
                if cs@.len() <= 16 {
                    assert(cs@.take(k as int) =~= cs@);
                }
                assert((pre + ell).push('"') =~= value_repr(*val));
            }
        },
    }
}

/// Whether the token `t` is the word `w`.
pub(crate) fn is_word(t: &Vec<char>, w: &str) -> (r: bool)
    ensures
        r == (t@ == w@),
{
    let wc = str_chars(w);
    chars_eq(t, &wc)
}

/// `cs[a..b]` as a vector.
pub(crate) fn chars_sub(cs: &Vec<char>, a: usize, b: usize) -> (r: Vec<char>)
    requires
        a <= b <= cs@.len(),
    ensures
        r@ == cs@.subrange(a as int, b as int),
{
    let mut out: Vec<char> = Vec::new();
    let mut k = a;
    while k < b
        invariant
            a <= k <= b <= cs@.len(),
            out@ == cs@.subrange(a as int, k as int),
        decreases b - k,
    {
        out.push(cs[k]);
        k = k + 1;
        assert(out@ =~= cs@.subrange(a as int, k as int));
    }
    out
}

/// Index of the first entry of `names` equal to `t`.
fn position(names: &Vec<Vec<char>>, t: &Vec<char>) -> (r: Option<usize>)
    ensures
        r matches Some(k) ==> k < names@.len() && names@[k as int]@ == t@ && forall|j: int| 0 <= j < k ==> names@[j]@ != t@,
        r is None ==> forall|j: int| 0 <= j < names@.len() ==> names@[j]@ != t@,
{
    let mut k: usize = 0;
    while k < names.len()
        invariant
            k <= names@.len(),
            forall|j: int| 0 <= j < k ==> names@[j]@ != t@,
        decreases names@.len() - k,
    {
        if chars_eq(&names[k], t) {
            return Some(k);
        }
        k = k + 1;
    }
    None
}

/// The value with whitespace trimmed from both ends of its text.
pub(crate) fn trim_chars(cs: &Vec<char>) -> (r: (usize, usize))
    ensures
        r.0 <= r.1 <= cs@.len(),
        forall|i: int| 0 <= i < r.0 ==> is_ws_spec(#[trigger] cs@[i]),
        forall|i: int| r.1 <= i < cs@.len() ==> is_ws_spec(#[trigger] cs@[i]),
        r.0 < r.1 ==> !is_ws_spec(cs@[r.0 as int]) && !is_ws_spec(cs@[r.1 - 1]),
{
    let mut a: usize = 0;
    while a < cs.len() && is_ws(cs[a])
        invariant
            a <= cs@.len(),
            forall|i: int| 0 <= i < a ==> is_ws_spec(#[trigger] cs@[i]),
        decreases cs@.len() - a,
    {
        a = a + 1;
    }
    let mut b = cs.len();
    while b > a && is_ws(cs[b - 1])
        invariant
            a <= b <= cs@.len(),
            forall|i: int| b <= i < cs@.len() ==> is_ws_spec(#[trigger] cs@[i]),
        decreases b,
    {
        b = b - 1;
    }
    (a, b)
}

impl Vm {
    /// The stack is within bounds and every word's code is well formed.
    pub closed spec fn wf(&self) -> bool {
        &&& self.stack@.len() <= STACK_MAX
        &&& forall|k: int| 0 <= k < self.words@.len() ==> ops_ok(#[trigger] self.words@[k].ops@, self.words@.len() as int)
    }

    /// Evaluating `src` takes the interpreter from `self` to `after` without an error:
    /// `src` splits into tokens (`lex_spec`); going through them, the immediate
    /// tokens gathered before each `: name … ;` and at the end compile together
    /// (`body_from`) into code that runs on the data stack, instruction by
    /// instruction as `vm_step` says, within the step budget; and each definition
    /// adds a word whose code is what its body compiles to against the words defined
    /// before it.
    pub closed spec fn evaluates_to(self, src: Seq<char>, after: Vm) -> bool {
        match lex_spec(src, 0) {
            Some(ts) => evaluates(ts, self.words@, self.stack@, after.words@, after.stack@),
            None => false,
        }
    }

    /// Evaluating `src` from `self` can succeed with nothing left to the editor to
    /// decide: `src` lexes, and it has an evaluation as `evaluates_to` describes in
    /// which no instruction reads from the editor (`host_reads`).
    pub closed spec fn evaluates_without_reads(self, src: Seq<char>) -> bool {
        match lex_spec(src, 0) {
            Some(ts) => eval_fixed(ts, self.words@, self.stack@),
            None => false,
        }
    }

    /// Every evaluation of `src` from `self` in which no instruction reads from the
    /// editor leaves a data stack holding the same values as `after`'s (strings
    /// compared by their text).
    pub closed spec fn ends_like(self, src: Seq<char>, after: Vm) -> bool {
        match lex_spec(src, 0) {
            Some(ts) => eval_ends_like(ts, self.words@, self.stack@, after.stack@),
            None => true,
        }
    }

    /// The data stack, bottom first.
    pub closed spec fn stack_spec(&self) -> Seq<Value> {
        self.stack@
    }

    /// Names of the defined words, oldest first.
    pub closed spec fn dict(&self) -> Seq<Seq<char>> {
        names_of(self.words@)
    }

    /// An interpreter with no definitions and an empty stack.
    pub fn new() -> (r: Vm)
        ensures
            r.wf(),
            r.stack_spec().len() == 0,
            r.dict().len() == 0,
    {
        let r = Vm { words: Vec::new(), stack: Vec::new() };
        assert(r.dict() =~= Seq::<Seq<char>>::empty());
        r
    }

    /// The data stack, bottom first.
    pub fn stack(&self) -> (r: &Vec<Value>)
        ensures
            r@ == self.stack_spec(),
    {
        &self.stack
    }

    /// Names of the defined words, oldest first.
    pub fn names(&self) -> (r: Vec<String>)
        ensures
            r@.len() == self.dict().len(),
            forall|i: int| 0 <= i < r@.len() ==> #[trigger] r@[i]@ == self.dict()[i],
    {
        let mut out: Vec<String> = Vec::new();
        let mut i: usize = 0;
        while i < self.words.len()
            invariant
                i <= self.words@.len(),
                out@.len() == i,
                forall|j: int| 0 <= j < i ==> #[trigger] out@[j]@ == self.words@[j].name@,
            decreases self.words@.len() - i,
        {
            let w = &self.words[i];
            out.push(chars_string(&w.name, 0, w.name.len()));
            proof {
                assert(w.name@.subrange(0, w.name@.len() as int) =~= w.name@);
            }
            i = i + 1;
        }
        out
    }

    fn push(&mut self, v: Value) -> (r: Result<(), String>)
        requires
            old(self).wf(),
        ensures
            final(self).wf(),
            final(self).words == old(self).words,
            r is Ok <==> old(self).stack@.len() < STACK_MAX,
            r is Ok ==> final(self).stack@ == old(self).stack@.push(v),
            r is Err ==> final(self).stack@ == old(self).stack@,
    {
        if self.stack.len() >= STACK_MAX {
            return Err("stack overflow".to_owned());
        }
        self.stack.push(v);
        Ok(())
    }

    fn pop(&mut self) -> (r: Result<Value, String>)
        requires
            old(self).wf(),
        ensures
            final(self).wf(),
            final(self).words == old(self).words,
            r is Ok <==> old(self).stack@.len() > 0,
            r matches Ok(v) ==> final(self).stack@ == old(self).stack@.drop_last() && v == old(self).stack@.last(),
            r is Err ==> final(self).stack@ == old(self).stack@,
    {
        match self.stack.pop() {
            Some(v) => Ok(v),
            None => Err("stack underflow".to_owned()),
        }
    }

    fn pop_int(&mut self) -> (r: Result<i64, String>)
        requires
            old(self).wf(),
        ensures
            final(self).wf(),
            final(self).words == old(self).words,
            r matches Ok(n) ==> old(self).stack@.len() > 0 && old(self).stack@.last() == Value::Int(n)
                && final(self).stack@ == old(self).stack@.drop_last(),
            r is Ok <==> old(self).stack@.len() > 0 && old(self).stack@.last() is Int,
            final(self).stack@.len() <= old(self).stack@.len(),
    {
        match self.pop()? {
            Value::Int(n) => Ok(n),
            Value::Str(s) => Err(join3("expected number, got \"", s.as_str(), "\"")),
        }
    }

    fn pop_str(&mut self) -> (r: Result<String, String>)
        requires
            old(self).wf(),
        ensures
            final(self).wf(),
            final(self).words == old(self).words,
            r matches Ok(s) ==> old(self).stack@.len() > 0 && old(self).stack@.last() == Value::Str(s)
                && final(self).stack@ == old(self).stack@.drop_last(),
            r is Ok <==> old(self).stack@.len() > 0 && old(self).stack@.last() is Str,
            final(self).stack@.len() <= old(self).stack@.len(),
    {
        match self.pop()? {
            Value::Str(s) => Ok(s),
            Value::Int(n) => {
                let t = int_string(n);
                Err(join2("expected string, got ", t.as_str()))
            },
        }
    }

    fn pop2(&mut self) -> (r: Result<(i64, i64), String>)
        requires
            old(self).wf(),
        ensures
            final(self).wf(),
            final(self).words == old(self).words,
            r matches Ok((a, b)) ==> old(self).stack@.len() >= 2 && old(self).stack@.last() == Value::Int(b)
                && old(self).stack@[old(self).stack@.len() - 2] == Value::Int(a)
                && final(self).stack@ == old(self).stack@.drop_last().drop_last(),
            r is Ok <==> old(self).stack@.len() >= 2 && old(self).stack@.last() is Int && old(self).stack@[old(self).stack@.len() - 2] is Int,
            final(self).stack@.len() <= old(self).stack@.len(),
    {
        let b = self.pop_int()?;
        let a = self.pop_int()?;
        Ok((a, b))
    }

    fn patch(ops: &mut Vec<Op>, at: usize, target: usize)
        requires
            at < old(ops)@.len(),
            old(ops)@[at as int] is Branch || old(ops)@[at as int] is BranchIf0,
        ensures
            final(ops)@.len() == old(ops)@.len(),
            old(ops)@[at as int] is Branch ==> final(ops)@ == old(ops)@.update(at as int, Op::Branch(target)),
            old(ops)@[at as int] is BranchIf0 ==> final(ops)@ == old(ops)@.update(at as int, Op::BranchIf0(target)),
            code_view(final(ops)@) == patched(code_view(old(ops)@), at, target),
    {
        let branch = match &ops[at] {
            Op::Branch(_) => true,
            _ => false,
        };
        let ghost v0 = code_view(ops@);
        if branch {
            ops.set(at, Op::Branch(target));
        } else {
            ops.set(at, Op::BranchIf0(target));
        }
        proof {
            assert(code_view(ops@) =~= patched(v0, at, target));
        }
    }

    /// Compiles tokens from `*i` on: a definition body up to `;`, or the rest.
    #[verifier::rlimit(100)]
    #[verifier::spinoff_prover]
    fn compile(&self, toks: &Vec<(usize, String)>, i: &mut usize, until_semi: bool) -> (r: Result<Vec<Op>, String>)
        requires
            *old(i) <= toks@.len(),
        ensures
            *old(i) <= *final(i) <= toks@.len(),
            r matches Ok(ops) ==> ops_ok(ops@, self.words@.len() as int),
            until_semi && r is Ok ==> *final(i) == first_semi(toks_view(toks@), *old(i) as int) + 1,
            r is Ok <==> body_ok(self.dict(), toks_view(toks@), *old(i) as int, until_semi),
            r matches Ok(ops) ==> body_from(self.dict(), toks_view(toks@), *old(i) as int, building_start(), until_semi)
                == Some((code_view(ops@), *final(i) as int)),
    {
        let ghost ts = toks_view(toks@);
        let ghost i0 = *i as int;
        let ghost dict = self.dict();
        let ghost target = body_from(dict, ts, i0, building_start(), until_semi);
        let nw = self.words.len();
        let mut ops: Vec<Op> = Vec::new();
        ops.push(Op::Enter(0));
        let mut locals: Vec<Vec<char>> = Vec::new();
        let mut ctrl: Vec<(u8, usize)> = Vec::new();
        proof {
            assert(names_view(locals@) =~= Seq::<Seq<char>>::empty());
            assert(code_view(ops@) =~= seq![Instr::Enter(0)]);
            assert((code_view(ops@), names_view(locals@), ctrl@) == building_start());
        }
        loop
            invariant_except_break
                until_semi ==> first_semi(ts, i0) == first_semi(ts, *i as int),
                body_from(dict, ts, *i as int, (code_view(ops@), names_view(locals@), ctrl@), until_semi) == target,
            invariant
                ts == toks_view(toks@),
                i0 == *old(i),
                dict == self.dict(),
                target == body_from(dict, ts, i0, building_start(), until_semi),
                *old(i) <= *i <= toks@.len(),
                nw == self.words@.len(),
                ops@.len() >= 1,
                forall|k: int| 0 <= k < ops@.len() ==> op_ok(#[trigger] ops@[k], ops@.len() + 1int, nw as int),
                forall|j: int| 0 <= j < ctrl@.len() ==> {
                    let (kind, at) = #[trigger] ctrl@[j];
                    &&& (kind == KIND_IF || kind == KIND_WHILE) ==> at < ops@.len() && (ops@[at as int] is Branch || ops@[at as int] is BranchIf0)
                    &&& kind == KIND_BEGIN ==> at <= ops@.len()
                },
            ensures
                until_semi ==> *i == first_semi(ts, i0) + 1,
                target == (if ctrl@.len() == 0 {
                    Some((finished((code_view(ops@), names_view(locals@), ctrl@)), *i as int))
                } else {
                    None
                }),
            decreases toks@.len() - *i,
        {
            let ghost lv = names_view(locals@);
            let ghost cv = ctrl@;
            let ghost ov = code_view(ops@);
            if *i >= toks.len() {
                if until_semi {
                    return Err("missing ;".to_owned());
                }
                break;
            }
            let t = str_chars(toks[*i].1.as_str());
            let ghost at = *i as int;
            proof {
                assert(ts[*i as int].1 == t@);
            }
            *i = *i + 1;
            if is_word(&t, ";") {
                if until_semi {
                    break;
                }
                return Err("; outside definition".to_owned());
            }
            proof {
                assert(body_from(dict, ts, at, (ov, lv, cv), until_semi) == match body_step(dict, t@, (ov, lv, cv)) {
                    None => None,
                    Some(st2) => body_from(dict, ts, at + 1, st2, until_semi),
                });
            }
            if is_word(&t, ":") {
                return Err(": inside definition".to_owned());
            } else if is_word(&t, "if") {
                ctrl.push((KIND_IF, ops.len()));
                ops.push(Op::BranchIf0(0));
                proof {
                    assert(code_view(ops@) =~= ov.push(Instr::BranchIf0(0)));
                }
            } else if is_word(&t, "else") {
                match ctrl.pop() {
                    Some((k, p)) => {
                        if k != KIND_IF {
                            return Err("else without if".to_owned());
                        }
                        ctrl.push((KIND_IF, ops.len()));
                        ops.push(Op::Branch(0));
                        proof {
                            assert(code_view(ops@) =~= ov.push(Instr::Branch(0)));
                        }
                        let here = ops.len();
                        Self::patch(&mut ops, p, here);
                        proof {
                            assert(ctrl@ =~= cv.drop_last().push((KIND_IF, ov.len() as usize)));
                        }
                    },
                    None => {
                        return Err("else without if".to_owned());
                    },
                }
            } else if is_word(&t, "then") {
                match ctrl.pop() {
                    Some((k, p)) => {
                        if k != KIND_IF {
                            return Err("then without if".to_owned());
                        }
                        let here = ops.len();
                        Self::patch(&mut ops, p, here);
                    },
                    None => {
                        return Err("then without if".to_owned());
                    },
                }
            } else if is_word(&t, "begin") {
                ctrl.push((KIND_BEGIN, ops.len()));
            } else if is_word(&t, "until") {
                match ctrl.pop() {
                    Some((k, p)) => {
                        if k != KIND_BEGIN {
                            return Err("until without begin".to_owned());
                        }
                        ops.push(Op::BranchIf0(p));
                        proof {
                            assert(code_view(ops@) =~= ov.push(Instr::BranchIf0(p)));
                        }
                    },
                    None => {
                        return Err("until without begin".to_owned());
                    },
                }
            } else if is_word(&t, "while") {
                let n = ctrl.len();
                if n == 0 || ctrl[n - 1].0 != KIND_BEGIN {
                    return Err("while without begin".to_owned());
                }
                ctrl.push((KIND_WHILE, ops.len()));
                ops.push(Op::BranchIf0(0));
                proof {
                    assert(code_view(ops@) =~= ov.push(Instr::BranchIf0(0)));
                }
            } else if is_word(&t, "repeat") {
                let w = ctrl.pop();
                let b = ctrl.pop();
                match (w, b) {
                    (Some((kw, p)), Some((kb, bp))) => {
                        if kw != KIND_WHILE || kb != KIND_BEGIN {
                            return Err("repeat without begin while".to_owned());
                        }
                        ops.push(Op::Branch(bp));
                        proof {
                            assert(code_view(ops@) =~= ov.push(Instr::Branch(bp)));
                        }
                        let here = ops.len();
                        Self::patch(&mut ops, p, here);
                        proof {
                            assert(ctrl@ =~= cv.drop_last().drop_last());
                        }
                    },
                    _ => {
                        return Err("repeat without begin while".to_owned());
                    },
                }
            } else if t.len() >= 2 && t[0] == '"' && t[t.len() - 1] == '"' {
                let lit = chars_string(&t, 1, t.len() - 1);
                ops.push(Op::Lit(Value::Str(lit)));
                proof {
                    assert(code_view(ops@) =~= ov.push(Instr::Lit(LitV::Str(t@.subrange(1, t@.len() - 1)))));
                }
            } else if t.len() >= 2 && t[0] == '>' && prim_index(&t).is_none() {
                let name = chars_sub(&t, 1, t.len());
                proof {
                    lv.index_of_first_ensures(name@);
                }
                let idx = match position(&locals, &name) {
                    Some(k) => {
                        proof {
                            assert(lv[k as int] == name@);
                            assert forall|j: int| 0 <= j < k implies lv[j] != name@ by {
                                assert(lv[j] == locals@[j]@);
                            }
                            assert(lv.index_of_first(name@) == Some(k as int));
                        }
                        k
                    },
                    None => {
                        proof {
                            assert(!lv.contains(name@)) by {
                                assert forall|j: int| 0 <= j < lv.len() implies lv[j] != name@ by {
                                    assert(lv[j] == locals@[j]@);
                                }
                            }
                        }
                        locals.push(name);
                        proof {
                            assert(names_view(locals@) =~= lv.push(name@));
                        }
                        locals.len() - 1
                    },
                };
                ops.push(Op::LocalSet(idx));
                proof {
                    assert(code_view(ops@) =~= ov.push(Instr::LocalSet(idx)));
                }
            } else {
                proof {
                    lv.index_of_first_ensures(t@);
                    dict.index_of_last_ensures(t@);
                }
                if let Some(li) = position(&locals, &t) {
                    proof {
                        assert(lv[li as int] == t@);
                        assert forall|j: int| 0 <= j < li implies lv[j] != t@ by {
                            assert(lv[j] == locals@[j]@);
                        }
                        assert(lv.index_of_first(t@) == Some(li as int));
                    }
                    ops.push(Op::LocalGet(li));
                    proof {
                        assert(code_view(ops@) =~= ov.push(Instr::LocalGet(li)));
                    }
                } else {
                    proof {
                        assert(!lv.contains(t@)) by {
                            assert forall|j: int| 0 <= j < lv.len() implies lv[j] != t@ by {
                                assert(lv[j] == locals@[j]@);
                            }
                        }
                    }
                    if let Some(wi) = self.rposition(&t) {
                        proof {
                            assert(dict[wi as int] == t@);
                            assert forall|j: int| wi < j < dict.len() implies dict[j] != t@ by {
                                assert(dict[j] == self.words@[j].name@);
                            }
                            assert(dict.index_of_last(t@) == Some(wi as int));
                        }
                        ops.push(Op::Call(wi));
                        proof {
                            assert(code_view(ops@) =~= ov.push(Instr::Call(wi)));
                        }
                    } else {
                        proof {
                            assert(!dict.contains(t@)) by {
                                assert forall|j: int| 0 <= j < dict.len() implies dict[j] != t@ by {
                                    assert(dict[j] == self.words@[j].name@);
                                }
                            }
                        }
                        if let Some(pi) = prim_index(&t) {
                            ops.push(Op::Prim(pi));
                            proof {
                                assert(code_view(ops@) =~= ov.push(Instr::Prim(pi)));
                            }
                        } else {
                            let bytes = str_bytes(toks[*i - 1].1.as_str());
                            match parse_int(bytes.as_slice()) {
                                Some(n) => {
                                    ops.push(Op::Lit(Value::Int(n)));
                                    proof {
                                        assert(code_view(ops@) =~= ov.push(Instr::Lit(LitV::Int(n))));
                                    }
                                },
                                None => {
                                    return Err(join2("unknown word: ", toks[*i - 1].1.as_str()));
                                },
                            }
                        }
                    }
                }
            }
        }
        if ctrl.len() > 0 {
            return Err("unbalanced control flow".to_owned());
        }
        let ghost st = (code_view(ops@), names_view(locals@), ctrl@);
        ops.set(0, Op::Enter(locals.len()));
        ops.push(Op::Leave);
        ops.push(Op::Ret);
        proof {
            assert(code_view(ops@) =~= finished(st));
        }
        assert(ops@.len() == ops.len());
        Ok(ops)
    }

    /// The newest word named `t`.
    fn rposition(&self, t: &Vec<char>) -> (r: Option<usize>)
        ensures
            r matches Some(k) ==> k < self.words@.len() && self.words@[k as int].name@ == t@
                && forall|j: int| k < j < self.words@.len() ==> self.words@[j].name@ != t@,
            r is None ==> forall|j: int| 0 <= j < self.words@.len() ==> self.words@[j].name@ != t@,
    {
        let mut k = self.words.len();
        while k > 0
            invariant
                k <= self.words@.len(),
                forall|j: int| k <= j < self.words@.len() ==> self.words@[j].name@ != t@,
            decreases k,
        {
            if chars_eq(&self.words[k - 1].name, t) {
                return Some(k - 1);
            }
            k = k - 1;
        }
        None
    }

    /// Runs compiled code until its final return.
    #[verifier::rlimit(100)]
    #[verifier::spinoff_prover]
    fn exec<H: Host>(&mut self, entry: Vec<Op>, host: &mut H) -> (r: Result<(), String>)
        requires
            old(host).kept(),
            old(self).wf(),
            ops_ok(entry@, old(self).words@.len() as int),
        ensures
            final(host).kept(),
            final(host).anchor() == old(host).anchor(),
            final(self).wf(),
            final(self).words == old(self).words,
            r is Ok ==> vm_runs(old(self).words@, entry@, old(self).stack@, final(self).stack@),
            r is Ok ==> runs_end_like(old(self).words@, entry@, old(self).stack@, final(self).stack@),
            r is Err ==> no_run_from(old(self).words@, entry@, old(self).stack@),
    {
        let ghost words0 = self.words;
        let ghost ws = self.words@;
        let ghost code0 = entry@;
        let ghost s0 = self.stack@;
        let ghost m0 = machine_start(self.stack@);
        let mut locals: Vec<Value> = Vec::new();
        let mut bases: Vec<usize> = Vec::new();
        let mut rstack: Vec<(Option<usize>, usize)> = Vec::new();
        let mut wi: Option<usize> = None;
        let mut ip: usize = 0;
        let mut steps: u32 = 0;
        let ghost mut tr: Seq<Machine> = seq![m0];
        proof {
            let m = Machine { wi, ip, rstack: rstack@, locals: locals@, bases: bases@, stack: self.stack@ };
            assert(m == m0);
            assert forall|ws2: Seq<Word>, e2: Seq<Op>, s2: Seq<Value>, tr2: Seq<Machine>|
                #![trigger runs_from(ws2, e2, s2, tr2), words_eq(ws2, ws)]
                words_eq(ws2, ws) && code_view(e2) == code_view(code0) && values_eq(s2, s0) && runs_from(ws2, e2, s2, tr2)
                    implies 0 < tr2.len() && mach_eq(tr2[0], m0) by {
                assert(values_eq(Seq::<Value>::empty(), Seq::<Value>::empty()));
            }
            assert(tracks(ws, code0, s0, m0, 0));
        }
        loop
            invariant
                host.kept(),
                host.anchor() == old(host).anchor(),
                self.wf(),
                self.words == words0,
                words0 == old(self).words,
                ws == words0@,
                code0 == entry@,
                s0 == old(self).stack@,
                m0 == machine_start(old(self).stack@),
                ops_ok(entry@, self.words@.len() as int),
                wi matches Some(w) ==> w < self.words@.len() && ip < self.words@[w as int].ops@.len(),
                wi is None ==> ip < entry@.len(),
                forall|j: int| 0 <= j < rstack@.len() ==> {
                    let (w, p) = #[trigger] rstack@[j];
                    &&& w matches Some(w) ==> w < self.words@.len() && p < self.words@[w as int].ops@.len()
                    &&& w is None ==> p < entry@.len()
                },
                rstack@.len() <= CALL_MAX,
                locals@.len() <= LOCALS_MAX,
                forall|j: int| 0 <= j < bases@.len() ==> #[trigger] bases@[j] <= locals@.len(),
                forall|j: int, k: int| 0 <= j <= k < bases@.len() ==> bases@[j] <= bases@[k],
                steps <= STEP_BUDGET,
                tr.len() == steps + 1,
                tr[0] == m0,
                tr.last() == (Machine { wi, ip, rstack: rstack@, locals: locals@, bases: bases@, stack: self.stack@ }),
                vm_trace(ws, code0, tr),
                tracks(
                    ws,
                    code0,
                    s0,
                    Machine { wi, ip, rstack: rstack@, locals: locals@, bases: bases@, stack: self.stack@ },
                    steps as nat,
                ),
            decreases STEP_BUDGET - steps,
        {
            let ghost cur = Machine { wi, ip, rstack: rstack@, locals: locals@, bases: bases@, stack: self.stack@ };
            let ghost k0 = steps as nat;
            steps = steps + 1;
            if steps > STEP_BUDGET {
                proof {
                    lemma_track_budget(ws, code0, s0, cur, k0);
                }
                return Err("step budget exceeded".to_owned());
            }
            let ghost code = match wi {
                Some(w) => self.words@[w as int].ops@,
                None => entry@,
            };
            let op = match wi {
                Some(w) => copy_op(&self.words[w].ops[ip]),
                None => copy_op(&entry[ip]),
            };
            proof {
                assert(code == code_of(ws, code0, wi));
                assert(op == code[ip as int]);
                assert(op_at(ws, code0, cur) == op);
                assert(at_code(ws, code0, cur));
                assert(op_ok(code[ip as int], code.len() as int, self.words@.len() as int));
                if ip + 1 == code.len() {
                    assert(op is Ret);
                }
                if bases@.len() > 0 {
                    assert(bases@.last() == bases@[bases@.len() - 1]);
                }
            }
            ip = ip + 1;
            match op {
                Op::Lit(v) => {
                    if let Err(e) = self.push(v) {
                        proof {
                            lemma_track_stuck(ws, code0, s0, cur, k0);
                        }
                        return Err(e);
                    }
                },
                Op::Prim(p) => {
                    if let Err(e) = self.prim(p, host) {
                        proof {
                            lemma_track_stuck(ws, code0, s0, cur, k0);
                        }
                        return Err(e);
                    }
                },
                Op::Call(w) => {
                    if rstack.len() >= CALL_MAX {
                        proof {
                            lemma_track_stuck(ws, code0, s0, cur, k0);
                        }
                        return Err("call depth exceeded".to_owned());
                    }
                    rstack.push((wi, ip));
                    wi = Some(w);
                    ip = 0;
                },
                Op::Enter(n) => {
                    if n > LOCALS_MAX - locals.len() {
                        proof {
                            lemma_track_stuck(ws, code0, s0, cur, k0);
                        }
                        return Err("locals overflow".to_owned());
                    }
                    let ghost l0 = locals@;
                    bases.push(locals.len());
                    let target = locals.len() + n;
                    proof {
                        assert(l0 + zeros(0) =~= l0);
                    }
                    while locals.len() < target
                        invariant
                            l0.len() <= locals@.len() <= target <= LOCALS_MAX,
                            target == l0.len() + n,
                            locals@ == l0 + zeros((locals@.len() - l0.len()) as nat),
                            forall|j: int| 0 <= j < bases@.len() ==> #[trigger] bases@[j] <= locals@.len(),
                        decreases target - locals@.len(),
                    {
                        locals.push(Value::Int(0));
                        proof {
                            assert(locals@ =~= l0 + zeros((locals@.len() - l0.len()) as nat));
                        }
                    }
                },
                Op::Leave => {
                    match bases.pop() {
                        Some(b) => {
                            locals.truncate(b);
                        },
                        None => {
                            proof {
                                lemma_track_stuck(ws, code0, s0, cur, k0);
                            }
                            return Err("frame underflow".to_owned());
                        },
                    }
                },
                Op::LocalGet(idx) => {
                    let nb = bases.len();
                    if nb == 0 {
                        proof {
                            lemma_track_stuck(ws, code0, s0, cur, k0);
                        }
                        return Err("no frame".to_owned());
                    }
                    let b = bases[nb - 1];
                    if idx >= locals.len() - b {
                        proof {
                            lemma_track_stuck(ws, code0, s0, cur, k0);
                        }
                        return Err("bad local".to_owned());
                    }
                    let v = copy_value(&locals[b + idx]);
                    if let Err(e) = self.push(v) {
                        proof {
                            lemma_track_stuck(ws, code0, s0, cur, k0);
                        }
                        return Err(e);
                    }
                },
                Op::LocalSet(idx) => {
                    let nb = bases.len();
                    if nb == 0 {
                        proof {
                            lemma_track_stuck(ws, code0, s0, cur, k0);
                        }
                        return Err("no frame".to_owned());
                    }
                    let b = bases[nb - 1];
                    let v = match self.pop() {
                        Ok(v) => v,
                        Err(e) => {
                            proof {
                                lemma_track_stuck(ws, code0, s0, cur, k0);
                            }
                            return Err(e);
                        },
                    };
                    if idx >= locals.len() - b {
                        proof {
                            lemma_track_stuck(ws, code0, s0, cur, k0);
                        }
                        return Err("bad local".to_owned());
                    }
                    locals.set(b + idx, v);
                },
                Op::Branch(t) => {
                    ip = t;
                },
                Op::BranchIf0(t) => {
                    let x = match self.pop_int() {
                        Ok(x) => x,
                        Err(e) => {
                            proof {
                                lemma_track_stuck(ws, code0, s0, cur, k0);
                            }
                            return Err(e);
                        },
                    };
                    if x == 0 {
                        ip = t;
                    }
                },
                Op::Ret => {
                    match rstack.pop() {
                        Some((w, p)) => {
                            wi = w;
                            ip = p;
                        },
                        None => {
                            proof {
                                assert(vm_halted(ws, code0, tr.last()));
                                assert(1 <= tr.len() <= STEP_BUDGET && tr[0] == machine_start(old(self).stack@));
                                lemma_track_halt(ws, code0, s0, cur, k0);
                            }
                            return Ok(());
                        },
                    }
                },
            }
            proof {
                let nxt = Machine { wi, ip, rstack: rstack@, locals: locals@, bases: bases@, stack: self.stack@ };
                assert(vm_step(ws, code0, cur, nxt));
                lemma_track_step(ws, code0, s0, cur, nxt, k0);
                let tr0 = tr;
                tr = tr.push(nxt);
                assert forall|i: int| 0 <= i < tr.len() - 1 implies #[trigger] vm_step(ws, code0, tr[i], tr[i + 1]) by {
                    if i < tr0.len() - 1 {
                        assert(tr[i] == tr0[i] && tr[i + 1] == tr0[i + 1]);
                    } else {
                        assert(tr[i] == cur && tr[i + 1] == nxt);
                    }
                }
            }
        }
    }

    /// Runs the pending immediate tokens.
    fn flush<H: Host>(&mut self, imm: &mut Vec<(usize, String)>, host: &mut H, defs_only: bool) -> (r: Result<(), String>)
        requires
            old(host).kept(),
            old(self).wf(),
        ensures
            final(host).kept(),
            final(host).anchor() == old(host).anchor(),
            final(self).wf(),
            final(self).words == old(self).words,
            final(imm)@.len() == 0,
            defs_only ==> final(self).stack@ == old(self).stack@,
            old(imm)@.len() == 0 ==> final(self).stack@ == old(self).stack@ && r is Ok,
            defs_only && old(imm)@.len() > 0 ==> r is Err,
            r is Ok ==> flush_runs(old(self).words@, toks_view(old(imm)@), old(self).stack@, final(self).stack@),
            r is Ok ==> flush_ends_like(old(self).words@, toks_view(old(imm)@), old(self).stack@, final(self).stack@),
            !defs_only && r is Err ==> no_flush_from(old(self).words@, toks_view(old(imm)@), old(self).stack@),
    {
        let ghost iv = toks_view(imm@);
        let ghost ws = self.words@;
        let ghost s0 = self.stack@;
        if imm.len() == 0 {
            proof {
                assert forall|ws2: Seq<Word>, s2: Seq<Value>, t2: Seq<Value>|
                    #![trigger flush_fixed(ws2, iv, s2, t2), words_eq(ws2, ws)]
                    words_eq(ws2, ws) && values_eq(s2, s0) && flush_fixed(ws2, iv, s2, t2) implies values_eq(t2, s0) by {
                }
            }
            return Ok(());
        }
        if defs_only {
            let r = Err(join2("only definitions allowed here: ", imm[0].1.as_str()));
            imm.clear();
            return r;
        }
        let mut toks: Vec<(usize, String)> = Vec::new();
        std::mem::swap(&mut toks, imm);
        let mut i: usize = 0;
        let ops = match self.compile(&toks, &mut i, false) {
            Ok(ops) => ops,
            Err(e) => {
                proof {
                    assert forall|ws2: Seq<Word>, s2: Seq<Value>, t: Seq<Value>|
                        #![trigger flush_fixed(ws2, iv, s2, t), words_eq(ws2, ws)]
                        words_eq(ws2, ws) && values_eq(s2, s0) implies !flush_fixed(ws2, iv, s2, t) by {
                        lemma_names_of_eq(ws2, ws);
                    }
                }
                return Err(e);
            },
        };
        let ghost c = ops@;
        let r = self.exec(ops, host);
        proof {
            lemma_names_of_eq(ws, ws);
            if r is Ok {
                assert(vm_runs(ws, c, old(self).stack@, self.stack@));
                assert forall|ws2: Seq<Word>, s2: Seq<Value>, t2: Seq<Value>|
                    #![trigger flush_fixed(ws2, iv, s2, t2), words_eq(ws2, ws)]
                    words_eq(ws2, ws) && values_eq(s2, s0) && flush_fixed(ws2, iv, s2, t2) implies values_eq(t2, self.stack@) by {
                    lemma_names_of_eq(ws2, ws);
                    let (c2, tr) = choose|c2: Seq<Op>, tr: Seq<Machine>|
                        #[trigger] runs_from(ws2, c2, s2, tr) && tr.last().stack == t2 && (body_from(
                            names_of(ws2),
                            iv,
                            0,
                            building_start(),
                            false,
                        ) matches Some((code, _)) && code == code_view(c2));
                    assert(runs_from(ws2, c2, s2, tr) && words_eq(ws2, ws));
                }
            } else {
                assert forall|ws2: Seq<Word>, s2: Seq<Value>, t: Seq<Value>|
                    #![trigger flush_fixed(ws2, iv, s2, t), words_eq(ws2, ws)]
                    words_eq(ws2, ws) && values_eq(s2, s0) implies !flush_fixed(ws2, iv, s2, t) by {
                    lemma_names_of_eq(ws2, ws);
                    if flush_fixed(ws2, iv, s2, t) {
                        let (c2, tr) = choose|c2: Seq<Op>, tr: Seq<Machine>|
                            #[trigger] runs_from(ws2, c2, s2, tr) && tr.last().stack == t && (body_from(
                                names_of(ws2),
                                iv,
                                0,
                                building_start(),
                                false,
                            ) matches Some((code, _)) && code == code_view(c2));
                        assert(runs_from(ws2, c2, s2, tr) && words_eq(ws2, ws));
                    }
                }
            }
        }
        r
    }

    /// Evaluates tokens: `: name … ;` defines a word, everything else runs.
    #[verifier::rlimit(100)]
    #[verifier::spinoff_prover]
    fn eval<H: Host>(&mut self, toks: &Vec<(usize, String)>, host: &mut H, defs_only: bool) -> (r: Result<(), String>)
        requires
            old(host).kept(),
            old(self).wf(),
        ensures
            final(host).kept(),
            final(host).anchor() == old(host).anchor(),
            final(self).wf(),
            old(self).words@.len() <= final(self).words@.len(),
            final(self).words@.take(old(self).words@.len() as int) == old(self).words@,
            defs_only ==> final(self).stack@ == old(self).stack@,
            r is Ok ==> new_names(old(self).words@, final(self).words@, defs_from(toks_view(toks@), 0)),
            defs_only ==> (r is Ok <==> defs_ok(old(self).dict(), toks_view(toks@), 0)),
            r is Ok ==> evaluates(toks_view(toks@), old(self).words@, old(self).stack@, final(self).words@, final(self).stack@),
            r is Ok ==> eval_ends_like(toks_view(toks@), old(self).words@, old(self).stack@, final(self).stack@),
            !defs_only && r is Err ==> !eval_fixed(toks_view(toks@), old(self).words@, old(self).stack@),
            exists|k: int|
                0 <= k <= defs_from(toks_view(toks@), 0).len() && #[trigger] new_names(
                    old(self).words@,
                    final(self).words@,
                    defs_from(toks_view(toks@), 0).take(k),
                ),
    {
        let ghost w0 = self.words@;
        let ghost d0 = self.dict();
        let ghost s0 = self.stack@;
        let ghost ts = toks_view(toks@);
        let ghost mut done: Seq<Seq<char>> = Seq::empty();
        let mut imm: Vec<(usize, String)> = Vec::new();
        let mut i: usize = 0;
        let ghost mut evs: Seq<Event> = Seq::empty();
        let ghost mut wss: Seq<Seq<Word>> = seq![self.words@];
        let ghost mut ss: Seq<Seq<Value>> = seq![self.stack@];
        proof {
            assert(done + defs_from(ts, 0) =~= defs_from(ts, 0));
            assert(toks_view(imm@) =~= Seq::<(int, Seq<char>)>::empty());
            assert(evs + events(ts, 0, Seq::empty()) =~= events(ts, 0, Seq::empty()));
            lemma_chain_start(ts, w0, s0);
        }
        while i < toks.len()
            invariant
                host.kept(),
                host.anchor() == old(host).anchor(),
                self.wf(),
                i <= toks@.len(),
                w0.len() <= self.words@.len(),
                self.words@.take(w0.len() as int) == w0,
                w0 == old(self).words@,
                s0 == old(self).stack@,
                defs_only ==> self.stack@ == s0,
                ts == toks_view(toks@),
                new_names(w0, self.words@, done),
                done + defs_from(ts, i as int) == defs_from(ts, 0),
                done.len() <= defs_from(ts, 0).len(),
                done == defs_from(ts, 0).take(done.len() as int),
                d0 == old(self).dict(),
                defs_only && imm@.len() == 0 ==> (defs_ok(d0, ts, 0) <==> defs_ok(self.dict(), ts, i as int)),
                defs_only && imm@.len() > 0 ==> !defs_ok(d0, ts, 0),
                evs + events(ts, i as int, toks_view(imm@)) == events(ts, 0, Seq::empty()),
                chain_ok(ts, evs, wss, ss),
                wss[0] == w0,
                ss[0] == s0,
                wss.last() == self.words@,
                ss.last() == self.stack@,
                chain_at(ts, w0, s0, evs.len() as int, self.words@, self.stack@),
            decreases toks@.len() - i,
        {
            let t = str_chars(toks[i].1.as_str());
            proof {
                assert(ts[i as int].1 == t@);
            }
            if is_word(&t, ":") {
                let ghost at = i as int;
                let ghost iv = toks_view(imm@);
                let ghost wpre = self.words@;
                let ghost spre = self.stack@;
                let ghost k = evs.len() as int;
                let ghost ev0 = events(ts, 0, Seq::empty());
                proof {
                    assert(events(ts, at, iv) == seq![Event::Flush(iv), Event::Define(at)] + events(ts, first_semi(ts, at + 2) + 1, Seq::empty())
                        || at + 1 >= ts.len());
                    assert(ev0[k] == events(ts, at, iv)[0]);
                    assert(ev0[k + 1] == events(ts, at, iv)[1]);
                }
                match self.flush(&mut imm, host, defs_only) {
                    Ok(()) => {},
                    Err(e) => {
                        proof {
                            if !defs_only {
                                lemma_chain_flush_fails(ts, w0, s0, k, wpre, spre, iv);
                            }
                        }
                        return Err(e);
                    },
                }
                proof {
                    lemma_chain_flush(ts, w0, s0, k, wpre, spre, self.stack@, iv);
                    lemma_chain_push(ts, evs, wss, ss, Event::Flush(iv), self.words@, self.stack@);
                    evs = evs.push(Event::Flush(iv));
                    wss = wss.push(self.words@);
                    ss = ss.push(self.stack@);
                }
                i = i + 1;
                if i >= toks.len() {
                    proof {
                        lemma_chain_define_fails(ts, w0, s0, k + 1, self.words@, self.stack@, at);
                    }
                    return Err(": missing name".to_owned());
                }
                let name = str_chars(toks[i].1.as_str());
                proof {
                    assert(ts[i as int].1 == name@);
                }
                if is_word(&name, ";") || is_word(&name, ":") {
                    proof {
                        lemma_chain_define_fails(ts, w0, s0, k + 1, self.words@, self.stack@, at);
                    }
                    return Err(": missing name".to_owned());
                }
                i = i + 1;
                let ghost dict_before = self.dict();
                let ops = match self.compile(toks, &mut i, true) {
                    Ok(ops) => ops,
                    Err(e) => {
                        proof {
                            lemma_chain_define_fails(ts, w0, s0, k + 1, self.words@, self.stack@, at);
                        }
                        return Err(e);
                    },
                };
                let ghost before = self.words@;
                let ghost nm = name@;
                let ghost cops = ops@;
                self.words.push(Word { name, ops });
                proof {
                    assert(self.dict() =~= dict_before.push(nm));
                    assert(self.words@.drop_last() =~= before);
                    assert(self.words@.last().ops@ == cops);
                    assert(ev_step(ts, Event::Define(at), wss.last(), ss.last(), self.words@, self.stack@));
                    lemma_chain_push(ts, evs, wss, ss, Event::Define(at), self.words@, self.stack@);
                    assert(toks_view(imm@) =~= Seq::<(int, Seq<char>)>::empty());
                    assert(events(ts, at, iv) == seq![Event::Flush(iv), Event::Define(at)] + events(ts, i as int, Seq::empty()));
                    assert(evs.push(Event::Define(at)) + events(ts, i as int, toks_view(imm@)) =~= evs.drop_last() + events(ts, at, iv));
                    lemma_chain_define(ts, w0, s0, k + 1, before, self.stack@, self.words@, at);
                    evs = evs.push(Event::Define(at));
                    wss = wss.push(self.words@);
                    ss = ss.push(self.stack@);
                }
                proof {
                    let ws = self.words@;
                    assert forall|k: int| 0 <= k < ws.len() implies ops_ok(#[trigger] ws[k].ops@, ws.len() as int) by {
                        if k < before.len() {
                            assert(ws[k] == before[k]);
                            assert(ops_ok(before[k].ops@, before.len() as int));
                        }
                    }
                    assert(ws.take(w0.len() as int) =~= before.take(w0.len() as int));
                    assert(defs_from(ts, at) == seq![nm] + defs_from(ts, i as int));
                    assert(done + defs_from(ts, at) =~= done.push(nm) + defs_from(ts, i as int));
                    done = done.push(nm);
                    assert(ws[ws.len() - 1].name@ == nm);
                }
            } else {
                proof {
                    assert(defs_from(ts, i as int) == defs_from(ts, i + 1));
                }
                let ghost iv = toks_view(imm@);
                imm.push((toks[i].0, toks[i].1.clone()));
                proof {
                    assert(toks_view(imm@) =~= iv.push(ts[i as int]));
                    assert(events(ts, i as int, iv) == events(ts, i + 1, iv.push(ts[i as int])));
                }
                i = i + 1;
            }
        }
        proof {
            assert(done =~= done + defs_from(ts, i as int));
        }
        let ghost iv = toks_view(imm@);
        let ghost wpre = self.words@;
        let ghost spre = self.stack@;
        let ghost k = evs.len() as int;
        proof {
            assert(events(ts, i as int, iv) == seq![Event::Flush(iv)]);
            assert(events(ts, 0, Seq::empty())[k] == Event::Flush(iv));
            assert(evs.push(Event::Flush(iv)) =~= events(ts, 0, Seq::empty()));
        }
        let r = self.flush(&mut imm, host, defs_only);
        proof {
            if r is Err && !defs_only {
                lemma_chain_flush_fails(ts, w0, s0, k, wpre, spre, iv);
            }
            if r is Ok {
                lemma_chain_flush(ts, w0, s0, k, wpre, spre, self.stack@, iv);
                lemma_chain_end(ts, w0, s0, self.words@, self.stack@);
                lemma_chain_push(ts, evs, wss, ss, Event::Flush(iv), self.words@, self.stack@);
                assert(events(ts, i as int, iv) == seq![Event::Flush(iv)]);
                assert(evs.push(Event::Flush(iv)) =~= events(ts, 0, Seq::empty()));
                let wss2 = wss.push(self.words@);
                let ss2 = ss.push(self.stack@);
                assert(chain_ok(ts, events(ts, 0, Seq::empty()), wss2, ss2));
                assert(wss2[0] == w0 && ss2[0] == s0);
            }
        }
        r
    }

    /// Evaluates `src` against `host`. On error the data stack is as it was before;
    /// definitions made before the error stay. It succeeds whenever `src` has an
    /// evaluation that reads nothing from the editor, and every such evaluation then
    /// ends with the stack it leaves.
    pub fn run<H: Host>(&mut self, src: &str, host: &mut H) -> (r: Result<(), String>)
        requires
            old(host).kept(),
            old(self).wf(),
        ensures
            final(host).kept(),
            final(host).anchor() == old(host).anchor(),
            final(self).wf(),
            r is Err ==> final(self).stack_spec() == old(self).stack_spec(),
            lex_spec(src@, 0) is None ==> r is Err && final(self).dict() == old(self).dict(),
            old(self).dict().len() <= final(self).dict().len(),
            final(self).dict().take(old(self).dict().len() as int) == old(self).dict(),
            r is Ok ==> final(self).dict() == old(self).dict() + defined_names(src@),
            r is Ok ==> old(self).evaluates_to(src@, *final(self)),
            r is Ok ==> old(self).ends_like(src@, *final(self)),
            old(self).evaluates_without_reads(src@) ==> r is Ok,
            lex_spec(src@, 0) is None ==> (r matches Err(e) && e@ == "unterminated string"@),
            exists|k: int|
                0 <= k <= defined_names(src@).len() && final(self).dict() == old(self).dict() + #[trigger] defined_names(
                    src@,
                ).take(k),
    {
        let toks = match lex(src) {
            Ok(t) => t,
            Err(e) => {
                proof {
                    assert(self.dict() =~= old(self).dict() + defined_names(src@).take(0));
                }
                return Err(e);
            },
        };
        let saved = copy_values(&self.stack);
        let ghost w0 = self.words@;
        let r = self.eval(&toks, host, false);
        if r.is_err() {
            self.stack = saved;
        }
        proof {
            self.lemma_dict_prefix(w0);
            if r is Ok {
                self.lemma_dict_extend(w0, defs_from(toks_view(toks@), 0));
                assert(defined_names(src@).take(defined_names(src@).len() as int) =~= defined_names(src@));
            }
            let ds = defs_from(toks_view(toks@), 0);
            let k = choose|k: int| 0 <= k <= ds.len() && #[trigger] new_names(w0, self.words@, ds.take(k));
            self.lemma_dict_extend(w0, ds.take(k));
            assert(defined_names(src@) == ds);
        }
        r
    }

    /// Evaluates `src` in definitions-only mode: it may define words, nothing in it
    /// runs, and the data stack is never touched.
    pub fn load(&mut self, src: &str) -> (r: Result<(), String>)
        requires
            old(self).wf(),
        ensures
            final(self).wf(),
            final(self).stack_spec() == old(self).stack_spec(),
            lex_spec(src@, 0) is None ==> r is Err && final(self).dict() == old(self).dict(),
            old(self).dict().len() <= final(self).dict().len(),
            final(self).dict().take(old(self).dict().len() as int) == old(self).dict(),
            r is Ok ==> final(self).dict() == old(self).dict() + defined_names(src@),
            r is Ok <==> (lex_spec(src@, 0) matches Some(ts) && defs_ok(old(self).dict(), ts, 0)),
            r is Ok ==> old(self).evaluates_to(src@, *final(self)),
    {
        let toks = match lex(src) {
            Ok(t) => t,
            Err(e) => return Err(e),
        };
        let ghost w0 = self.words@;
        let mut none = NoHost;
        let r = self.eval(&toks, &mut none, true);
        proof {
            self.lemma_dict_prefix(w0);
            if r is Ok {
                self.lemma_dict_extend(w0, defs_from(toks_view(toks@), 0));
            }
        }
        r
    }

    proof fn lemma_dict_extend(&self, w0: Seq<Word>, names: Seq<Seq<char>>)
        requires
            w0.len() <= self.words@.len(),
            self.words@.take(w0.len() as int) == w0,
            new_names(w0, self.words@, names),
        ensures
            self.dict() == w0.map_values(|w: Word| w.name@) + names,
    {
        let d = w0.map_values(|w: Word| w.name@) + names;
        assert forall|k: int| 0 <= k < self.dict().len() implies self.dict()[k] == d[k] by {
            if k < w0.len() {
                assert(self.words@[k] == w0[k]);
            } else {
                assert(self.words@[w0.len() + (k - w0.len())].name@ == names[k - w0.len()]);
            }
        }
        assert(self.dict() =~= d);
    }

    proof fn lemma_dict_prefix(&self, w0: Seq<Word>)
        requires
            w0.len() <= self.words@.len(),
            self.words@.take(w0.len() as int) == w0,
        ensures
            w0.map_values(|w: Word| w.name@).len() <= self.dict().len(),
            self.dict().take(w0.len() as int) == w0.map_values(|w: Word| w.name@),
    {
        assert(self.dict().take(w0.len() as int) =~= w0.map_values(|w: Word| w.name@)) by {
            assert forall|k: int| 0 <= k < w0.len() implies self.dict().take(w0.len() as int)[k] == w0.map_values(|w: Word| w.name@)[k] by {
                assert(self.words@[k] == w0[k]);
            }
        }
    }

    /// The stack as the echo area shows it: `ok (`, then ` …` when more than eight
    /// values are on it, then the top eight values, then ` )`.
    pub fn show(&self) -> (r: String)
        ensures
            r@ == show_spec(self.stack_spec()),
    {
        let n = self.stack.len();
        let start: usize = if n > 8 { n - 8 } else { 0 };
        let mut v: Vec<u8> = Vec::new();
        push_str(&mut v, "ok (");
        let ghost mut cs: Seq<char> = "ok ("@;
        if start > 0 {
            push_str(&mut v, " …");
            proof {
                lemma_encode_concat(cs, " …"@);
                cs = cs + " …"@;
            }
        }
        let ghost head = cs;
        let mut i = start;
        proof {
            lemma_encode_concat("ok ("@, " …"@);
            assert(self.stack@.subrange(start as int, start as int) =~= Seq::<Value>::empty());
            assert(head + show_items(self.stack@.subrange(start as int, start as int)) =~= head);
        }
        while i < n
            invariant
                n == self.stack@.len(),
                start <= i <= n,
                v@ == encode_utf8(head + show_items(self.stack@.subrange(start as int, i as int))),
            decreases n - i,
        {
            let ghost items = show_items(self.stack@.subrange(start as int, i as int));
            push_char(&mut v, ' ');
            push_repr(&mut v, &self.stack[i]);
            proof {
                let sub = self.stack@.subrange(start as int, i + 1);
                assert(sub.drop_last() =~= self.stack@.subrange(start as int, i as int));
                assert(show_items(sub) == items + seq![' '] + value_repr(self.stack@[i as int]));
                lemma_encode_single(' ');
                lemma_encode_concat(head + items, seq![' ']);
                lemma_encode_concat(head + items + seq![' '], value_repr(self.stack@[i as int]));
                assert(head + show_items(sub) =~= head + items + seq![' '] + value_repr(self.stack@[i as int]));
            }
            i = i + 1;
        }
        push_str(&mut v, " )");
        proof {
            let body = head + show_items(self.stack@.subrange(start as int, n as int));
            lemma_encode_concat(body, " )"@);
            assert(self.stack@.subrange(start as int, n as int) =~= self.stack@.skip(start as int));
            assert(body + " )"@ =~= show_spec(self.stack@));
            encode_utf8_valid_utf8(show_spec(self.stack@));
            encode_utf8_decode_utf8(show_spec(self.stack@));
        }
        bytes_to_string(v)
    }

    /// Runs primitive `p`, the editor words through `host`.
    fn prim<H: Host>(&mut self, p: usize, host: &mut H) -> (r: Result<(), String>)
        requires
            old(host).kept(),
            old(self).wf(),
            p < PRIM_COUNT,
        ensures
            final(host).kept(),
            final(host).anchor() == old(host).anchor(),
            final(self).wf(),
            final(self).words == old(self).words,
            r is Ok <==> prim_ok(p as int, old(self).stack@),
            r is Ok ==> prim_effect(p as int, old(self).stack@, final(self).stack@),
            old(host).modeled() ==> final(host).modeled(),
            old(host).modeled() && r is Ok ==> host_effect(p as int, old(self).stack@, final(self).stack@, *old(host), *final(host)),
            old(host).modeled() && r is Err ==> host_same(*old(host), *final(host)),
    {
        if p <= 4 || (8 <= p && p <= 13) {
            self.prim_arith(p)
        } else if p < 19 {
            self.prim_stack(p)
        } else if p < 24 {
            self.prim_text(p, host)
        } else {
            self.prim_host(p, host)
        }
    }

    /// The integer arithmetic, comparison and logic primitives.
    #[verifier::rlimit(60)]
    fn prim_arith(&mut self, p: usize) -> (r: Result<(), String>)
        requires
            old(self).wf(),
            p <= 4 || (8 <= p && p <= 13),
        ensures
            final(self).wf(),
            final(self).words == old(self).words,
            r is Ok <==> prim_ok(p as int, old(self).stack@),
            r is Ok ==> prim_effect(p as int, old(self).stack@, final(self).stack@),
    {
        if p == 0 {
            let (a, b) = self.pop2()?;
            self.push(Value::Int(a.wrapping_add(b)))
        } else if p == 1 {
            let (a, b) = self.pop2()?;
            self.push(Value::Int(a.wrapping_sub(b)))
        } else if p == 2 {
            let (a, b) = self.pop2()?;
            self.push(Value::Int(a.wrapping_mul(b)))
        } else if p == 3 {
            let (a, b) = self.pop2()?;
            if b == 0 {
                return Err("division by zero".to_owned());
            }
            self.push(Value::Int(wrapping_div(a, b)))
        } else if p == 4 {
            let (a, b) = self.pop2()?;
            if b == 0 {
                return Err("division by zero".to_owned());
            }
            self.push(Value::Int(wrapping_rem(a, b)))
        } else if p == 8 || p == 9 || p == 10 || p == 11 {
            let (a, b) = self.pop2()?;
            let t = if p == 8 {
                a < b
            } else if p == 9 {
                a > b
            } else if p == 10 {
                a <= b
            } else {
                a >= b
            };
            self.push(Value::Int(if t { 1 } else { 0 }))
        } else {
            let (a, b) = self.pop2()?;
            let t = if p == 12 { a != 0 && b != 0 } else { a != 0 || b != 0 };
            self.push(Value::Int(if t { 1 } else { 0 }))
        }
    }

    /// `negate`, `=`, `<>`, `not` and the stack-shuffling primitives.
    #[verifier::rlimit(60)]
    fn prim_stack(&mut self, p: usize) -> (r: Result<(), String>)
        requires
            old(self).wf(),
            5 <= p < 19 && !(8 <= p && p <= 13),
        ensures
            final(self).wf(),
            final(self).words == old(self).words,
            r is Ok <==> prim_ok(p as int, old(self).stack@),
            r is Ok ==> prim_effect(p as int, old(self).stack@, final(self).stack@),
    {
        if p == 5 {
            let a = self.pop_int()?;
            self.push(Value::Int(wrapping_neg(a)))
        } else if p == 6 || p == 7 {
            let b = self.pop()?;
            let a = self.pop()?;
            let eq = value_eq(&a, &b);
            let t: i64 = if (p == 6) == eq { 1 } else { 0 };
            self.push(Value::Int(t))
        } else if p == 14 {
            let a = self.pop_int()?;
            self.push(Value::Int(if a == 0 { 1 } else { 0 }))
        } else if p == 15 {
            let n = self.stack.len();
            if n == 0 {
                return Err("stack underflow".to_owned());
            }
            let v = copy_value(&self.stack[n - 1]);
            self.push(v)
        } else if p == 16 {
            self.pop()?;
            Ok(())
        } else if p == 17 {
            let b = self.pop()?;
            let a = self.pop()?;
            self.push(b)?;
            self.push(a)
        } else {
            let n = self.stack.len();
            if n < 2 {
                return Err("stack underflow".to_owned());
            }
            let v = copy_value(&self.stack[n - 2]);
            self.push(v)
        }
    }

    /// `.` and the string primitives.
    #[verifier::rlimit(60)]
    fn prim_text<H: Host>(&mut self, p: usize, host: &mut H) -> (r: Result<(), String>)
        requires
            old(host).kept(),
            old(self).wf(),
            19 <= p < 24,
        ensures
            final(host).kept(),
            final(host).anchor() == old(host).anchor(),
            final(self).wf(),
            final(self).words == old(self).words,
            r is Ok <==> prim_ok(p as int, old(self).stack@),
            r is Ok ==> prim_effect(p as int, old(self).stack@, final(self).stack@),
            old(host).modeled() ==> final(host).modeled(),
            old(host).modeled() && r is Ok ==> host_effect(p as int, old(self).stack@, final(self).stack@, *old(host), *final(host)),
            old(host).modeled() && r is Err ==> host_same(*old(host), *final(host)),
    {
        if p == 19 {
            let v = self.pop()?;
            let t = v.text();
            proof {
                encode_utf8_decode_utf8(t@);
            }
            host.message(t.as_str());
            Ok(())
        } else if p == 20 {
            let v = self.pop()?;
            let t = v.text();
            proof {
                encode_utf8_decode_utf8(t@);
            }
            let ghost s1 = self.stack@;
            let r = self.push(Value::Str(t));
            proof {
                lemma_push_drop(s1, self.stack@.last());
            }
            r
        } else if p == 21 {
            let s = self.pop_str()?;
            let cs = str_chars(s.as_str());
            let (a, b) = trim_chars(&cs);
            proof {
                lemma_trimmed(cs@, a as int, b as int);
            }
            let mid = chars_string(&cs, a, b);
            let bytes = str_bytes(mid.as_str());
            match parse_int(bytes.as_slice()) {
                Some(n) => self.push(Value::Int(n)),
                None => Err(join3("not a number: \"", s.as_str(), "\"")),
            }
        } else if p == 22 {
            let s = self.pop_str()?;
            let n = str_bytes(s.as_str()).len();
            self.push(Value::Int(n as i64))
        } else {
            let b = self.pop_str()?;
            let a = self.pop_str()?;
            let ghost s2 = self.stack@;
            let r = self.push(Value::Str(join2(a.as_str(), b.as_str())));
            proof {
                lemma_push_drop(s2, self.stack@.last());
            }
            r
        }
    }

    /// The editor words, which work through `host`.
    #[verifier::rlimit(100)]
    #[verifier::spinoff_prover]
    fn prim_host<H: Host>(&mut self, p: usize, host: &mut H) -> (r: Result<(), String>)
        requires
            old(host).kept(),
            old(self).wf(),
            24 <= p < PRIM_COUNT,
        ensures
            final(host).kept(),
            final(host).anchor() == old(host).anchor(),
            final(self).wf(),
            final(self).words == old(self).words,
            r is Ok <==> prim_ok(p as int, old(self).stack@),
            r is Ok ==> prim_effect(p as int, old(self).stack@, final(self).stack@),
            old(host).modeled() ==> final(host).modeled(),
            old(host).modeled() && r is Ok ==> host_effect(p as int, old(self).stack@, final(self).stack@, *old(host), *final(host)),
            old(host).modeled() && r is Err ==> host_same(*old(host), *final(host)),
    {
        let ghost s0 = self.stack@;
        if p == 26 || p == 28 {
            let n = self.pop_int()?;
            if p == 26 {
                host.set_cursor(n);
            } else {
                host.set_mark(n);
            }
            Ok(())
        } else if p == 29 {
            let (a, b) = host.selection();
            self.push(Value::Int(a))?;
            let r = self.push(Value::Int(b));
            proof {
                if r is Ok {
                    lemma_push_drop(s0.push(Value::Int(a)), Value::Int(b));
                    lemma_push_drop(s0, Value::Int(a));
                }
            }
            r
        } else if p == 30 {
            let (a, b) = self.pop2()?;
            let t = host.slice(a, b);
            let ghost s2 = self.stack@;
            let r = self.push(Value::Str(t));
            proof {
                lemma_push_drop(s2, self.stack@.last());
            }
            r
        } else if p == 31 || p == 39 {
            let s = self.pop_str()?;
            if p == 31 {
                host.insert(s.as_str());
            } else {
                host.message(s.as_str());
            }
            Ok(())
        } else if p == 32 {
            let (a, b) = self.pop2()?;
            host.delete(a, b);
            Ok(())
        } else if p == 35 || p == 36 || p == 37 || p == 38 {
            let n = if p == 35 || p == 36 {
                let l = self.pop_int()?;
                if p == 35 { host.line_start(l) } else { host.line_end(l) }
            } else {
                let s = self.pop_str()?;
                host.search(s.as_str(), p == 37)
            };
            let ghost s1 = self.stack@;
            let r = self.push(Value::Int(n));
            proof {
                lemma_push_drop(s1, Value::Int(n));
            }
            r
        } else {
            let n = if p == 24 {
                host.len()
            } else if p == 25 {
                host.cursor()
            } else if p == 27 {
                host.mark()
            } else if p == 33 {
                host.line()
            } else {
                host.lines()
            };
            let r = self.push(Value::Int(n));
            proof {
                lemma_push_drop(s0, Value::Int(n));
            }
            r
        }
    }
}

/// Pushing and then dropping the last element gives the sequence back.
proof fn lemma_push_drop<A>(s: Seq<A>, v: A)
    ensures
        s.push(v).drop_last() == s,
{
    assert(s.push(v).drop_last() =~= s);
}

} // verus!
