//! Keys and the decoder that turns terminal input bytes into them.
use vstd::prelude::*;
use crate::encoding::first_scalar;

verus! {

/// A key press as the editor sees it.
#[derive(Clone, Copy, PartialEq, Eq, Structural, Debug)]
pub enum Key {
    Char(char),
    Ctrl(char),
    Meta(char),
    MetaBackspace,
    Enter,
    Tab,
    Backspace,
    Esc,
    Up,
    Down,
    Left,
    Right,
    Home,
    End,
    PageUp,
    PageDown,
    Delete,
}

/// A source of input bytes.
pub trait Input {
    /// Whether `input_rest` tells the bytes this source will hand out; a source that
    /// does not say (a terminal) leaves it false, and then nothing is promised of them.
    open spec fn modeled(&self) -> bool {
        false
    }

    /// The bytes still to come, in order, where `modeled` holds.
    open spec fn input_rest(&self) -> Seq<u8> {
        Seq::empty()
    }

    /// The next byte, or `None` at the end of input.
    fn byte(&mut self) -> (r: Option<u8>)
        ensures
            old(self).modeled() ==> final(self).modeled(),
            old(self).modeled() && old(self).input_rest().len() == 0 ==> r is None
                && final(self).input_rest() == old(self).input_rest(),
            old(self).modeled() && old(self).input_rest().len() > 0 ==> r == Some(old(self).input_rest()[0])
                && final(self).input_rest() == old(self).input_rest().drop_first(),
    ;

    /// Whether another byte arrives soon; which it is depends on timing.
    fn pending(&mut self) -> (r: bool)
        ensures
            old(self).modeled() ==> final(self).modeled() && final(self).input_rest() == old(self).input_rest(),
    ;
}

/// Input from bytes already in memory: each byte in turn, and another one pending
/// while any are left.
pub struct ByteFeed {
    bytes: Vec<u8>,
    pos: usize,
}

impl ByteFeed {
    /// A feed of `bytes`, from the first.
    pub fn new(bytes: Vec<u8>) -> (r: ByteFeed)
        ensures
            r.modeled(),
            r.input_rest() == bytes@,
    {
        let r = ByteFeed { bytes, pos: 0 };
        assert(r.bytes@.skip(0) =~= r.bytes@);
        r
    }
}

impl Input for ByteFeed {
    closed spec fn modeled(&self) -> bool {
        self.pos <= self.bytes@.len()
    }

    closed spec fn input_rest(&self) -> Seq<u8> {
        self.bytes@.skip(self.pos as int)
    }

    fn byte(&mut self) -> (r: Option<u8>) {
        if self.pos < self.bytes.len() {
            let b = self.bytes[self.pos];
            self.pos = self.pos + 1;
            proof {
                assert(old(self).input_rest().drop_first() =~= self.input_rest());
            }
            Some(b)
        } else {
            None
        }
    }

    fn pending(&mut self) -> (r: bool)
        ensures
            old(self).modeled() ==> r == (old(self).input_rest().len() > 0),
            *final(self) == *old(self),
    {
        self.pos < self.bytes.len()
    }
}

/// The character `bytes` encode when they are exactly one well-formed character.
pub open spec fn utf8_char_spec(bytes: Seq<u8>) -> Option<char> {
    if bytes.len() > 0 && vstd::utf8::valid_first_scalar(bytes) && vstd::utf8::length_of_first_scalar(bytes) == bytes.len() {
        Some(vstd::utf8::decode_first_scalar(bytes) as char)
    } else {
        None
    }
}

/// The character that the lead byte `first` and the bytes `s` after it make, and how
/// many of `s` it takes: as many continuation bytes as the lead byte announces (all
/// there are when fewer come), none for a byte that starts no character.
pub open spec fn utf8_spec(first: u8, s: Seq<u8>) -> (Option<char>, int) {
    let k = lead_len(first);
    if k == 0 {
        (None, 0)
    } else if s.len() < k - 1 {
        (None, s.len() as int)
    } else {
        (utf8_char_spec(seq![first] + s.take(k - 1)), k - 1)
    }
}

/// The key the rest `s` of a CSI sequence names, with the parameter `cur` being read
/// and the `first` parameter so far, reading at most `budget` bytes, and how many
/// bytes it takes: digits build the parameter, `;` or `:` ends one, a final byte
/// names the key with the first parameter, any other byte ends it with no key.
pub open spec fn csi_spec(s: Seq<u8>, cur: usize, first: Option<usize>, budget: nat) -> (Option<Key>, int)
    decreases budget,
{
    if budget == 0 || s.len() == 0 {
        (None, 0)
    } else {
        let b = s[0];
        if 0x30 <= b <= 0x39 {
            let next = vstd::wrapping::usize_specs::wrapping_add(
                vstd::wrapping::usize_specs::wrapping_mul(cur, 10),
                (b - 0x30) as usize,
            );
            let r = csi_spec(s.drop_first(), next, first, (budget - 1) as nat);
            (r.0, r.1 + 1)
        } else if b == 0x3b || b == 0x3a {
            let r = csi_spec(s.drop_first(), 0, if first is None { Some(cur) } else { first }, (budget - 1) as nat);
            (r.0, r.1 + 1)
        } else if 0x40 <= b <= 0x7e {
            (named_spec(b, match first { Some(f) => f, None => cur }), 1)
        } else {
            (None, 1)
        }
    }
}

/// The key the bytes `s` after an ESC name, and how many of them it takes: ESC
/// itself when no byte followed soon (`alone`); otherwise a CSI sequence (`[`), an
/// SS3 one (`O` and a final byte), Meta-Backspace, or Meta with a printable or
/// multi-byte character.
pub open spec fn escape_spec(s: Seq<u8>, alone: bool) -> (Option<Key>, int) {
    if alone {
        (Some(Key::Esc), 0)
    } else if s.len() == 0 {
        (None, 0)
    } else {
        let b = s[0];
        let t = s.drop_first();
        if b == 0x5b {
            let r = csi_spec(t, 0, None, usize::MAX as nat);
            (r.0, r.1 + 1)
        } else if b == 0x4f {
            if t.len() == 0 {
                (None, 1)
            } else {
                (named_spec(t[0], 0), 2)
            }
        } else if b == 0x7f {
            (Some(Key::MetaBackspace), 1)
        } else if 0x20 <= b <= 0x7e {
            (Some(Key::Meta(b as char)), 1)
        } else if b >= 0x80 {
            let r = utf8_spec(b, t);
            (
                match r.0 {
                    Some(c) => Some(Key::Meta(c)),
                    None => None,
                },
                r.1 + 1,
            )
        } else {
            (None, 1)
        }
    }
}

proof fn lemma_csi_len(s: Seq<u8>, cur: usize, first: Option<usize>, budget: nat)
    ensures
        0 <= csi_spec(s, cur, first, budget).1 <= s.len(),
    decreases budget,
{
    if budget > 0 && s.len() > 0 {
        let b = s[0];
        if 0x30 <= b <= 0x39 {
            let next = vstd::wrapping::usize_specs::wrapping_add(
                vstd::wrapping::usize_specs::wrapping_mul(cur, 10),
                (b - 0x30) as usize,
            );
            lemma_csi_len(s.drop_first(), next, first, (budget - 1) as nat);
        } else if b == 0x3b || b == 0x3a {
            lemma_csi_len(s.drop_first(), 0, if first is None { Some(cur) } else { first }, (budget - 1) as nat);
        }
    }
}

proof fn lemma_escape_len(s: Seq<u8>, alone: bool)
    ensures
        0 <= escape_spec(s, alone).1 <= s.len(),
        0 <= utf8_spec(if s.len() > 0 { s[0] } else { 0 }, s.drop_first()).1 <= s.len(),
{
    if s.len() > 0 {
        lemma_csi_len(s.drop_first(), 0, None, usize::MAX as nat);
    }
}

/// The key the bytes `s` still to come start with, and how many of them it takes:
/// an escape sequence after ESC (`alone`: whether no byte followed the ESC soon), a
/// multi-byte character, or the key of a single byte.
pub open spec fn key_spec(s: Seq<u8>, alone: bool) -> (Option<Key>, int) {
    if s.len() == 0 {
        (None, 0)
    } else {
        let b = s[0];
        let t = s.drop_first();
        if b == 0x1b {
            let r = escape_spec(t, alone);
            (r.0, r.1 + 1)
        } else if b >= 0x80 {
            let r = utf8_spec(b, t);
            (
                match r.0 {
                    Some(c) => Some(Key::Char(c)),
                    None => None,
                },
                r.1 + 1,
            )
        } else {
            (byte_key(b), 1)
        }
    }
}

/// Single bytes: carriage return is Enter, tab is Tab, DEL is Backspace, NUL is
/// `C-SPC`, the other bytes 1 to 26 are Control with the letter of the alphabet at
/// that position, and printable ASCII is the character itself; each takes one byte.
pub proof fn lemma_single_bytes(b: u8, rest: Seq<u8>, alone: bool)
    ensures
        b == 0x0d ==> key_spec(seq![b] + rest, alone) == (Some(Key::Enter), 1int),
        b == 0x09 ==> key_spec(seq![b] + rest, alone) == (Some(Key::Tab), 1int),
        b == 0x7f ==> key_spec(seq![b] + rest, alone) == (Some(Key::Backspace), 1int),
        b == 0x00 ==> key_spec(seq![b] + rest, alone) == (Some(Key::Ctrl(' ')), 1int),
        1 <= b <= 26 && b != 0x09 && b != 0x0d ==> key_spec(seq![b] + rest, alone).1 == 1 && (key_spec(seq![b] + rest, alone).0 matches Some(Key::Ctrl(l))
            && l as u32 == 'a' as u32 + b - 1),
        0x20 <= b <= 0x7e ==> key_spec(seq![b] + rest, alone).1 == 1 && (key_spec(seq![b] + rest, alone).0 matches Some(Key::Char(ch)) && ch as u32 == b),
{
    assert((seq![b] + rest)[0] == b);
    if 1 <= b <= 26 {
        assert(((b + 0x60) as u8) as char as u32 == b + 0x60);
    }
    if 0x20 <= b <= 0x7e {
        assert((b as char) as u32 == b);
    }
}

/// A character beyond ASCII sent as its UTF-8 encoding is that character, and its
/// bytes make the key, whatever follows them.
pub proof fn lemma_utf8_keys(c: char, rest: Seq<u8>, alone: bool)
    requires
        (c as u32) >= 0x80,
    ensures
        key_spec(crate::encoding::char_bytes(c) + rest, alone) == (Some(Key::Char(c)), crate::encoding::char_bytes(c).len() as int),
{
    let u = c as u32;
    vstd::utf8::char_is_scalar(c);
    let e = crate::encoding::char_bytes(c);
    crate::encoding::lemma_char_bytes_len(c);
    if u <= 0x7ff {
        assert(0xc2 <= (0xC0u8 | ((u >> 6u32) & 0x1Fu32) as u8) <= 0xdf) by (bit_vector)
            requires
                0x80 <= u <= 0x7ff,
        ;
    } else if u <= 0xffff {
        assert(0xe0 <= (0xE0u8 | ((u >> 12u32) & 0x0Fu32) as u8) <= 0xef) by (bit_vector);
    } else {
        assert(0xf0 <= (0xF0u8 | ((u >> 18u32) & 0x7u32) as u8) <= 0xf4) by (bit_vector)
            requires
                0x10000 <= u <= 0x10ffff,
        ;
    }
    assert(lead_len(e[0]) == e.len());
    let s = e + rest;
    let t = s.drop_first();
    assert(s[0] == e[0]);
    assert(seq![e[0]] + t.take(e.len() - 1) =~= e);
    crate::encoding::lemma_encode_single(c);
    vstd::utf8::encode_utf8_valid_utf8(seq![c]);
    vstd::utf8::encode_utf8_first_scalar(seq![c]);
    crate::encoding::lemma_valid_first(e);
    vstd::utf8::char_u32_cast(c, u);
}

/// Escape alone is Esc; ESC followed by a printable ASCII character other than `[`
/// and `O` is Meta with that character, and ESC DEL is Meta-Backspace, the two bytes
/// making the key.
pub proof fn lemma_meta_keys(b: u8, rest: Seq<u8>)
    ensures
        key_spec(seq![0x1bu8] + rest, true) == (Some(Key::Esc), 1int),
        (0x20 <= b <= 0x7e && b != 0x5b && b != 0x4f) ==> key_spec(seq![0x1bu8, b] + rest, false).1 == 2 && (key_spec(
            seq![0x1bu8, b] + rest,
            false,
        ).0 matches Some(Key::Meta(m)) && m as u32 == b),
        b == 0x7f ==> key_spec(seq![0x1bu8, b] + rest, false) == (Some(Key::MetaBackspace), 2int),
{
    assert((seq![0x1bu8] + rest)[0] == 0x1b);
    let s = seq![0x1bu8, b] + rest;
    assert(s[0] == 0x1b);
    assert(s.drop_first() =~= seq![b] + rest);
    assert(s.drop_first()[0] == b);
    if 0x20 <= b <= 0x7e {
        assert((b as char) as u32 == b);
    }
}

/// A parameter that starts at zero takes the first digit's value.
proof fn lemma_zero_times_ten()
    ensures
        vstd::wrapping::usize_specs::wrapping_mul(0usize, 10) == 0,
{
    vstd::arithmetic::div_mod::lemma_small_mod(0nat, (usize::MAX - usize::MIN + 1) as nat);
}

/// The cursor keys: ESC `[` or ESC `O` followed by `A`, `B`, `C` or `D` is the up,
/// down, right or left arrow, and `H` or `F` is Home or End, whatever follows; the
/// three bytes make the key.
pub proof fn lemma_cursor_keys(intro: u8, fin: u8, rest: Seq<u8>)
    requires
        intro == 0x5b || intro == 0x4f,
    ensures
        fin == 0x41 ==> key_spec(seq![0x1bu8, intro, fin] + rest, false) == (Some(Key::Up), 3int),
        fin == 0x42 ==> key_spec(seq![0x1bu8, intro, fin] + rest, false) == (Some(Key::Down), 3int),
        fin == 0x43 ==> key_spec(seq![0x1bu8, intro, fin] + rest, false) == (Some(Key::Right), 3int),
        fin == 0x44 ==> key_spec(seq![0x1bu8, intro, fin] + rest, false) == (Some(Key::Left), 3int),
        fin == 0x48 ==> key_spec(seq![0x1bu8, intro, fin] + rest, false) == (Some(Key::Home), 3int),
        fin == 0x46 ==> key_spec(seq![0x1bu8, intro, fin] + rest, false) == (Some(Key::End), 3int),
{
    let s = seq![0x1bu8, intro, fin] + rest;
    let t = s.drop_first();
    assert(s[0] == 0x1b);
    assert(t =~= seq![intro, fin] + rest);
    assert(t[0] == intro);
    assert(t.drop_first() =~= seq![fin] + rest);
    assert(t.drop_first()[0] == fin);
    assert(t.drop_first().len() > 0);
}

/// An arrow key with a modifier, ESC `[` `1` `;` m and the final byte, is the same
/// arrow key as without it (xterm reports Ctrl-Right as ESC `[1;5C`).
pub proof fn lemma_modified_arrows(m: u8, fin: u8, rest: Seq<u8>)
    requires
        0x30 <= m <= 0x39,
    ensures
        fin == 0x41 ==> key_spec(seq![0x1bu8, 0x5bu8, 0x31u8, 0x3bu8, m, fin] + rest, false) == (Some(Key::Up), 6int),
        fin == 0x42 ==> key_spec(seq![0x1bu8, 0x5bu8, 0x31u8, 0x3bu8, m, fin] + rest, false) == (Some(Key::Down), 6int),
        fin == 0x43 ==> key_spec(seq![0x1bu8, 0x5bu8, 0x31u8, 0x3bu8, m, fin] + rest, false) == (Some(Key::Right), 6int),
        fin == 0x44 ==> key_spec(seq![0x1bu8, 0x5bu8, 0x31u8, 0x3bu8, m, fin] + rest, false) == (Some(Key::Left), 6int),
{
    let s = seq![0x1bu8, 0x5bu8, 0x31u8, 0x3bu8, m, fin] + rest;
    let t = s.drop_first();
    let u0 = t.drop_first();
    let u1 = u0.drop_first();
    let u2 = u1.drop_first();
    let u3 = u2.drop_first();
    assert(s[0] == 0x1b);
    assert(t =~= seq![0x5bu8, 0x31u8, 0x3bu8, m, fin] + rest);
    assert(u0 =~= seq![0x31u8, 0x3bu8, m, fin] + rest);
    assert(u1 =~= seq![0x3bu8, m, fin] + rest);
    assert(u2 =~= seq![m, fin] + rest);
    assert(u3 =~= seq![fin] + rest);
    assert(t[0] == 0x5b && u0[0] == 0x31 && u1[0] == 0x3b && u2[0] == m && u3[0] == fin);
    if 0x41 <= fin <= 0x44 {
        let b = usize::MAX as nat;
        lemma_zero_times_ten();
        let k = vstd::wrapping::usize_specs::wrapping_add(vstd::wrapping::usize_specs::wrapping_mul(0usize, 10), (m - 0x30) as usize);
        assert(csi_spec(u3, k, Some(1usize), (b - 3) as nat) == (named_spec(fin, 1), 1int));
        assert(csi_spec(u2, 0, Some(1usize), (b - 2) as nat) == (named_spec(fin, 1), 2int));
        assert(csi_spec(u1, 1, None, (b - 1) as nat) == (named_spec(fin, 1), 3int));
        assert(csi_spec(u0, 0, None, b) == (named_spec(fin, 1), 4int));
    }
}

/// The editing keys of the VT220 layout, ESC `[` n `~`: 1 and 7 are Home, 3 is
/// Delete, 4 and 8 are End, 5 is Page Up and 6 is Page Down.
pub proof fn lemma_tilde_keys(d: u8, rest: Seq<u8>)
    requires
        0x30 <= d <= 0x39,
    ensures
        (d == 0x31 || d == 0x37) ==> key_spec(seq![0x1bu8, 0x5bu8, d, 0x7eu8] + rest, false) == (Some(Key::Home), 4int),
        d == 0x33 ==> key_spec(seq![0x1bu8, 0x5bu8, d, 0x7eu8] + rest, false) == (Some(Key::Delete), 4int),
        (d == 0x34 || d == 0x38) ==> key_spec(seq![0x1bu8, 0x5bu8, d, 0x7eu8] + rest, false) == (Some(Key::End), 4int),
        d == 0x35 ==> key_spec(seq![0x1bu8, 0x5bu8, d, 0x7eu8] + rest, false) == (Some(Key::PageUp), 4int),
        d == 0x36 ==> key_spec(seq![0x1bu8, 0x5bu8, d, 0x7eu8] + rest, false) == (Some(Key::PageDown), 4int),
{
    let s = seq![0x1bu8, 0x5bu8, d, 0x7eu8] + rest;
    let t = s.drop_first();
    let u0 = t.drop_first();
    let u1 = u0.drop_first();
    assert(s[0] == 0x1b);
    assert(t =~= seq![0x5bu8, d, 0x7eu8] + rest);
    assert(u0 =~= seq![d, 0x7eu8] + rest);
    assert(u1 =~= seq![0x7eu8] + rest);
    assert(t[0] == 0x5b && u0[0] == d && u1[0] == 0x7e);
    let b = usize::MAX as nat;
    let n = vstd::wrapping::usize_specs::wrapping_add(vstd::wrapping::usize_specs::wrapping_mul(0usize, 10), (d - 0x30) as usize);
    lemma_zero_times_ten();
    assert(n == (d - 0x30) as usize);
    assert(csi_spec(u1, n, None, (b - 1) as nat) == (named_spec(0x7e, n), 1int));
}

/// The key a single byte stands for when it is neither ESC nor the start of a
/// multi-byte character.
pub open spec fn byte_key(b: u8) -> Option<Key> {
    if b == 0x0d {
        Some(Key::Enter)
    } else if b == 0x09 {
        Some(Key::Tab)
    } else if b == 0x7f {
        Some(Key::Backspace)
    } else if b == 0x00 {
        Some(Key::Ctrl(' '))
    } else if 0x01 <= b <= 0x1a {
        Some(Key::Ctrl(((b + 0x60) as u8) as char))
    } else if 0x1c <= b <= 0x1f {
        Some(Key::Ctrl(((b + 0x40) as u8) as char))
    } else if 0x20 <= b <= 0x7e {
        Some(Key::Char(b as char))
    } else {
        None
    }
}

/// The key named by the final byte of a CSI or SS3 sequence and its first parameter.
pub open spec fn named_spec(fin: u8, n: usize) -> Option<Key> {
    if fin == 0x41 {
        Some(Key::Up)
    } else if fin == 0x42 {
        Some(Key::Down)
    } else if fin == 0x43 {
        Some(Key::Right)
    } else if fin == 0x44 {
        Some(Key::Left)
    } else if fin == 0x48 {
        Some(Key::Home)
    } else if fin == 0x46 {
        Some(Key::End)
    } else if fin == 0x7e {
        if n == 1 || n == 7 {
            Some(Key::Home)
        } else if n == 3 {
            Some(Key::Delete)
        } else if n == 4 || n == 8 {
            Some(Key::End)
        } else if n == 5 {
            Some(Key::PageUp)
        } else if n == 6 {
            Some(Key::PageDown)
        } else {
            None
        }
    } else {
        None
    }
}

/// The key for a single byte other than ESC and the bytes from 0x80 up.
fn single(b: u8) -> (r: Option<Key>)
    ensures
        r == byte_key(b),
{
    if b == 0x0d {
        Some(Key::Enter)
    } else if b == 0x09 {
        Some(Key::Tab)
    } else if b == 0x7f {
        Some(Key::Backspace)
    } else if b == 0x00 {
        Some(Key::Ctrl(' '))
    } else if 0x01 <= b && b <= 0x1a {
        Some(Key::Ctrl((b + 0x60) as char))
    } else if 0x1c <= b && b <= 0x1f {
        Some(Key::Ctrl((b + 0x40) as char))
    } else if 0x20 <= b && b <= 0x7e {
        Some(Key::Char(b as char))
    } else {
        None
    }
}

/// Reads one key; `None` when the input ends or the bytes name no key.
pub fn read_key(inp: &mut impl Input) -> (r: Option<Key>)
    ensures
        r matches Some(Key::Char(c)) ==> (c as u32) >= 0x20 && c as u32 != 0x7f,
        old(inp).modeled() ==> (exists|alone: bool|
            #[trigger] key_spec(old(inp).input_rest(), alone).0 == r && final(inp).input_rest() == old(inp).input_rest().skip(
                key_spec(old(inp).input_rest(), alone).1,
            )),
{
    let ghost s = inp.input_rest();
    let b = match inp.byte() {
        Some(b) => b,
        None => {
            proof {
 if old(inp).modeled() {
                assert(key_spec(s, true).0 == None::<Key>);
                assert(s.skip(0) =~= s);
            }
}
            return None;
        },
    };
    proof {
 if old(inp).modeled() {
        assert(s.drop_first() =~= s.skip(1));
    }
}
    if b == 0x1b {
        let r = escape(inp);
        proof {
 if old(inp).modeled() {
            let alone = choose|alone: bool|
                #[trigger] escape_spec(s.drop_first(), alone).0 == r && inp.input_rest() == s.drop_first().skip(
                    escape_spec(s.drop_first(), alone).1,
                );
            lemma_escape_len(s.drop_first(), alone);
            assert(s.drop_first().skip(escape_spec(s.drop_first(), alone).1) =~= s.skip(key_spec(s, alone).1));
            assert(key_spec(s, alone).0 == r);
        }
}
        return r;
    }
    if b >= 0x80 {
        let r = match utf8(inp, b) {
            Some(c) => Some(Key::Char(c)),
            None => None,
        };
        proof {
 if old(inp).modeled() {
            lemma_escape_len(s, true);
            assert(s.drop_first().skip(utf8_spec(b, s.drop_first()).1) =~= s.skip(key_spec(s, true).1));
            assert(key_spec(s, true).0 == r);
        }
}
        return r;
    }
    let r = single(b);
    proof {
 if old(inp).modeled() {
        assert(key_spec(s, true).0 == r);
    }
}
    r
}

fn escape(inp: &mut impl Input) -> (r: Option<Key>)
    ensures
        r matches Some(Key::Char(c)) ==> (c as u32) >= 0x20 && c as u32 != 0x7f,
        old(inp).modeled() ==> (exists|alone: bool|
            #[trigger] escape_spec(old(inp).input_rest(), alone).0 == r
                && final(inp).input_rest() == old(inp).input_rest().skip(escape_spec(old(inp).input_rest(), alone).1)),
{
    let ghost s = inp.input_rest();
    if !inp.pending() {
        proof {
 if old(inp).modeled() {
            assert(s.skip(0) =~= s);
            assert(escape_spec(s, true).0 == Some(Key::Esc));
        }
}
        return Some(Key::Esc);
    }
    let b = match inp.byte() {
        Some(b) => b,
        None => {
            proof {
 if old(inp).modeled() {
                assert(s.skip(0) =~= s);
                assert(escape_spec(s, false).0 == None::<Key>);
            }
}
            return None;
        },
    };
    let ghost t = s.drop_first();
    proof {
 if old(inp).modeled() {
        assert(t =~= s.skip(1));
    }
}
    let r = if b == 0x5b {
        let r = csi(inp);
        proof {
 if old(inp).modeled() {
            lemma_csi_len(t, 0, None, usize::MAX as nat);
            assert(t.skip(csi_spec(t, 0, None, usize::MAX as nat).1) =~= s.skip(escape_spec(s, false).1));
        }
}
        r
    } else if b == 0x4f {
        match inp.byte() {
            Some(f) => {
                proof {
 if old(inp).modeled() {
                    assert(t.drop_first() =~= s.skip(2));
                }
}
                named(f, 0)
            },
            None => None,
        }
    } else if b == 0x7f {
        Some(Key::MetaBackspace)
    } else if 0x20 <= b && b <= 0x7e {
        Some(Key::Meta(b as char))
    } else if b >= 0x80 {
        let r = match utf8(inp, b) {
            Some(c) => Some(Key::Meta(c)),
            None => None,
        };
        proof {
 if old(inp).modeled() {
            lemma_escape_len(s, false);
            assert(t.skip(utf8_spec(b, t).1) =~= s.skip(escape_spec(s, false).1));
        }
}
        r
    } else {
        None
    };
    proof {
 if old(inp).modeled() {
        assert(escape_spec(s, false).0 == r);
    }
}
    r
}

/// Reads the rest of a CSI sequence: parameters, then the final byte.
fn csi(inp: &mut impl Input) -> (r: Option<Key>)
    ensures
        r matches Some(Key::Char(_)) ==> false,
        old(inp).modeled() ==> r == csi_spec(old(inp).input_rest(), 0, None, usize::MAX as nat).0,
        old(inp).modeled() ==> final(inp).input_rest() == old(inp).input_rest().skip(
            csi_spec(old(inp).input_rest(), 0, None, usize::MAX as nat).1,
        ),
{
    let ghost s0 = inp.input_rest();
    let ghost target = csi_spec(s0, 0, None, usize::MAX as nat);
    let ghost mut j: int = 0;
    let mut cur: usize = 0;
    let mut first: Option<usize> = None;
    let mut budget: usize = usize::MAX;
    proof {
 if old(inp).modeled() {
        assert(s0.skip(0) =~= s0);
    }
}
    while budget > 0
        invariant
            s0 == old(inp).input_rest(),
            0 <= j <= s0.len(),
            old(inp).modeled() ==> inp.modeled() && inp.input_rest() == s0.skip(j),
            target == csi_spec(s0, 0, None, usize::MAX as nat),
            old(inp).modeled() ==> target == ({
                let c = csi_spec(s0.skip(j), cur, first, budget as nat);
                (c.0, c.1 + j)
            }),
        decreases budget,
    {
        let ghost rest = s0.skip(j);
        let ghost bud = budget as nat;
        budget = budget - 1;
        let b = match inp.byte() {
            Some(b) => b,
            None => {
                proof {
 if old(inp).modeled() {
                    assert(rest.len() == 0);
                    assert(csi_spec(rest, cur, first, bud) == (None::<Key>, 0int));
                }
}
                return None;
            },
        };
        proof {
 if old(inp).modeled() {
            assert(rest.drop_first() =~= s0.skip(j + 1));
            assert(rest[0] == b);
        }
}
        if 0x30 <= b && b <= 0x39 {
            cur = cur.wrapping_mul(10).wrapping_add((b - 0x30) as usize);
            proof {
 if old(inp).modeled() {
                j = j + 1;
            }
}
        } else if b == 0x3b || b == 0x3a {
            if first.is_none() {
                first = Some(cur);
            }
            cur = 0;
            proof {
 if old(inp).modeled() {
                j = j + 1;
            }
}
        } else if 0x40 <= b && b <= 0x7e {
            let n = match first {
                Some(f) => f,
                None => cur,
            };
            proof {
 if old(inp).modeled() {
                assert(csi_spec(rest, cur, first, bud) == (named_spec(b, n), 1int));
            }
}
            return named(b, n);
        } else {
            proof {
 if old(inp).modeled() {
                assert(csi_spec(rest, cur, first, bud) == (None::<Key>, 1int));
            }
}
            return None;
        }
    }
    None
}

/// The key named by a final byte and a parameter.
fn named(fin: u8, n: usize) -> (r: Option<Key>)
    ensures
        r == named_spec(fin, n),
{
    if fin == 0x41 {
        Some(Key::Up)
    } else if fin == 0x42 {
        Some(Key::Down)
    } else if fin == 0x43 {
        Some(Key::Right)
    } else if fin == 0x44 {
        Some(Key::Left)
    } else if fin == 0x48 {
        Some(Key::Home)
    } else if fin == 0x46 {
        Some(Key::End)
    } else if fin == 0x7e {
        if n == 1 || n == 7 {
            Some(Key::Home)
        } else if n == 3 {
            Some(Key::Delete)
        } else if n == 4 || n == 8 {
            Some(Key::End)
        } else if n == 5 {
            Some(Key::PageUp)
        } else if n == 6 {
            Some(Key::PageDown)
        } else {
            None
        }
    } else {
        None
    }
}

/// Length of the UTF-8 sequence a leading byte announces, for the leading bytes a
/// valid multi-byte character can start with.
pub open spec fn lead_len(first: u8) -> int {
    if 0xc2 <= first <= 0xdf {
        2
    } else if 0xe0 <= first <= 0xef {
        3
    } else if 0xf0 <= first <= 0xf4 {
        4
    } else {
        0
    }
}

/// The character encoded by `bytes` when they are exactly one well-formed character.
pub fn utf8_char(bytes: &Vec<u8>) -> (r: Option<char>)
    ensures
        r is Some <==> (bytes@.len() > 0 && vstd::utf8::valid_first_scalar(bytes@)
            && vstd::utf8::length_of_first_scalar(bytes@) == bytes@.len()),
        r matches Some(c) ==> crate::encoding::char_bytes(c) == bytes@,
        r == utf8_char_spec(bytes@),
{
    match first_scalar(bytes.as_slice()) {
        Some((c, n)) => {
            proof {
                vstd::utf8::char_u32_cast(c, vstd::utf8::decode_first_scalar(bytes@));
            }
            if n == bytes.len() {
                proof {
                    assert(bytes@.subrange(0, n as int) =~= bytes@);
                }
                Some(c)
            } else {
                None
            }
        },
        None => None,
    }
}

/// Reads the continuation bytes of a character that started with `first`.
fn utf8(inp: &mut impl Input, first: u8) -> (r: Option<char>)
    ensures
        r matches Some(c) ==> (c as u32) >= 0x80,
        lead_len(first) == 0 ==> r is None,
        r matches Some(c) ==> crate::encoding::char_bytes(c).len() == lead_len(first) && crate::encoding::char_bytes(c)[0]
            == first,
        old(inp).modeled() ==> r == utf8_spec(first, old(inp).input_rest()).0,
        old(inp).modeled() ==> final(inp).input_rest() == old(inp).input_rest().skip(utf8_spec(first, old(inp).input_rest()).1),
{
    let ghost s = inp.input_rest();
    proof {
 if old(inp).modeled() {
        assert(s.skip(0) =~= s);
    }
}
    let len: usize = if 0xc2 <= first && first <= 0xdf {
        2
    } else if 0xe0 <= first && first <= 0xef {
        3
    } else if 0xf0 <= first && first <= 0xf4 {
        4
    } else {
        return None;
    };
    let mut buf: Vec<u8> = Vec::new();
    buf.push(first);
    let mut i: usize = 1;
    proof {
 if old(inp).modeled() {
        assert(buf@ =~= seq![first] + s.take(0));
    }
}
    while i < len
        invariant
            s == old(inp).input_rest(),
            1 <= i <= len <= 4,
            len == lead_len(first),
            buf@.len() == i,
            buf@[0] == first,
            old(inp).modeled() ==> i - 1 <= s.len(),
            old(inp).modeled() ==> buf@ == seq![first] + s.take(i - 1),
            old(inp).modeled() ==> inp.modeled() && inp.input_rest() == s.skip(i - 1),
        decreases len - i,
    {
        let ghost rest = inp.input_rest();
        match inp.byte() {
            Some(b) => {
                buf.push(b);
                proof {
 if old(inp).modeled() {
                    assert(buf@ =~= seq![first] + s.take(i as int));
                    assert(rest.drop_first() =~= s.skip(i as int));
                }
}
            },
            None => {
                proof {
 if old(inp).modeled() {
                    assert(rest.len() == 0);
                    assert(s.len() == i - 1);
                    assert(s.skip(s.len() as int) =~= rest);
                    assert(utf8_spec(first, s) == (None::<char>, s.len() as int));
                }
}
                return None;
            },
        }
        i = i + 1;
    }
    let r = utf8_char(&buf);
    proof {
 if old(inp).modeled() {
        if let Some(c) = r {
            vstd::utf8::char_is_scalar(c);
            crate::encoding::lemma_char_bytes_len(c);
        }
    }
}
    r
}

} // verus!
