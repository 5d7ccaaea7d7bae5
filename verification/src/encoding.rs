//! Byte-level text helpers: UTF-8 encoding and decoding of single characters,
//! newline counting, substring search and conversions between `String` and bytes.
use vstd::prelude::*;
use vstd::utf8::*;
use vstd::string::*;
use vstd::slice::slice_to_vec;

verus! {

/// The newline byte.
pub const NL: u8 = 10;

/// Number of newline bytes in `s`.
pub open spec fn count_nl(s: Seq<u8>) -> nat
    decreases s.len(),
{
    if s.len() == 0 {
        0
    } else {
        count_nl(s.drop_last()) + if s.last() == NL { 1nat } else { 0nat }
    }
}

pub proof fn lemma_count_nl_concat(a: Seq<u8>, b: Seq<u8>)
    ensures
        count_nl(a + b) == count_nl(a) + count_nl(b),
    decreases b.len(),
{
    if b.len() == 0 {
        assert(a + b =~= a);
    } else {
        lemma_count_nl_concat(a, b.drop_last());
        assert((a + b).drop_last() =~= a + b.drop_last());
    }
}

pub proof fn lemma_count_nl_bound(s: Seq<u8>)
    ensures
        count_nl(s) <= s.len(),
    decreases s.len(),
{
    if s.len() > 0 {
        lemma_count_nl_bound(s.drop_last());
    }
}

/// Counts the newline bytes of `v[start..end]`.
pub fn count_nl_in(v: &Vec<u8>, start: usize, end: usize) -> (r: usize)
    requires
        start <= end <= v@.len(),
    ensures
        r == count_nl(v@.subrange(start as int, end as int)),
{
    let mut i = start;
    let mut n: usize = 0;
    while i < end
        invariant
            start <= i <= end <= v@.len(),
            n == count_nl(v@.subrange(start as int, i as int)),
            n <= i - start,
        decreases end - i,
    {
        assert(v@.subrange(start as int, i + 1).drop_last() =~= v@.subrange(start as int, i as int));
        if v[i] == NL {
            n = n + 1;
        }
        i = i + 1;
    }
    n
}


/// The UTF-8 encoding of one character.
pub open spec fn char_bytes(c: char) -> Seq<u8> {
    encode_scalar(c as u32)
}

pub proof fn lemma_encode_single(c: char)
    ensures
        encode_utf8(seq![c]) == char_bytes(c),
{
    reveal_with_fuel(encode_utf8, 2);
    assert(seq![c].drop_first() =~= Seq::<char>::empty());
    assert(encode_utf8(seq![c]) =~= encode_scalar(c as u32) + encode_utf8(Seq::<char>::empty()));
}

pub proof fn lemma_encode_concat(a: Seq<char>, b: Seq<char>)
    ensures
        encode_utf8(a + b) == encode_utf8(a) + encode_utf8(b),
    decreases a.len(),
{
    if a.len() == 0 {
        assert(a + b =~= b);
        assert(encode_utf8(a) =~= Seq::<u8>::empty());
        assert(encode_utf8(a) + encode_utf8(b) =~= encode_utf8(b));
    } else {
        lemma_encode_concat(a.drop_first(), b);
        assert((a + b).drop_first() =~= a.drop_first() + b);
        assert((a + b)[0] == a[0]);
        assert(encode_utf8(a + b) =~= encode_scalar(a[0] as u32) + encode_utf8(a.drop_first() + b));
    }
}

pub proof fn lemma_encode_push(a: Seq<char>, c: char)
    ensures
        encode_utf8(a.push(c)) == encode_utf8(a) + char_bytes(c),
{
    assert(a.push(c) =~= a + seq![c]);
    lemma_encode_concat(a, seq![c]);
    lemma_encode_single(c);
}

pub proof fn lemma_char_bytes_len(c: char)
    ensures
        1 <= char_bytes(c).len() <= 4,
        (c as u32) < 0x80 ==> char_bytes(c).len() == 1 && char_bytes(c)[0] == c as u32 as u8,
{
    char_is_scalar(c);
    let u = c as u32;
    if u < 0x80 {
        assert((u & 0x7f) as u8 == u as u8) by (bit_vector)
            requires
                u < 0x80u32,
        ;
    }
}

/// Number of bytes in the UTF-8 encoding of `c`.
pub fn char_len(c: char) -> (r: usize)
    ensures
        r == char_bytes(c).len(),
        1 <= r <= 4,
{
    proof {
        char_is_scalar(c);
        lemma_char_bytes_len(c);
    }
    let u = c as u32;
    if u <= 0x7f {
        1
    } else if u <= 0x7ff {
        2
    } else if u <= 0xffff {
        3
    } else {
        4
    }
}

/// Appends the UTF-8 encoding of `c` to `v`.
pub fn push_char(v: &mut Vec<u8>, c: char)
    ensures
        final(v)@ == old(v)@ + char_bytes(c),
{
    proof {
        char_is_scalar(c);
    }
    let u = c as u32;
    if u <= 0x7f {
        v.push((u & 0x7f) as u8);
    } else if u <= 0x7ff {
        v.push(0xc0u8 | ((u >> 6) & 0x1f) as u8);
        v.push(0x80u8 | (u & 0x3f) as u8);
    } else if u <= 0xffff {
        v.push(0xe0u8 | ((u >> 12) & 0x0f) as u8);
        v.push(0x80u8 | ((u >> 6) & 0x3f) as u8);
        v.push(0x80u8 | (u & 0x3f) as u8);
    } else {
        v.push(0xf0u8 | ((u >> 18) & 0x7) as u8);
        v.push(0x80u8 | ((u >> 12) & 0x3f) as u8);
        v.push(0x80u8 | ((u >> 6) & 0x3f) as u8);
        v.push(0x80u8 | (u & 0x3f) as u8);
    }
    assert(final(v)@ =~= old(v)@ + char_bytes(c));
}

/// Trusted: `char::from_u32` returns `Some(c)` with `c as u32 == u` for every
/// Unicode scalar value `u`; the unwrap therefore never fails.
#[verifier::external_body]
fn char_from_scalar(u: u32) -> (c: char)
    requires
        is_scalar(u),
    ensures
        c as u32 == u,
{
    char::from_u32(u).unwrap()
}

/// Trusted: `String::from_utf8` accepts every valid UTF-8 byte vector and returns the
/// string made of the characters those bytes encode; the unwrap never fails.
#[verifier::external_body]
pub(crate) fn string_from_bytes(v: Vec<u8>) -> (s: String)
    requires
        valid_utf8(v@),
    ensures
        s@ == decode_utf8(v@),
{
    String::from_utf8(v).unwrap()
}

/// The UTF-8 bytes of a string slice.
pub fn str_bytes(s: &str) -> (v: Vec<u8>)
    ensures
        v@ == s.spec_bytes(),
        v@ == encode_utf8(s@),
        valid_utf8(v@),
{
    proof {
        encode_utf8_valid_utf8(s@);
    }
    slice_to_vec(s.as_bytes())
}

/// The UTF-8 bytes of a string.
pub fn string_bytes(s: &String) -> (v: Vec<u8>)
    ensures
        v@ == encode_utf8(s@),
        valid_utf8(v@),
{
    str_bytes(s.as_str())
}

/// Builds a string from valid UTF-8 bytes; the result's encoding is exactly `v`.
pub fn bytes_to_string(v: Vec<u8>) -> (s: String)
    requires
        valid_utf8(v@),
    ensures
        encode_utf8(s@) == v@,
        s@ == decode_utf8(v@),
{
    proof {
        decode_utf8_encode_utf8(v@);
    }
    string_from_bytes(v)
}

/// The character whose encoding starts at `i`, and the length of that encoding.
pub fn decode_at(b: &[u8], i: usize) -> (res: (char, usize))
    requires
        i < b@.len(),
        valid_first_scalar(b@.subrange(i as int, b@.len() as int)),
    ensures
        res.1 == length_of_first_scalar(b@.subrange(i as int, b@.len() as int)),
        1 <= res.1 <= 4,
        i + res.1 <= b@.len(),
        res.0 as u32 == decode_first_scalar(b@.subrange(i as int, b@.len() as int)),
        char_bytes(res.0) == b@.subrange(i as int, i + res.1),
{
    let ghost s = b@.subrange(i as int, b@.len() as int);
    let b0 = b[i];
    let (u, n): (u32, usize) = if b0 <= 0x7f {
        ((b0 & 0x7f) as u32, 1)
    } else if b0 >= 0xc0 && b0 <= 0xdf {
        let b1 = b[i + 1];
        let u = (((b0 & 0x1f) as u32) << 6) | ((b1 & 0x3f) as u32);
        assert(u <= 0x7ff) by (bit_vector)
            requires
                u == (((b0 & 0x1f) as u32) << 6) | ((b1 & 0x3f) as u32),
        ;
        (u, 2)
    } else if b0 >= 0xe0 && b0 <= 0xef {
        let b1 = b[i + 1];
        let b2 = b[i + 2];
        let u = (((b0 & 0x0f) as u32) << 12) | (((b1 & 0x3f) as u32) << 6) | ((b2 & 0x3f) as u32);
        assert(u <= 0xffff) by (bit_vector)
            requires
                u == (((b0 & 0x0f) as u32) << 12) | (((b1 & 0x3f) as u32) << 6) | ((b2 & 0x3f) as u32),
        ;
        (u, 3)
    } else {
        let b1 = b[i + 1];
        let b2 = b[i + 2];
        let b3 = b[i + 3];
        ((((b0 & 0x07) as u32) << 18) | (((b1 & 0x3f) as u32) << 12) | (((b2 & 0x3f) as u32) << 6)
            | ((b3 & 0x3f) as u32), 4)
    };
    assert(u == decode_first_scalar(s));
    let c = char_from_scalar(u);
    proof {
        let t = s.subrange(0, n as int);
        assert(t =~= b@.subrange(i as int, i + n));
        assert(pop_first_scalar(t) =~= Seq::<u8>::empty());
        assert(valid_first_scalar(t));
        reveal_with_fuel(valid_utf8, 2);
        assert(valid_utf8(t));
        decode_utf8_first_scalar(t);
        char_u32_cast(c, u);
        assert(take_first_scalar(t) =~= t);
    }
    (c, n)
}


/// A boundary of `v` that falls inside `[a, b]` is a boundary of `v[a..b]`, and
/// `v[a..b]` is itself valid when `a` and `b` are boundaries.
pub proof fn lemma_sub_boundary(v: Seq<u8>, a: int, b: int, k: int)
    requires
        valid_utf8(v),
        0 <= a <= k <= b <= v.len(),
        is_char_boundary(v, a),
        is_char_boundary(v, b),
        is_char_boundary(v, k),
    ensures
        valid_utf8(v.subrange(a, b)),
        is_char_boundary(v.subrange(a, b), k - a),
{
    let w = v.subrange(a, v.len() as int);
    valid_utf8_split(v, a);
    assert(is_char_boundary(w, b - a)) by {
        if b < v.len() {
            is_char_boundary_iff_not_is_continuation_byte(v, b);
            is_char_boundary_iff_not_is_continuation_byte(w, b - a);
        } else {
            is_char_boundary_start_end_of_seq(w);
        }
    }
    assert(is_char_boundary(w, k - a)) by {
        if k < v.len() {
            is_char_boundary_iff_not_is_continuation_byte(v, k);
            is_char_boundary_iff_not_is_continuation_byte(w, k - a);
        } else {
            is_char_boundary_start_end_of_seq(w);
        }
    }
    valid_utf8_split(w, b - a);
    let u = w.subrange(0, b - a);
    assert(u =~= v.subrange(a, b));
    if k < b {
        is_char_boundary_iff_not_is_continuation_byte(w, k - a);
        is_char_boundary_iff_not_is_continuation_byte(u, k - a);
    } else {
        is_char_boundary_start_end_of_seq(u);
    }
}

/// Splicing valid text into valid text at a boundary keeps it valid.
pub proof fn lemma_splice_valid(v: Seq<u8>, at: int, s: Seq<u8>)
    requires
        valid_utf8(v),
        valid_utf8(s),
        0 <= at <= v.len(),
        is_char_boundary(v, at),
    ensures
        valid_utf8(v.subrange(0, at) + s + v.subrange(at, v.len() as int)),
{
    is_char_boundary_start_end_of_seq(v);
    lemma_sub_boundary(v, 0, at, at);
    lemma_sub_boundary(v, at, v.len() as int, at);
    valid_utf8_concat(v.subrange(0, at), s);
    valid_utf8_concat(v.subrange(0, at) + s, v.subrange(at, v.len() as int));
}

/// Cutting out a range between two boundaries keeps the text valid.
pub proof fn lemma_cut_valid(v: Seq<u8>, a: int, b: int)
    requires
        valid_utf8(v),
        0 <= a <= b <= v.len(),
        is_char_boundary(v, a),
        is_char_boundary(v, b),
    ensures
        valid_utf8(v.subrange(0, a) + v.subrange(b, v.len() as int)),
{
    is_char_boundary_start_end_of_seq(v);
    lemma_sub_boundary(v, 0, a, a);
    lemma_sub_boundary(v, b, v.len() as int, b);
    valid_utf8_concat(v.subrange(0, a), v.subrange(b, v.len() as int));
}


pub proof fn lemma_count_nl_step(s: Seq<u8>, k: int)
    requires
        0 <= k < s.len(),
    ensures
        count_nl(s.take(k + 1)) == count_nl(s.take(k)) + if s[k] == NL { 1nat } else { 0nat },
{
    assert(s.take(k + 1).drop_last() =~= s.take(k));
}

pub proof fn lemma_count_nl_zero(s: Seq<u8>)
    ensures
        count_nl(s) == 0 <==> forall|i: int| 0 <= i < s.len() ==> s[i] != NL,
    decreases s.len(),
{
    if s.len() > 0 {
        lemma_count_nl_zero(s.drop_last());
        if count_nl(s) == 0 {
            assert forall|i: int| 0 <= i < s.len() implies s[i] != NL by {
                if i < s.len() - 1 {
                    assert(s.drop_last()[i] == s[i]);
                }
            }
        }
        if forall|i: int| 0 <= i < s.len() ==> s[i] != NL {
            assert forall|i: int| 0 <= i < s.drop_last().len() implies s.drop_last()[i] != NL by {
                assert(s.drop_last()[i] == s[i]);
            }
        }
    }
}

/// A valid sequence whose first character starts at 0 keeps that character in any
/// prefix long enough to hold it.
pub proof fn lemma_first_scalar_prefix(s: Seq<u8>, k: int)
    requires
        valid_first_scalar(s),
        length_of_first_scalar(s) <= k <= s.len(),
    ensures
        valid_first_scalar(s.take(k)),
        decode_first_scalar(s.take(k)) == decode_first_scalar(s),
        length_of_first_scalar(s.take(k)) == length_of_first_scalar(s),
{
    let t = s.take(k);
    assert(t[0] == s[0]);
    if k > 1 {
        assert(t[1] == s[1]);
    }
    if k > 2 {
        assert(t[2] == s[2]);
    }
    if k > 3 {
        assert(t[3] == s[3]);
    }
}

/// Valid text that is non-empty starts with a well-formed character.
pub proof fn lemma_valid_first(s: Seq<u8>)
    requires
        valid_utf8(s),
        s.len() > 0,
    ensures
        valid_first_scalar(s),
        1 <= length_of_first_scalar(s) <= 4,
        length_of_first_scalar(s) <= s.len(),
        valid_utf8(pop_first_scalar(s)),
{
}

/// True when `b` is a UTF-8 continuation byte.
pub fn is_cont(b: u8) -> (r: bool)
    ensures
        r == is_continuation_byte(b),
{
    0x80 <= b && b <= 0xbf
}


/// The characters encoded by valid UTF-8 bytes.
pub fn decode_all(v: &Vec<u8>) -> (r: Vec<char>)
    requires
        valid_utf8(v@),
    ensures
        r@ == decode_utf8(v@),
        encode_utf8(r@) == v@,
{
    let mut out: Vec<char> = Vec::new();
    let mut i: usize = 0;
    let n = v.len();
    proof {
        is_char_boundary_start_end_of_seq(v@);
        assert(v@.subrange(0, 0) =~= Seq::<u8>::empty());
        assert(out@ =~= decode_utf8(v@.subrange(0, 0)));
    }
    while i < n
        invariant
            n == v@.len(),
            i <= n,
            valid_utf8(v@),
            is_char_boundary(v@, i as int),
            out@ == decode_utf8(v@.subrange(0, i as int)),
        decreases n - i,
    {
        let ghost suf = v@.subrange(i as int, n as int);
        proof {
            is_char_boundary_start_end_of_seq(v@);
            lemma_sub_boundary(v@, i as int, n as int, i as int);
            lemma_valid_first(suf);
        }
        let (c, k) = decode_at(v.as_slice(), i);
        proof {
            let rest = pop_first_scalar(suf);
            if i + k < n {
                lemma_valid_first(rest);
                assert(rest[0] == v@[i + k]);
                is_char_boundary_iff_not_is_continuation_byte(v@, i + k);
            }
            let pre = v@.subrange(0, i + k);
            lemma_sub_boundary(v@, 0, i + k, i as int);
            decode_utf8_split(pre, i as int);
            assert(pre.subrange(0, i as int) =~= v@.subrange(0, i as int));
            let one = pre.subrange(i as int, pre.len() as int);
            assert(one =~= char_bytes(c));
            lemma_encode_single(c);
            encode_utf8_decode_utf8(seq![c]);
        }
        out.push(c);
        i = i + k;
    }
    proof {
        assert(v@.subrange(0, n as int) =~= v@);
        decode_utf8_encode_utf8(v@);
    }
    out
}

/// The characters of a string slice.
pub fn str_chars(s: &str) -> (r: Vec<char>)
    ensures
        r@ == s@,
        encode_utf8(s@).len() <= usize::MAX,
{
    let v = str_bytes(s);
    assert(v@.len() == v.len());
    proof {
        encode_utf8_decode_utf8(s@);
    }
    decode_all(&v)
}

/// Appends the encodings of `cs` to `v`.
pub fn push_chars(v: &mut Vec<u8>, cs: &Vec<char>)
    ensures
        final(v)@ == old(v)@ + encode_utf8(cs@),
{
    let mut i: usize = 0;
    let ghost v0 = v@;
    assert(cs@.take(0) =~= Seq::<char>::empty());
    while i < cs.len()
        invariant
            i <= cs@.len(),
            v@ == v0 + encode_utf8(cs@.take(i as int)),
        decreases cs@.len() - i,
    {
        proof {
            assert(cs@.take(i + 1) =~= cs@.take(i as int).push(cs@[i as int]));
            lemma_encode_push(cs@.take(i as int), cs@[i as int]);
        }
        push_char(v, cs[i]);
        i = i + 1;
    }
    assert(cs@.take(i as int) =~= cs@);
}


pub proof fn lemma_encode_len(cs: Seq<char>)
    ensures
        cs.len() <= encode_utf8(cs).len() <= 4 * cs.len(),
    decreases cs.len(),
{
    if cs.len() > 0 {
        lemma_encode_len(cs.drop_first());
        lemma_char_bytes_len(cs[0]);
    }
}


/// The character a byte sequence starts with, when it starts with a well-formed one.
pub fn first_scalar(b: &[u8]) -> (r: Option<(char, usize)>)
    ensures
        r is Some <==> (b@.len() > 0 && valid_first_scalar(b@)),
        r matches Some((c, n)) ==> n == length_of_first_scalar(b@) && c as u32
            == decode_first_scalar(b@) && char_bytes(c) == b@.subrange(0, n as int) && 1 <= n
            <= 4 && n <= b@.len(),
{
    let len = b.len();
    if len == 0 {
        return None;
    }
    let b0 = b[0];
    let ok = if b0 <= 0x7f {
        assert(((b0 & 0x7f) as u32) <= 0x7f) by (bit_vector);
        true
    } else if 0xc0 <= b0 && b0 <= 0xdf {
        if len < 2 || !is_cont(b[1]) {
            false
        } else {
            let b1 = b[1];
            let u = (((b0 & 0x1f) as u32) << 6) | ((b1 & 0x3f) as u32);
            assert(u <= 0x7ff) by (bit_vector)
                requires
                    u == (((b0 & 0x1f) as u32) << 6) | ((b1 & 0x3f) as u32),
            ;
            0x80 <= u
        }
    } else if 0xe0 <= b0 && b0 <= 0xef {
        if len < 3 || !is_cont(b[1]) || !is_cont(b[2]) {
            false
        } else {
            let u = (((b0 & 0x0f) as u32) << 12) | (((b[1] & 0x3f) as u32) << 6) | ((b[2] & 0x3f) as u32);
            0x800 <= u && !(0xd800 <= u && u <= 0xdfff)
        }
    } else if 0xf0 <= b0 && b0 <= 0xf7 {
        if len < 4 || !is_cont(b[1]) || !is_cont(b[2]) || !is_cont(b[3]) {
            false
        } else {
            let u = (((b0 & 0x07) as u32) << 18) | (((b[1] & 0x3f) as u32) << 12) | (((b[2] & 0x3f) as u32) << 6) | ((b[3] & 0x3f) as u32);
            0x10000 <= u && u <= 0x10ffff
        }
    } else {
        false
    };
    if !ok {
        return None;
    }
    proof {
        assert(b@.subrange(0, b@.len() as int) =~= b@);
    }
    let (c, n) = decode_at(b, 0);
    Some((c, n))
}


/// Appends the bytes of `s` to `v`.
pub fn push_str(v: &mut Vec<u8>, s: &str)
    ensures
        final(v)@ == old(v)@ + encode_utf8(s@),
{
    let b = str_bytes(s);
    v.extend_from_slice(b.as_slice());
}

/// Whether `a` and `b` hold the same bytes.
pub fn bytes_eq(a: &[u8], b: &[u8]) -> (r: bool)
    ensures
        r == (a@ == b@),
{
    if a.len() != b.len() {
        return false;
    }
    let mut i: usize = 0;
    while i < a.len()
        invariant
            i <= a@.len() == b@.len(),
            forall|j: int| 0 <= j < i ==> a@[j] == b@[j],
        decreases a@.len() - i,
    {
        if a[i] != b[i] {
            return false;
        }
        i = i + 1;
    }
    assert(a@ =~= b@);
    true
}

/// `needle` occurs in `hay` at `i`.
pub open spec fn occurs_at(hay: Seq<u8>, needle: Seq<u8>, i: int) -> bool {
    0 <= i && i + needle.len() <= hay.len() && hay.subrange(i, i + needle.len()) == needle
}

fn occurs_at_exec(hay: &Vec<u8>, needle: &Vec<u8>, i: usize) -> (r: bool)
    requires
        i <= hay@.len(),
    ensures
        r == occurs_at(hay@, needle@, i as int),
{
    let hl = hay.len();
    if needle.len() > hl - i {
        return false;
    }
    let mut k: usize = 0;
    while k < needle.len()
        invariant
            hl == hay@.len(),
            k <= needle@.len(),
            i + needle@.len() <= hay@.len(),
            forall|j: int| 0 <= j < k ==> hay@[i + j] == needle@[j],
        decreases needle@.len() - k,
    {
        if hay[i + k] != needle[k] {
            assert(hay@.subrange(i as int, i + needle@.len())[k as int] != needle@[k as int]);
            return false;
        }
        k = k + 1;
    }
    assert(hay@.subrange(i as int, i + needle@.len()) =~= needle@);
    true
}

/// The first occurrence of `needle` in `hay` at or after `from`.
pub fn find_from(hay: &Vec<u8>, needle: &Vec<u8>, from: usize) -> (r: Option<usize>)
    requires
        from <= hay@.len(),
    ensures
        r matches Some(i) ==> from <= i && occurs_at(hay@, needle@, i as int) && forall|j: int|
            from <= j < i ==> !occurs_at(hay@, needle@, j),
        r is None ==> forall|j: int| from <= j <= hay@.len() ==> !occurs_at(hay@, needle@, j),
{
    let mut i = from;
    while i <= hay.len()
        invariant
            from <= i,
            i <= hay@.len() + 1,
            forall|j: int| from <= j < i ==> !occurs_at(hay@, needle@, j),
        decreases hay@.len() + 1 - i,
    {
        if occurs_at_exec(hay, needle, i) {
            return Some(i);
        }
        if i == hay.len() {
            return None;
        }
        i = i + 1;
    }
    None
}

/// The last occurrence of `needle` that ends at or before `end`.
pub fn rfind_before(hay: &Vec<u8>, needle: &Vec<u8>, end: usize) -> (r: Option<usize>)
    requires
        end <= hay@.len(),
    ensures
        r matches Some(i) ==> i + needle@.len() <= end && occurs_at(hay@, needle@, i as int)
            && forall|j: int| i < j && j + needle@.len() <= end ==> !occurs_at(hay@, needle@, j),
        r is None ==> forall|j: int| 0 <= j && j + needle@.len() <= end ==> !occurs_at(hay@, needle@, j),
{
    if needle.len() > end {
        return None;
    }
    let mut i = end - needle.len();
    loop
        invariant
            i + needle@.len() <= end <= hay@.len(),
            forall|j: int| i < j && j + needle@.len() <= end ==> !occurs_at(hay@, needle@, j),
        decreases i,
    {
        if occurs_at_exec(hay, needle, i) {
            return Some(i);
        }
        if i == 0 {
            return None;
        }
        i = i - 1;
    }
}

/// Unicode White_Space characters.
pub open spec fn is_ws_spec(c: char) -> bool {
    let u = c as u32;
    (0x09 <= u <= 0x0d) || u == 0x20 || u == 0x85 || u == 0xa0 || u == 0x1680 || (0x2000 <= u
        <= 0x200a) || u == 0x2028 || u == 0x2029 || u == 0x202f || u == 0x205f || u == 0x3000
}

/// The white space that separates Forth words: tab, line feed, vertical tab, form
/// feed, carriage return and space, the no-break and ideographic spaces, the
/// typographic spaces and the line and paragraph separators; no printable ASCII
/// character other than space is white space.
pub proof fn lemma_white_space(c: char)
    ensures
        c == '\t' || c == '\n' || c == '\r' || c == ' ' || (c as u32) == 0x0b || (c as u32) == 0x0c ==> is_ws_spec(c),
        (c as u32) == 0xa0 || (c as u32) == 0x3000 || (c as u32) == 0x2028 || (c as u32) == 0x2029 ==> is_ws_spec(c),
        0x2000 <= (c as u32) <= 0x200a ==> is_ws_spec(c),
        0x21 <= (c as u32) <= 0x7e ==> !is_ws_spec(c),
        (c as u32) == 0x200b ==> !is_ws_spec(c),
{
}

/// Whether `c` is white space.
pub fn is_ws(c: char) -> (r: bool)
    ensures
        r == is_ws_spec(c),
{
    let u = c as u32;
    (0x09 <= u && u <= 0x0d) || u == 0x20 || u == 0x85 || u == 0xa0 || u == 0x1680 || (0x2000 <= u
        && u <= 0x200a) || u == 0x2028 || u == 0x2029 || u == 0x202f || u == 0x205f || u == 0x3000
}

/// Decimal digits of `m`, most significant first.
pub open spec fn digits_spec(m: nat) -> Seq<u8>
    decreases m,
{
    if m < 10 {
        seq![(48 + m) as u8]
    } else {
        digits_spec(m / 10).push((48 + m % 10) as u8)
    }
}

/// Decimal text of `n`, with a leading `-` when negative.
pub open spec fn int_text_spec(n: int) -> Seq<u8> {
    if n < 0 {
        seq![45u8] + digits_spec((-n) as nat)
    } else {
        digits_spec(n as nat)
    }
}

pub proof fn lemma_digits_ascii(m: nat)
    ensures
        forall|i: int| 0 <= i < digits_spec(m).len() ==> 48 <= #[trigger] digits_spec(m)[i] <= 57,
        digits_spec(m).len() >= 1,
    decreases m,
{
    if m >= 10 {
        lemma_digits_ascii(m / 10);
    }
}

fn push_digits(v: &mut Vec<u8>, m: u64)
    ensures
        final(v)@ == old(v)@ + digits_spec(m as nat),
    decreases m,
{
    if m >= 10 {
        push_digits(v, m / 10);
    }
    v.push((48 + m % 10) as u8);
    assert(final(v)@ =~= old(v)@ + digits_spec(m as nat));
}

/// Appends the decimal text of `n`.
pub fn push_int(v: &mut Vec<u8>, n: i64)
    ensures
        final(v)@ == old(v)@ + int_text_spec(n as int),
{
    if n < 0 {
        v.push(45u8);
        let m: u64 = (0i128 - n as i128) as u64;
        push_digits(v, m);
        assert(final(v)@ =~= old(v)@ + int_text_spec(n as int));
    } else {
        push_digits(v, n as u64);
    }
}

/// Decimal text of `n`.
pub fn uint_string(n: usize) -> (r: String)
    ensures
        encode_utf8(r@) == digits_spec(n as nat),
{
    let mut v: Vec<u8> = Vec::new();
    push_digits(&mut v, n as u64);
    proof {
        assert(v@ =~= digits_spec(n as nat));
        lemma_digits_ascii(n as nat);
        lemma_ascii_valid(v@);
    }
    bytes_to_string(v)
}

/// What parsing `s` as a `usize` gives: an optional `+`, then one or more decimal
/// digits and nothing else, in range.
pub open spec fn parse_uint_spec(s: Seq<u8>) -> Option<usize> {
    let d = if s.len() > 0 && s[0] == 43u8 { s.drop_first() } else { s };
    if d.len() == 0 || !all_digits(d) || digits_value(d) > usize::MAX {
        None
    } else {
        Some(digits_value(d) as usize)
    }
}

/// Parses a decimal number the way `usize`'s `FromStr` does.
pub fn parse_uint(s: &[u8]) -> (r: Option<usize>)
    ensures
        r == parse_uint_spec(s@),
{
    let n = s.len();
    let signed = n > 0 && s[0] == 43u8;
    let start: usize = if signed { 1 } else { 0 };
    let ghost d = if signed { s@.drop_first() } else { s@ };
    assert(d =~= s@.subrange(start as int, n as int));
    if start == n {
        return None;
    }
    let mut i = start;
    let mut v: usize = 0;
    let mut over = false;
    while i < n
        invariant
            start <= i <= n == s@.len(),
            d == s@.subrange(start as int, n as int),
            d == (if signed { s@.drop_first() } else { s@ }),
            signed == (s@.len() > 0 && s@[0] == 43u8),
            start == (if signed { 1usize } else { 0usize }),
            all_digits(d.take(i - start)),
            !over ==> v == digits_value(d.take(i - start)),
            over ==> digits_value(d.take(i - start)) > usize::MAX,
        decreases n - i,
    {
        let b = s[i];
        if b < 48 || b > 57 {
            assert(d[i - start] == b);
            assert(!all_digits(d));
            return None;
        }
        proof {
            assert(d.take(i - start + 1).drop_last() =~= d.take(i - start));
            assert(d.take(i - start + 1).last() == b);
            assert(all_digits(d.take(i - start + 1))) by {
                assert forall|j: int| 0 <= j < i - start + 1 implies 48 <= #[trigger] d.take(i - start + 1)[j] <= 57 by {
                    if j < i - start {
                        assert(d.take(i - start + 1)[j] == d.take(i - start)[j]);
                    }
                }
            }
        }
        if !over {
            if v > (usize::MAX - (b - 48) as usize) / 10 {
                over = true;
            } else {
                v = v * 10 + (b - 48) as usize;
            }
        }
        i = i + 1;
    }
    assert(d.take(n - start) =~= d);
    if over {
        return None;
    }
    Some(v)
}

/// Decimal text is plain ASCII, hence valid UTF-8.
pub proof fn lemma_int_text_valid(n: int)
    ensures
        valid_utf8(int_text_spec(n)),
        forall|i: int| 0 <= i < int_text_spec(n).len() ==> #[trigger] int_text_spec(n)[i] < 0x80,
{
    let t = int_text_spec(n);
    if n < 0 {
        lemma_digits_ascii((-n) as nat);
    } else {
        lemma_digits_ascii(n as nat);
    }
    assert forall|i: int| 0 <= i < t.len() implies #[trigger] t[i] < 0x80 by {
        if n < 0 && i > 0 {
            assert(t[i] == digits_spec((-n) as nat)[i - 1]);
        }
    }
    lemma_ascii_valid(t);
}

/// Bytes below 0x80 are valid UTF-8.
pub proof fn lemma_ascii_valid(t: Seq<u8>)
    requires
        forall|i: int| 0 <= i < t.len() ==> #[trigger] t[i] < 0x80,
    ensures
        valid_utf8(t),
    decreases t.len(),
{
    if t.len() > 0 {
        let r = pop_first_scalar(t);
        assert forall|i: int| 0 <= i < r.len() implies #[trigger] r[i] < 0x80 by {
            assert(r[i] == t[i + 1]);
        }
        lemma_ascii_valid(r);
    }
}

/// Value of a run of decimal digits.
pub open spec fn digits_value(d: Seq<u8>) -> nat
    decreases d.len(),
{
    if d.len() == 0 {
        0
    } else {
        digits_value(d.drop_last()) * 10 + (d.last() - 48) as nat
    }
}

pub open spec fn all_digits(d: Seq<u8>) -> bool {
    forall|i: int| 0 <= i < d.len() ==> 48 <= #[trigger] d[i] <= 57
}

/// What parsing `s` as an `i64` gives: an optional sign, then one or more decimal
/// digits and nothing else, in range.
pub open spec fn parse_int_spec(s: Seq<u8>) -> Option<i64> {
    let neg = s.len() > 0 && s[0] == 45u8;
    let signed = s.len() > 0 && (s[0] == 45u8 || s[0] == 43u8);
    let d = if signed { s.drop_first() } else { s };
    if d.len() == 0 || !all_digits(d) {
        None
    } else {
        let v: int = if neg { -(digits_value(d) as int) } else { digits_value(d) as int };
        if i64::MIN <= v <= i64::MAX {
            Some(v as i64)
        } else {
            None
        }
    }
}

pub proof fn lemma_digits_value_mono(d: Seq<u8>, k: int)
    requires
        0 <= k <= d.len(),
        all_digits(d),
    ensures
        digits_value(d.take(k)) <= digits_value(d),
    decreases d.len() - k,
{
    if k < d.len() {
        lemma_digits_value_mono(d, k + 1);
        assert(d.take(k + 1).drop_last() =~= d.take(k));
        assert(48 <= d[k] <= 57);
    } else {
        assert(d.take(k) =~= d);
    }
}

/// The digits of `m` read back as `m`.
pub proof fn lemma_digits_roundtrip(m: nat)
    ensures
        all_digits(digits_spec(m)),
        digits_value(digits_spec(m)) == m,
    decreases m,
{
    lemma_digits_ascii(m);
    if m >= 10 {
        lemma_digits_roundtrip(m / 10);
        let d = digits_spec(m);
        assert(d.drop_last() =~= digits_spec(m / 10));
        assert(d.last() == (48 + m % 10) as u8);
        assert(m == (m / 10) * 10 + m % 10) by {
            vstd::arithmetic::div_mod::lemma_fundamental_div_mod(m as int, 10);
        }
        assert((d.last() - 48) as nat == m % 10);
        assert(digits_value(d) == digits_value(d.drop_last()) * 10 + (d.last() - 48) as nat);
    } else {
        let d = digits_spec(m);
        assert(d.drop_last() =~= Seq::<u8>::empty());
        assert(d.last() == (48 + m) as u8);
        assert(digits_value(d) == digits_value(d.drop_last()) * 10 + (d.last() - 48) as nat);
    }
}

/// Printing an integer in decimal and parsing the text gives the integer back.
pub proof fn lemma_int_text_roundtrip(n: i64)
    ensures
        parse_int_spec(int_text_spec(n as int)) == Some(n),
{
    if n < 0 {
        let m = (-n) as nat;
        lemma_digits_roundtrip(m);
        assert((seq![45u8] + digits_spec(m)).drop_first() =~= digits_spec(m));
    } else {
        lemma_digits_roundtrip(n as nat);
        lemma_digits_ascii(n as nat);
        assert(48 <= digits_spec(n as nat)[0] <= 57);
    }
}

/// Parses a decimal integer the way `i64`'s `FromStr` does.
pub fn parse_int(s: &[u8]) -> (r: Option<i64>)
    ensures
        r == parse_int_spec(s@),
{
    let n = s.len();
    let neg = n > 0 && s[0] == 45u8;
    let signed = n > 0 && (s[0] == 45u8 || s[0] == 43u8);
    let start: usize = if signed { 1 } else { 0 };
    let ghost d = if signed { s@.drop_first() } else { s@ };
    assert(d =~= s@.subrange(start as int, n as int));
    if start == n {
        return None;
    }
    let mut i = start;
    let mut v: u64 = 0;
    let mut over = false;
    while i < n
        invariant
            start <= i <= n == s@.len(),
            d == s@.subrange(start as int, n as int),
            d == (if signed { s@.drop_first() } else { s@ }),
            signed == (s@.len() > 0 && (s@[0] == 45u8 || s@[0] == 43u8)),
            neg == (s@.len() > 0 && s@[0] == 45u8),
            start == (if signed { 1usize } else { 0usize }),
            all_digits(d.take(i - start)),
            !over ==> v == digits_value(d.take(i - start)),
            over ==> digits_value(d.take(i - start)) > u64::MAX,
        decreases n - i,
    {
        let b = s[i];
        if b < 48 || b > 57 {
            assert(d[i - start] == b);
            assert(!all_digits(d));
            return None;
        }
        proof {
            assert(d.take(i - start + 1).drop_last() =~= d.take(i - start));
            assert(d.take(i - start + 1).last() == b);
            assert(all_digits(d.take(i - start + 1))) by {
                assert forall|j: int| 0 <= j < i - start + 1 implies 48 <= #[trigger] d.take(i - start + 1)[j] <= 57 by {
                    if j < i - start {
                        assert(d.take(i - start + 1)[j] == d.take(i - start)[j]);
                    }
                }
            }
        }
        if !over {
            if v > (u64::MAX - (b - 48) as u64) / 10 {
                over = true;
            } else {
                v = v * 10 + (b - 48) as u64;
            }
        }
        i = i + 1;
    }
    assert(d.take(n - start) =~= d);
    if over {
        return None;
    }
    if neg {
        if v <= 9223372036854775808u64 {
            Some((0i128 - v as i128) as i64)
        } else {
            None
        }
    } else {
        if v <= 9223372036854775807u64 {
            Some(v as i64)
        } else {
            None
        }
    }
}


/// A boundary of `v[a..b]` is a boundary of `v`, shifted by `a`.
pub proof fn lemma_sub_boundary_back(v: Seq<u8>, a: int, b: int, j: int)
    requires
        valid_utf8(v),
        0 <= a <= b <= v.len(),
        is_char_boundary(v, a),
        is_char_boundary(v, b),
        0 <= j <= b - a,
        is_char_boundary(v.subrange(a, b), j),
    ensures
        is_char_boundary(v, a + j),
{
    lemma_sub_boundary(v, a, b, a);
    let w = v.subrange(a, b);
    lemma_boundary_byte(w, j);
    lemma_boundary_byte(v, a + j);
    if j < b - a {
        assert(w[j] == v[a + j]);
    }
}

/// The bytes of the first `k` characters of valid `s` are a prefix of `s` that ends
/// at a boundary.
pub proof fn lemma_prefix_boundary(s: Seq<u8>, k: int)
    requires
        valid_utf8(s),
        0 <= k <= decode_utf8(s).len(),
    ensures
        is_char_boundary(s, encode_utf8(decode_utf8(s).take(k)).len() as int),
        s.take(encode_utf8(decode_utf8(s).take(k)).len() as int) == encode_utf8(decode_utf8(s).take(k)),
{
    let cs = decode_utf8(s);
    decode_utf8_encode_utf8(s);
    assert(cs =~= cs.take(k) + cs.skip(k));
    lemma_encode_concat(cs.take(k), cs.skip(k));
    let p = encode_utf8(cs.take(k));
    let q = encode_utf8(cs.skip(k));
    encode_utf8_valid_utf8(cs.take(k));
    encode_utf8_valid_utf8(cs.skip(k));
    is_char_boundary_start_end_of_seq(p);
    lemma_splice_boundary(p, p.len() as int, q, p.len() as int);
    assert(p.subrange(0, p.len() as int) + q + p.subrange(p.len() as int, p.len() as int) =~= s);
    assert(s.take(p.len() as int) =~= p);
}

/// In valid text the byte after an ASCII byte starts a character.
pub proof fn lemma_after_ascii(t: Seq<u8>, k: int)
    requires
        valid_utf8(t),
        0 <= k < t.len(),
        t[k] < 0x80,
    ensures
        is_char_boundary(t, k + 1),
{
    lemma_boundary_byte(t, k);
    lemma_boundary_byte(t, k + 1);
    if k + 1 < t.len() {
        valid_utf8_split(t, k);
        let w = t.subrange(k, t.len() as int);
        lemma_valid_first(w);
        assert(w[0] == t[k]);
        assert(length_of_first_scalar(w) == 1);
        let rest = pop_first_scalar(w);
        assert(rest[0] == t[k + 1]);
        lemma_valid_starts(rest);
    }
}

/// Where valid `needle` occurs inside valid `hay` at a boundary `i`, it also ends at
/// a boundary.
pub proof fn lemma_match_end(hay: Seq<u8>, needle: Seq<u8>, i: int)
    requires
        valid_utf8(hay),
        valid_utf8(needle),
        occurs_at(hay, needle, i),
        is_char_boundary(hay, i),
    ensures
        is_char_boundary(hay, i + needle.len()),
    decreases needle.len(),
{
    if needle.len() > 0 {
        valid_utf8_split(hay, i);
        let w = hay.subrange(i, hay.len() as int);
        lemma_valid_first(w);
        lemma_valid_first(needle);
        assert(w[0] == needle[0]);
        let l = length_of_first_scalar(needle);
        assert(length_of_first_scalar(w) == l);
        let rest = pop_first_scalar(w);
        lemma_boundary_byte(hay, i + l);
        if i + l < hay.len() {
            assert(rest[0] == hay[i + l]);
            lemma_valid_starts(rest);
        }
        let nrest = pop_first_scalar(needle);
        assert(hay.subrange(i + l, i + l + nrest.len()) =~= nrest) by {
            assert forall|k: int| 0 <= k < nrest.len() implies hay.subrange(i + l, i + l + nrest.len())[k] == nrest[k] by {
                assert(nrest[k] == needle[l + k]);
                assert(needle[l + k] == hay.subrange(i, i + needle.len())[l + k]);
            }
        }
        lemma_match_end(hay, nrest, i + l);
    }
}

/// Where valid non-empty `needle` occurs in valid `hay`, the match starts and ends
/// at boundaries.
pub proof fn lemma_match_boundaries(hay: Seq<u8>, needle: Seq<u8>, i: int)
    requires
        valid_utf8(hay),
        valid_utf8(needle),
        needle.len() > 0,
        occurs_at(hay, needle, i),
    ensures
        is_char_boundary(hay, i),
        is_char_boundary(hay, i + needle.len()),
{
    lemma_valid_starts(needle);
    assert(hay[i] == needle[0]);
    lemma_boundary_byte(hay, i);
    lemma_match_end(hay, needle, i);
}

/// In valid text, an offset is a boundary exactly when it is an end or the byte
/// there is not a continuation byte.
pub proof fn lemma_boundary_byte(t: Seq<u8>, k: int)
    requires
        valid_utf8(t),
        0 <= k <= t.len(),
    ensures
        is_char_boundary(t, k) <==> (k == t.len() || !is_continuation_byte(t[k])),
{
    is_char_boundary_start_end_of_seq(t);
    if k < t.len() {
        is_char_boundary_iff_not_is_continuation_byte(t, k);
    }
}

/// Valid non-empty text does not start with a continuation byte.
pub proof fn lemma_valid_starts(t: Seq<u8>)
    requires
        valid_utf8(t),
        t.len() > 0,
    ensures
        !is_continuation_byte(t[0]),
{
    is_char_boundary_start_end_of_seq(t);
    is_char_boundary_iff_not_is_continuation_byte(t, 0);
}

/// Where the boundaries of a splice lie.
pub proof fn lemma_splice_boundary(t: Seq<u8>, at: int, s: Seq<u8>, k: int)
    requires
        valid_utf8(t),
        valid_utf8(s),
        0 <= at <= t.len(),
        is_char_boundary(t, at),
        0 <= k <= t.len(),
        is_char_boundary(t, k),
    ensures
        valid_utf8(t.subrange(0, at) + s + t.subrange(at, t.len() as int)),
        k <= at ==> is_char_boundary(t.subrange(0, at) + s + t.subrange(at, t.len() as int), k),
        k >= at ==> is_char_boundary(t.subrange(0, at) + s + t.subrange(at, t.len() as int), k + s.len()),
{
    let n = t.subrange(0, at) + s + t.subrange(at, t.len() as int);
    lemma_splice_valid(t, at, s);
    lemma_boundary_byte(t, k);
    if k <= at {
        lemma_boundary_byte(n, k);
        if k < at {
            assert(n[k] == t[k]);
        } else if s.len() > 0 {
            lemma_valid_starts(s);
            assert(n[k] == s[0]);
        } else if k < t.len() {
            assert(n[k] == t[k]);
        }
    }
    if k >= at {
        lemma_boundary_byte(n, k + s.len());
        if k < t.len() {
            assert(n[k + s.len()] == t[k]);
        }
    }
}

/// Where the boundaries of a cut lie.
pub proof fn lemma_cut_boundary(t: Seq<u8>, a: int, b: int, k: int)
    requires
        valid_utf8(t),
        0 <= a <= b <= t.len(),
        is_char_boundary(t, a),
        is_char_boundary(t, b),
        0 <= k <= t.len(),
        is_char_boundary(t, k),
    ensures
        valid_utf8(t.subrange(0, a) + t.subrange(b, t.len() as int)),
        k <= a ==> is_char_boundary(t.subrange(0, a) + t.subrange(b, t.len() as int), k),
        k >= b ==> is_char_boundary(t.subrange(0, a) + t.subrange(b, t.len() as int), k - (b - a)),
{
    let n = t.subrange(0, a) + t.subrange(b, t.len() as int);
    lemma_cut_valid(t, a, b);
    lemma_boundary_byte(t, k);
    lemma_boundary_byte(t, b);
    if k <= a {
        lemma_boundary_byte(n, k);
        if k < a {
            assert(n[k] == t[k]);
        } else if b < t.len() {
            assert(n[k] == t[b]);
        }
    }
    if k >= b {
        lemma_boundary_byte(n, k - (b - a));
        if k < t.len() {
            assert(n[k - (b - a)] == t[k]);
        }
    }
}

} // verus!
