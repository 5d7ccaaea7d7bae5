//! The piece table: an immutable original text plus an append-only add buffer,
//! with the document described as a sequence of pieces over the two.
use vstd::prelude::*;
use vstd::utf8::*;
use vstd::string::*;
use crate::encoding::{
    NL, lemma_count_nl_step, lemma_count_nl_zero, lemma_first_scalar_prefix, lemma_valid_first, is_cont,
    decode_at, char_bytes, char_len,
    count_nl, lemma_count_nl_concat, lemma_count_nl_bound, count_nl_in, string_bytes, str_bytes,
    bytes_to_string, lemma_sub_boundary, lemma_splice_valid, lemma_cut_valid, lemma_char_bytes_len,
    lemma_encode_concat, lemma_encode_single,
};

verus! {

broadcast use vstd::seq::group_seq_axioms;

#[derive(Clone, Copy, PartialEq, Eq, Structural)]
enum Src {
    Original,
    Add,
}

#[derive(Clone, Copy)]
struct Piece {
    src: Src,
    start: usize,
    len: usize,
    newlines: usize,
}

/// A text document stored as pieces over two byte buffers.
pub struct PieceTable {
    original: Vec<u8>,
    add: Vec<u8>,
    pieces: Vec<Piece>,
    len: usize,
}

/// `t` with `s` spliced in at `at`.
pub open spec fn spliced(t: Seq<u8>, at: int, s: Seq<u8>) -> Seq<u8> {
    t.subrange(0, at) + s + t.subrange(at, t.len() as int)
}

/// Where line `line` of `t` starts: zero for the first line, the byte after the
/// `line`-th newline, or the end when there are fewer newlines.
pub open spec fn is_line_start(t: Seq<u8>, line: int, r: int) -> bool {
    if line == 0 {
        r == 0
    } else if line > count_nl(t) {
        r == t.len()
    } else {
        0 < r <= t.len() && t[r - 1] == NL && count_nl(t.take(r)) == line
    }
}

/// The first newline at or after `from`, or the end.
pub open spec fn is_next_newline(t: Seq<u8>, from: int, r: int) -> bool {
    if from >= t.len() {
        r == t.len()
    } else {
        &&& from <= r <= t.len()
        &&& r < t.len() ==> t[r] == NL
        &&& forall|i: int| from <= i < r ==> t[i] != NL
    }
}

/// `t` without the bytes `[a, b)`.
pub open spec fn cut(t: Seq<u8>, a: int, b: int) -> Seq<u8> {
    t.subrange(0, a) + t.subrange(b, t.len() as int)
}

/// The character whose encoding starts at byte `at` of `t`.
pub open spec fn char_at_spec(t: Seq<u8>, at: int) -> char {
    decode_utf8(t.subrange(at, t.len() as int))[0]
}

spec fn hi(start: int, end: int, off: int) -> int {
    if off <= start {
        start
    } else if end < off {
        end
    } else {
        off
    }
}

spec fn source(orig: Seq<u8>, add: Seq<u8>, src: Src) -> Seq<u8> {
    match src {
        Src::Original => orig,
        Src::Add => add,
    }
}

spec fn piece_text(orig: Seq<u8>, add: Seq<u8>, p: Piece) -> Seq<u8> {
    source(orig, add, p.src).subrange(p.start as int, p.start + p.len)
}

spec fn concat(orig: Seq<u8>, add: Seq<u8>, ps: Seq<Piece>) -> Seq<u8>
    decreases ps.len(),
{
    if ps.len() == 0 {
        Seq::empty()
    } else {
        concat(orig, add, ps.drop_last()) + piece_text(orig, add, ps.last())
    }
}

spec fn piece_ok(orig: Seq<u8>, add: Seq<u8>, p: Piece) -> bool {
    &&& p.len > 0
    &&& p.start + p.len <= source(orig, add, p.src).len()
    &&& p.newlines == count_nl(piece_text(orig, add, p))
}

spec fn all_ok(orig: Seq<u8>, add: Seq<u8>, ps: Seq<Piece>) -> bool {
    forall|i: int| 0 <= i < ps.len() ==> piece_ok(orig, add, #[trigger] ps[i])
}

proof fn lemma_concat_single(orig: Seq<u8>, add: Seq<u8>, p: Piece)
    ensures
        concat(orig, add, seq![p]) == piece_text(orig, add, p),
{
    reveal_with_fuel(concat, 2);
    assert(seq![p].drop_last() =~= Seq::<Piece>::empty());
    assert(concat(orig, add, seq![p]) =~= piece_text(orig, add, p));
}

proof fn lemma_concat_append(orig: Seq<u8>, add: Seq<u8>, a: Seq<Piece>, b: Seq<Piece>)
    ensures
        concat(orig, add, a + b) == concat(orig, add, a) + concat(orig, add, b),
    decreases b.len(),
{
    if b.len() == 0 {
        assert(a + b =~= a);
        assert(concat(orig, add, a) + concat(orig, add, b) =~= concat(orig, add, a));
    } else {
        lemma_concat_append(orig, add, a, b.drop_last());
        assert((a + b).drop_last() =~= a + b.drop_last());
        assert((a + b).last() == b.last());
        assert(concat(orig, add, a + b) =~= concat(orig, add, a) + concat(orig, add, b));
    }
}

proof fn lemma_concat_len(orig: Seq<u8>, add: Seq<u8>, ps: Seq<Piece>)
    requires
        all_ok(orig, add, ps),
    ensures
        concat(orig, add, ps).len() >= ps.len(),
    decreases ps.len(),
{
    if ps.len() > 0 {
        assert(all_ok(orig, add, ps.drop_last())) by {
            assert forall|i: int| 0 <= i < ps.drop_last().len() implies piece_ok(
                orig,
                add,
                #[trigger] ps.drop_last()[i],
            ) by {
                assert(ps.drop_last()[i] == ps[i]);
            }
        }
        lemma_concat_len(orig, add, ps.drop_last());
        assert(piece_ok(orig, add, ps[ps.len() - 1]));
    }
}

/// Pieces that only reach into the first part of the add buffer read the same
/// bytes after the add buffer grows.
proof fn lemma_concat_add_grows(orig: Seq<u8>, add: Seq<u8>, add2: Seq<u8>, ps: Seq<Piece>)
    requires
        all_ok(orig, add, ps),
        add.len() <= add2.len(),
        add2.subrange(0, add.len() as int) == add,
    ensures
        concat(orig, add2, ps) == concat(orig, add, ps),
        all_ok(orig, add2, ps),
    decreases ps.len(),
{
    if ps.len() > 0 {
        let q = ps.drop_last();
        assert(all_ok(orig, add, q)) by {
            assert forall|i: int| 0 <= i < q.len() implies piece_ok(orig, add, #[trigger] q[i]) by {
                assert(q[i] == ps[i]);
            }
        }
        lemma_concat_add_grows(orig, add, add2, q);
        let p = ps.last();
        assert(piece_ok(orig, add, ps[ps.len() - 1]));
        assert(piece_text(orig, add2, p) =~= piece_text(orig, add, p));
        assert forall|i: int| 0 <= i < ps.len() implies piece_ok(orig, add2, #[trigger] ps[i]) by {
            assert(piece_ok(orig, add, ps[i]));
            assert(piece_text(orig, add2, ps[i]) =~= piece_text(orig, add, ps[i]));
        }
    }
}

/// The document around piece `i`: what comes before it, its bytes, what comes after.
proof fn lemma_concat_around(orig: Seq<u8>, add: Seq<u8>, ps: Seq<Piece>, i: int)
    requires
        0 <= i < ps.len(),
    ensures
        concat(orig, add, ps) == concat(orig, add, ps.take(i)) + piece_text(orig, add, ps[i])
            + concat(orig, add, ps.skip(i + 1)),
        concat(orig, add, ps.take(i + 1)) == concat(orig, add, ps.take(i)) + piece_text(
            orig,
            add,
            ps[i],
        ),
{
    assert(ps =~= ps.take(i) + seq![ps[i]] + ps.skip(i + 1));
    lemma_concat_append(orig, add, ps.take(i) + seq![ps[i]], ps.skip(i + 1));
    lemma_concat_append(orig, add, ps.take(i), seq![ps[i]]);
    lemma_concat_single(orig, add, ps[i]);
    assert(ps.take(i + 1) =~= ps.take(i) + seq![ps[i]]);
}

proof fn lemma_concat3(
    orig: Seq<u8>,
    add: Seq<u8>,
    a: Seq<Piece>,
    b: Seq<Piece>,
    c: Seq<Piece>,
)
    ensures
        concat(orig, add, a + b + c) == concat(orig, add, a) + concat(orig, add, b) + concat(
            orig,
            add,
            c,
        ),
{
    lemma_concat_append(orig, add, a + b, c);
    lemma_concat_append(orig, add, a, b);
}

proof fn lemma_concat_two(orig: Seq<u8>, add: Seq<u8>, x: Piece, y: Piece)
    ensures
        concat(orig, add, seq![x, y]) == piece_text(orig, add, x) + piece_text(orig, add, y),
{
    assert(seq![x, y] =~= seq![x] + seq![y]);
    lemma_concat_append(orig, add, seq![x], seq![y]);
    lemma_concat_single(orig, add, x);
    lemma_concat_single(orig, add, y);
}

proof fn lemma_concat_update(orig: Seq<u8>, add: Seq<u8>, ps: Seq<Piece>, i: int, x: Piece)
    requires
        0 <= i < ps.len(),
        all_ok(orig, add, ps),
        piece_ok(orig, add, x),
    ensures
        concat(orig, add, ps.update(i, x)) == concat(orig, add, ps.take(i)) + piece_text(orig, add, x)
            + concat(orig, add, ps.skip(i + 1)),
        all_ok(orig, add, ps.update(i, x)),
{
    assert(ps.update(i, x) =~= ps.take(i) + seq![x] + ps.skip(i + 1));
    lemma_concat3(orig, add, ps.take(i), seq![x], ps.skip(i + 1));
    lemma_concat_single(orig, add, x);
    assert forall|j: int| 0 <= j < ps.len() implies piece_ok(orig, add, #[trigger] ps.update(i, x)[j]) by {
        if j != i {
            assert(ps.update(i, x)[j] == ps[j]);
        }
    }
}

proof fn lemma_concat_insert(orig: Seq<u8>, add: Seq<u8>, ps: Seq<Piece>, i: int, x: Piece)
    requires
        0 <= i <= ps.len(),
        all_ok(orig, add, ps),
        piece_ok(orig, add, x),
    ensures
        concat(orig, add, ps.insert(i, x)) == concat(orig, add, ps.take(i)) + piece_text(orig, add, x)
            + concat(orig, add, ps.skip(i)),
        all_ok(orig, add, ps.insert(i, x)),
{
    assert(ps.insert(i, x) =~= ps.take(i) + seq![x] + ps.skip(i));
    lemma_concat3(orig, add, ps.take(i), seq![x], ps.skip(i));
    lemma_concat_single(orig, add, x);
    assert forall|j: int| 0 <= j < ps.len() + 1 implies piece_ok(orig, add, #[trigger] ps.insert(i, x)[j]) by {
        if j < i {
            assert(ps.insert(i, x)[j] == ps[j]);
        } else if j > i {
            assert(ps.insert(i, x)[j] == ps[j - 1]);
        }
    }
}

proof fn lemma_concat_prefix(orig: Seq<u8>, add: Seq<u8>, ps: Seq<Piece>, i: int)
    requires
        0 <= i <= ps.len(),
    ensures
        concat(orig, add, ps) == concat(orig, add, ps.take(i)) + concat(orig, add, ps.skip(i)),
{
    assert(ps =~= ps.take(i) + ps.skip(i));
    lemma_concat_append(orig, add, ps.take(i), ps.skip(i));
}

spec fn nl_sum(ps: Seq<Piece>) -> nat
    decreases ps.len(),
{
    if ps.len() == 0 {
        0
    } else {
        nl_sum(ps.drop_last()) + ps.last().newlines as nat
    }
}

proof fn lemma_nl_sum(orig: Seq<u8>, add: Seq<u8>, ps: Seq<Piece>)
    requires
        all_ok(orig, add, ps),
    ensures
        nl_sum(ps) == count_nl(concat(orig, add, ps)),
    decreases ps.len(),
{
    if ps.len() > 0 {
        let q = ps.drop_last();
        assert(all_ok(orig, add, q)) by {
            assert forall|i: int| 0 <= i < q.len() implies piece_ok(orig, add, #[trigger] q[i]) by {
                assert(q[i] == ps[i]);
            }
        }
        lemma_nl_sum(orig, add, q);
        assert(piece_ok(orig, add, ps[ps.len() - 1]));
        lemma_count_nl_concat(concat(orig, add, q), piece_text(orig, add, ps.last()));
    }
}

proof fn lemma_insert_coalesce(
    o: Seq<u8>,
    a: Seq<u8>,
    ps: Seq<Piece>,
    i: int,
    np: Piece,
    bytes: Seq<u8>,
    p0: int,
)
    requires
        all_ok(o, a, ps),
        0 < i <= ps.len(),
        piece_ok(o, a, np),
        piece_text(o, a, np) == piece_text(o, a, ps[i - 1]) + bytes,
        concat(o, a, ps.take(i)).len() == p0,
    ensures
        concat(o, a, ps.update(i - 1, np)) == spliced(concat(o, a, ps), p0, bytes),
        all_ok(o, a, ps.update(i - 1, np)),
{
    let v0 = concat(o, a, ps);
    lemma_concat_update(o, a, ps, i - 1, np);
    lemma_concat_around(o, a, ps, i - 1);
    assert(ps.take(i - 1 + 1) =~= ps.take(i));
    lemma_concat_prefix(o, a, ps, i);
    assert(ps.skip(i - 1 + 1) =~= ps.skip(i));
    assert(v0.subrange(0, p0) =~= concat(o, a, ps.take(i)));
    assert(v0.subrange(p0, v0.len() as int) =~= concat(o, a, ps.skip(i)));
    assert(concat(o, a, ps.update(i - 1, np)) =~= spliced(v0, p0, bytes));
}

proof fn lemma_insert_between(
    o: Seq<u8>,
    a: Seq<u8>,
    ps: Seq<Piece>,
    i: int,
    piece: Piece,
    bytes: Seq<u8>,
    p0: int,
)
    requires
        all_ok(o, a, ps),
        0 <= i <= ps.len(),
        piece_ok(o, a, piece),
        piece_text(o, a, piece) == bytes,
        concat(o, a, ps.take(i)).len() == p0,
    ensures
        concat(o, a, ps.insert(i, piece)) == spliced(concat(o, a, ps), p0, bytes),
        all_ok(o, a, ps.insert(i, piece)),
{
    let v0 = concat(o, a, ps);
    lemma_concat_insert(o, a, ps, i, piece);
    lemma_concat_prefix(o, a, ps, i);
    assert(v0.subrange(0, p0) =~= concat(o, a, ps.take(i)));
    assert(v0.subrange(p0, v0.len() as int) =~= concat(o, a, ps.skip(i)));
    assert(concat(o, a, ps.insert(i, piece)) =~= spliced(v0, p0, bytes));
}

#[verifier::spinoff_prover]
#[verifier::rlimit(40)]
proof fn lemma_insert_inside(
    o: Seq<u8>,
    a: Seq<u8>,
    ps: Seq<Piece>,
    sps: Seq<Piece>,
    i: int,
    off: int,
    piece: Piece,
    bytes: Seq<u8>,
    p0: int,
)
    requires
        all_ok(o, a, ps),
        all_ok(o, a, sps),
        0 <= i < ps.len(),
        0 < off < ps[i].len,
        sps.len() == ps.len() + 1,
        sps.take(i) == ps.take(i),
        sps.skip(i + 2) == ps.skip(i + 1),
        piece_text(o, a, sps[i]) == piece_text(o, a, ps[i]).subrange(0, off),
        piece_text(o, a, sps[i + 1]) == piece_text(o, a, ps[i]).subrange(off, ps[i].len as int),
        piece_ok(o, a, piece),
        piece_text(o, a, piece) == bytes,
        concat(o, a, ps.take(i)).len() + off == p0,
    ensures
        concat(o, a, sps.insert(i + 1, piece)) == spliced(concat(o, a, ps), p0, bytes),
        all_ok(o, a, sps.insert(i + 1, piece)),
{
    let v0 = concat(o, a, ps);
    let t = piece_text(o, a, ps[i]);
    assert(piece_ok(o, a, ps[i]));
    lemma_concat_insert(o, a, sps, i + 1, piece);
    lemma_concat_around(o, a, ps, i);
    assert(sps.take(i + 1) =~= ps.take(i).push(sps[i]));
    assert(ps.take(i).push(sps[i]) =~= ps.take(i) + seq![sps[i]]);
    lemma_concat_append(o, a, ps.take(i), seq![sps[i]]);
    lemma_concat_single(o, a, sps[i]);
    assert(sps.skip(i + 1) =~= seq![sps[i + 1]] + ps.skip(i + 1));
    lemma_concat_append(o, a, seq![sps[i + 1]], ps.skip(i + 1));
    lemma_concat_single(o, a, sps[i + 1]);
    assert(v0.subrange(0, p0) =~= concat(o, a, ps.take(i)) + t.subrange(0, off));
    assert(v0.subrange(p0, v0.len() as int) =~= t.subrange(off, t.len() as int) + concat(
        o,
        a,
        ps.skip(i + 1),
    ));
    assert(concat(o, a, sps.insert(i + 1, piece)) =~= spliced(v0, p0, bytes));
}

proof fn lemma_skip_first(o: Seq<u8>, a: Seq<u8>, ps: Seq<Piece>, i: int)
    requires
        0 <= i <= ps.len(),
    ensures
        i < ps.len() ==> concat(o, a, ps.skip(i)) == piece_text(o, a, ps[i]) + concat(
            o,
            a,
            ps.skip(i + 1),
        ),
        i == ps.len() ==> concat(o, a, ps.skip(i)).len() == 0,
{
    if i < ps.len() {
        assert(ps.skip(i) =~= seq![ps[i]] + ps.skip(i + 1));
        lemma_concat_append(o, a, seq![ps[i]], ps.skip(i + 1));
        lemma_concat_single(o, a, ps[i]);
    } else {
        assert(ps.skip(i) =~= Seq::<Piece>::empty());
    }
}

/// One step of deleting `remaining` bytes starting at piece `i`: drop the piece.
proof fn lemma_delete_drop(o: Seq<u8>, a: Seq<u8>, ps: Seq<Piece>, i: int, rest: Seq<u8>)
    requires
        all_ok(o, a, ps),
        0 <= i < ps.len(),
        concat(o, a, ps.skip(i)) == rest,
    ensures
        ps.remove(i).take(i) == ps.take(i),
        concat(o, a, ps.remove(i).skip(i)) == rest.subrange(ps[i].len as int, rest.len() as int),
        all_ok(o, a, ps.remove(i)),
{
    assert(piece_ok(o, a, ps[i]));
    lemma_skip_first(o, a, ps, i);
    assert(ps.remove(i).take(i) =~= ps.take(i));
    assert(ps.remove(i).skip(i) =~= ps.skip(i + 1));
    assert(rest.subrange(ps[i].len as int, rest.len() as int) =~= concat(o, a, ps.skip(i + 1)));
    assert forall|j: int| 0 <= j < ps.len() - 1 implies piece_ok(o, a, #[trigger] ps.remove(i)[j]) by {
        if j < i {
            assert(ps.remove(i)[j] == ps[j]);
        } else {
            assert(ps.remove(i)[j] == ps[j + 1]);
        }
    }
}

/// One step of deleting: cut the first `k` bytes off piece `i`.
proof fn lemma_delete_trim(
    o: Seq<u8>,
    a: Seq<u8>,
    ps: Seq<Piece>,
    i: int,
    np: Piece,
    k: int,
    rest: Seq<u8>,
)
    requires
        all_ok(o, a, ps),
        0 <= i < ps.len(),
        0 < k < ps[i].len,
        piece_ok(o, a, np),
        piece_text(o, a, np) == piece_text(o, a, ps[i]).subrange(k, ps[i].len as int),
        concat(o, a, ps.skip(i)) == rest,
    ensures
        ps.update(i, np).take(i) == ps.take(i),
        concat(o, a, ps.update(i, np).skip(i)) == rest.subrange(k, rest.len() as int),
        all_ok(o, a, ps.update(i, np)),
{
    assert(piece_ok(o, a, ps[i]));
    lemma_skip_first(o, a, ps, i);
    lemma_concat_update(o, a, ps, i, np);
    let nps = ps.update(i, np);
    assert(nps.take(i) =~= ps.take(i));
    lemma_skip_first(o, a, nps, i);
    assert(nps.skip(i + 1) =~= ps.skip(i + 1));
    assert(rest.subrange(k, rest.len() as int) =~= piece_text(o, a, np) + concat(o, a, ps.skip(i + 1)));
}

proof fn lemma_delete_split_start(
    o: Seq<u8>,
    a: Seq<u8>,
    ps: Seq<Piece>,
    sps: Seq<Piece>,
    i: int,
    off: int,
    start: int,
)
    requires
        all_ok(o, a, ps),
        0 <= i < ps.len(),
        0 < off < ps[i].len,
        sps.len() == ps.len() + 1,
        sps.take(i) == ps.take(i),
        sps.skip(i + 2) == ps.skip(i + 1),
        piece_text(o, a, sps[i]) == piece_text(o, a, ps[i]).subrange(0, off),
        piece_text(o, a, sps[i + 1]) == piece_text(o, a, ps[i]).subrange(off, ps[i].len as int),
        concat(o, a, ps.take(i)).len() + off == start,
    ensures
        concat(o, a, sps.take(i + 1)) == concat(o, a, ps).subrange(0, start),
        concat(o, a, sps.skip(i + 1)) == concat(o, a, ps).subrange(start, concat(o, a, ps).len() as int),
{
    let v0 = concat(o, a, ps);
    let t = piece_text(o, a, ps[i]);
    assert(piece_ok(o, a, ps[i]));
    lemma_concat_around(o, a, ps, i);
    assert(sps.take(i + 1) =~= ps.take(i) + seq![sps[i]]);
    lemma_concat_append(o, a, ps.take(i), seq![sps[i]]);
    lemma_concat_single(o, a, sps[i]);
    assert(sps.skip(i + 1) =~= seq![sps[i + 1]] + ps.skip(i + 1));
    lemma_concat_append(o, a, seq![sps[i + 1]], ps.skip(i + 1));
    lemma_concat_single(o, a, sps[i + 1]);
    assert(v0.subrange(0, start) =~= concat(o, a, ps.take(i)) + t.subrange(0, off));
    assert(v0.subrange(start, v0.len() as int) =~= t.subrange(off, t.len() as int) + concat(
        o,
        a,
        ps.skip(i + 1),
    ));
}

impl View for PieceTable {
    type V = Seq<u8>;

    /// The document's bytes.
    closed spec fn view(&self) -> Seq<u8> {
        concat(self.original@, self.add@, self.pieces@)
    }
}

impl PieceTable {
    /// The table is well formed: every piece lies inside its buffer, is non-empty and
    /// knows its newline count; the cached length is right; the text is valid UTF-8.
    pub closed spec fn wf(&self) -> bool {
        &&& all_ok(self.original@, self.add@, self.pieces@)
        &&& self.len == self@.len()
        &&& self.len < usize::MAX
        &&& valid_utf8(self@)
    }

    spec fn text_of(&self, p: Piece) -> Seq<u8> {
        piece_text(self.original@, self.add@, p)
    }

    /// Offset in the document at which piece `i` starts.
    spec fn off(&self, i: int) -> int {
        concat(self.original@, self.add@, self.pieces@.take(i)).len() as int
    }

    proof fn lemma_piece_in_view(&self, i: int)
        requires
            all_ok(self.original@, self.add@, self.pieces@),
            0 <= i < self.pieces@.len(),
        ensures
            self.off(i + 1) == self.off(i) + self.pieces@[i].len,
            self.off(i + 1) <= self@.len(),
            self@.subrange(self.off(i), self.off(i + 1)) == self.text_of(self.pieces@[i]),
            self@.subrange(0, self.off(i)) == concat(
                self.original@,
                self.add@,
                self.pieces@.take(i),
            ),
    {
        let o = self.original@;
        let a = self.add@;
        let ps = self.pieces@;
        lemma_concat_around(o, a, ps, i);
        assert(piece_ok(o, a, ps[i]));
        let pre = concat(o, a, ps.take(i));
        let t = piece_text(o, a, ps[i]);
        let post = concat(o, a, ps.skip(i + 1));
        assert(self@ == pre + t + post);
        assert(self@.subrange(self.off(i), self.off(i + 1)) =~= t);
        assert(self@.subrange(0, self.off(i)) =~= pre);
    }

    proof fn lemma_off_ends(&self)
        ensures
            self.off(0) == 0,
            self.off(self.pieces@.len() as int) == self@.len(),
    {
        assert(self.pieces@.take(0) =~= Seq::<Piece>::empty());
        assert(self.pieces@.take(self.pieces@.len() as int) =~= self.pieces@);
    }

    proof fn lemma_off_mono(&self, i: int, j: int)
        requires
            all_ok(self.original@, self.add@, self.pieces@),
            0 <= i <= j <= self.pieces@.len(),
        ensures
            self.off(i) <= self.off(j),
            self.off(i) < self.off(j) || i == j,
        decreases j - i,
    {
        if i < j {
            self.lemma_off_mono(i, j - 1);
            self.lemma_piece_in_view(j - 1);
            assert(piece_ok(self.original@, self.add@, self.pieces@[j - 1]));
        }
    }

    /// Creates a table over `original`.
    pub fn new(original: String) -> (r: PieceTable)
        requires
            encode_utf8(original@).len() < usize::MAX,
        ensures
            r.wf(),
            r@ == encode_utf8(original@),
    {
        let original = string_bytes(&original);
        let len = original.len();
        let mut pieces: Vec<Piece> = Vec::new();
        if len > 0 {
            let n = count_nl_in(&original, 0, len);
            pieces.push(Piece { src: Src::Original, start: 0, len, newlines: n });
        }
        let r = PieceTable { original, add: Vec::new(), pieces, len };
        proof {
            if len > 0 {
                assert(r.pieces@ =~= seq![r.pieces@[0]]);
                lemma_concat_single(r.original@, r.add@, r.pieces@[0]);
                assert(original@.subrange(0, len as int) =~= original@);
            } else {
                assert(original@ =~= Seq::<u8>::empty());
            }
        }
        r
    }

    /// A well-formed table holds valid UTF-8 and its length leaves room for one more byte.
    pub proof fn lemma_wf(&self)
        requires
            self.wf(),
        ensures
            valid_utf8(self@),
            self@.len() < usize::MAX,
            is_char_boundary(self@, 0),
            is_char_boundary(self@, self@.len() as int),
    {
        is_char_boundary_start_end_of_seq(self@);
    }

    /// The bytes the table was made over; edits never change them.
    pub closed spec fn original_spec(&self) -> Seq<u8> {
        self.original@
    }

    /// The bytes inserted so far, in order; edits only ever append to them.
    pub closed spec fn add_spec(&self) -> Seq<u8> {
        self.add@
    }

    /// Number of pieces the document is made of.
    pub closed spec fn piece_count_spec(&self) -> nat {
        self.pieces@.len()
    }

    /// Number of pieces the document is made of.
    pub fn piece_count(&self) -> (r: usize)
        ensures
            r == self.piece_count_spec(),
    {
        self.pieces.len()
    }

    /// Length of the document in bytes.
    pub fn len(&self) -> (r: usize)
        requires
            self.wf(),
        ensures
            r == self@.len(),
    {
        self.len
    }

    fn source(&self, src: Src) -> (r: &Vec<u8>)
        ensures
            r@ == source(self.original@, self.add@, src),
    {
        match src {
            Src::Original => &self.original,
            Src::Add => &self.add,
        }
    }

    /// The piece holding offset `at` and the offset inside it; past the end, the
    /// number of pieces and zero.
    fn locate(&self, at: usize) -> (r: (usize, usize))
        requires
            self.wf(),
        ensures
            r.0 <= self.pieces@.len(),
            r.0 < self.pieces@.len() ==> self.off(r.0 as int) <= at < self.off(r.0 + 1) && r.1
                == at - self.off(r.0 as int),
            r.0 == self.pieces@.len() ==> at >= self@.len() && r.1 == 0,
    {
        let mut off: usize = 0;
        let mut i: usize = 0;
        proof {
            self.lemma_off_ends();
        }
        while i < self.pieces.len()
            invariant
                self.wf(),
                i <= self.pieces@.len(),
                off == self.off(i as int),
                off <= at,
            decreases self.pieces@.len() - i,
        {
            proof {
                self.lemma_piece_in_view(i as int);
            }
            let plen = self.pieces[i].len;
            if at < off + plen {
                return (i, at - off);
            }
            off = off + plen;
            i = i + 1;
        }
        proof {
            self.lemma_off_ends();
        }
        (self.pieces.len(), 0)
    }

    /// The byte at offset `i`.
    fn byte_at(&self, i: usize) -> (b: u8)
        requires
            self.wf(),
            i < self@.len(),
        ensures
            b == self@[i as int],
    {
        let (k, o) = self.locate(i);
        proof {
            self.lemma_piece_in_view(k as int);
            assert(piece_ok(self.original@, self.add@, self.pieces@[k as int]));
            assert(self@[i as int] == self@.subrange(self.off(k as int), self.off(k + 1))[o as int]);
        }
        let p = self.pieces[k];
        let src = self.source(p.src);
        let n = src.len();
        assert(p.start + p.len <= n);
        src[p.start + o]
    }

    /// The bytes `[start, min(end, len))`, empty when that range is empty.
    pub fn slice_bytes(&self, start: usize, end: usize) -> (r: Vec<u8>)
        requires
            self.wf(),
        ensures
            start < end && start < self@.len() ==> r@ == self@.subrange(
                start as int,
                if end < self@.len() { end as int } else { self@.len() as int },
            ),
            !(start < end && start < self@.len()) ==> r@.len() == 0,
    {
        let end = if end < self.len { end } else { self.len };
        let mut out: Vec<u8> = Vec::new();
        if start >= end {
            return out;
        }
        let mut off: usize = 0;
        let mut i: usize = 0;
        proof {
            self.lemma_off_ends();
        }
        while i < self.pieces.len()
            invariant
                self.wf(),
                start < end <= self@.len(),
                i <= self.pieces@.len(),
                off == self.off(i as int),
                off <= self@.len(),
                out@ == self@.subrange(start as int, hi(start as int, end as int, off as int)),
                self.off(self.pieces@.len() as int) == self@.len(),
            ensures
                off >= end,
                out@ == self@.subrange(start as int, hi(start as int, end as int, off as int)),
            decreases self.pieces@.len() - i,
        {
            proof {
                self.lemma_piece_in_view(i as int);
            }
            if off >= end {
                break;
            }
            let p = self.pieces[i];
            proof {
                assert(piece_ok(self.original@, self.add@, self.pieces@[i as int]));
            }
            if off + p.len > start {
                let a = if start > off { start - off } else { 0 };
                let b = if end - off < p.len { end - off } else { p.len };
                let src = self.source(p.src);
                let slen = src.len();
                let mut k = a;
                while k < b
                    invariant
                        a <= k <= b <= p.len,
                        p.start + p.len <= slen,
                        slen == src@.len(),
                        src@ == source(self.original@, self.add@, p.src),
                        self@.subrange(off as int, off + p.len) == piece_text(
                            self.original@,
                            self.add@,
                            p,
                        ),
                        off + p.len <= self@.len(),
                        out@ == self@.subrange(start as int, off + k),
                        start <= off + a,
                    decreases b - k,
                {
                    assert(src@[p.start + k] == piece_text(self.original@, self.add@, p)[k as int]);
                    assert(self@[off + k] == self@.subrange(off as int, off + p.len)[k as int]);
                    out.push(src[p.start + k]);
                    k = k + 1;
                    assert(out@ =~= self@.subrange(start as int, off + k));
                }
            }
            off = off + p.len;
            i = i + 1;
        }
        proof {
            self.lemma_off_ends();
        }
        out
    }

    /// The text `[start, min(end, len))`, empty when that range is empty.
    pub fn slice(&self, start: usize, end: usize) -> (r: String)
        requires
            self.wf(),
            start < end && start < self@.len() ==> is_char_boundary(self@, start as int)
                && is_char_boundary(
                self@,
                if end < self@.len() { end as int } else { self@.len() as int },
            ),
        ensures
            start < end && start < self@.len() ==> encode_utf8(r@) == self@.subrange(
                start as int,
                if end < self@.len() { end as int } else { self@.len() as int },
            ),
            !(start < end && start < self@.len()) ==> r@.len() == 0,
    {
        let b = self.slice_bytes(start, end);
        proof {
            if start < end && start < self@.len() {
                let e = if end < self@.len() { end as int } else { self@.len() as int };
                lemma_sub_boundary(self@, start as int, e, e);
            } else {
                assert(b@ =~= Seq::<u8>::empty());
            }
        }
        let r = bytes_to_string(b);
        proof {
            if !(start < end && start < self@.len()) {
                assert(encode_utf8(r@).len() == 0);
                if r@.len() > 0 {
                    lemma_char_bytes_len(r@[0]);
                    assert(r@ =~= seq![r@[0]] + r@.drop_first());
                    lemma_encode_concat(seq![r@[0]], r@.drop_first());
                    lemma_encode_single(r@[0]);
                }
            }
        }
        r
    }

    /// The whole text.
    pub fn all(&self) -> (r: String)
        requires
            self.wf(),
        ensures
            encode_utf8(r@) == self@,
    {
        proof {
            is_char_boundary_start_end_of_seq(self@);
        }
        let r = self.slice(0, self.len);
        proof {
            if self@.len() == 0 {
                assert(encode_utf8(r@) =~= self@);
            } else {
                assert(self@.subrange(0, self@.len() as int) =~= self@);
            }
        }
        r
    }

    /// Replaces piece `i` by two pieces cut at `off` inside it.
    fn split(&mut self, i: usize, off: usize)
        requires
            all_ok(old(self).original@, old(self).add@, old(self).pieces@),
            i < old(self).pieces@.len(),
            0 < off < old(self).pieces@[i as int].len,
        ensures
            all_ok(final(self).original@, final(self).add@, final(self).pieces@),
            final(self).original@ == old(self).original@,
            final(self).add@ == old(self).add@,
            final(self).len == old(self).len,
            final(self)@ == old(self)@,
            final(self).pieces@.len() == old(self).pieces@.len() + 1,
            final(self).pieces@.take(i as int) == old(self).pieces@.take(i as int),
            final(self).pieces@.skip(i + 2) == old(self).pieces@.skip(i + 1),
            piece_text(final(self).original@, final(self).add@, final(self).pieces@[i as int])
                == piece_text(old(self).original@, old(self).add@, old(self).pieces@[i as int]).subrange(0, off as int),
            piece_text(final(self).original@, final(self).add@, final(self).pieces@[i + 1])
                == piece_text(old(self).original@, old(self).add@, old(self).pieces@[i as int]).subrange(off as int, old(self).pieces@[i as int].len as int),
    {
        let ghost o = self.original@;
        let ghost a = self.add@;
        let ghost ps = self.pieces@;
        let p = self.pieces[i];
        proof {
            assert(piece_ok(o, a, ps[i as int]));
        }
        let src = self.source(p.src);
        let slen = src.len();
        assert(p.start + p.len <= slen);
        let left_nl = count_nl_in(src, p.start, p.start + off);
        let ghost t = piece_text(o, a, p);
        proof {
            assert(t.subrange(0, off as int) =~= src@.subrange(p.start as int, p.start + off));
            assert(t =~= t.subrange(0, off as int) + t.subrange(off as int, p.len as int));
            lemma_count_nl_concat(t.subrange(0, off as int), t.subrange(off as int, p.len as int));
        }
        let left = Piece { src: p.src, start: p.start, len: off, newlines: left_nl };
        let right = Piece { src: p.src, start: p.start + off, len: p.len - off, newlines: p.newlines - left_nl };
        let np = self.pieces.len();
        assert(i < np);
        self.pieces.set(i, left);
        self.pieces.insert(i + 1, right);
        proof {
            let np = self.pieces@;
            assert(piece_text(o, a, left) =~= t.subrange(0, off as int));
            assert(piece_text(o, a, right) =~= t.subrange(off as int, p.len as int));
            assert(np =~= ps.take(i as int) + seq![left, right] + ps.skip(i + 1));
            assert(np.take(i as int) =~= ps.take(i as int));
            assert(np.skip(i + 2) =~= ps.skip(i + 1));
            assert forall|j: int| 0 <= j < np.len() implies piece_ok(o, a, #[trigger] np[j]) by {
                if j < i {
                    assert(np[j] == ps[j]);
                } else if j > i + 1 {
                    assert(np[j] == ps[j - 1]);
                }
            }
            lemma_concat3(o, a, ps.take(i as int), seq![left, right], ps.skip(i + 1));
            lemma_concat_two(o, a, left, right);
            lemma_concat_around(o, a, ps, i as int);
            assert(self@ =~= old(self)@);
        }
    }

    /// Inserts `s` at byte offset `at` (at the end when `at` is past it).
    pub fn insert(&mut self, at: usize, s: &str)
        requires
            old(self).wf(),
            at >= old(self)@.len() || is_char_boundary(old(self)@, at as int),
            old(self)@.len() + s.spec_bytes().len() < usize::MAX,
        ensures
            final(self).wf(),
            final(self)@ == spliced(
                old(self)@,
                if at < old(self)@.len() { at as int } else { old(self)@.len() as int },
                s.spec_bytes(),
            ),
            final(self).original_spec() == old(self).original_spec(),
            final(self).add_spec() == old(self).add_spec() + s.spec_bytes(),
    {
        let bytes = str_bytes(s);
        if bytes.len() == 0 {
            assert(spliced(self@, if at < self@.len() { at as int } else { self@.len() as int }, bytes@) =~= self@);
            return;
        }
        self.insert_bytes(at, &bytes);
    }

    /// Appends `bytes` to the add buffer; returns a piece that reads them back.
    fn push_add(&mut self, bytes: &Vec<u8>) -> (piece: Piece)
        requires
            old(self).wf(),
            bytes@.len() > 0,
            old(self)@.len() + bytes@.len() < usize::MAX,
        ensures
            final(self).wf(),
            final(self)@ == old(self)@,
            final(self).pieces@ == old(self).pieces@,
            final(self).original@ == old(self).original@,
            final(self).add@ == old(self).add@ + bytes@,
            final(self).len == old(self).len,
            piece_ok(final(self).original@, final(self).add@, piece),
            piece_text(final(self).original@, final(self).add@, piece) == bytes@,
            piece.src == Src::Add,
            piece.start == old(self).add@.len(),
            piece.newlines <= bytes@.len(),
    {
        let ghost a0 = self.add@;
        let start = self.add.len();
        self.add.extend_from_slice(bytes.as_slice());
        proof {
            assert(self.add@.subrange(0, a0.len() as int) =~= a0);
            lemma_concat_add_grows(self.original@, a0, self.add@, self.pieces@);
        }
        let n = bytes.len();
        let nl = count_nl_in(bytes, 0, n);
        proof {
            assert(bytes@.subrange(0, n as int) =~= bytes@);
            lemma_count_nl_bound(bytes@);
        }
        let piece = Piece { src: Src::Add, start, len: n, newlines: nl };
        assert(piece_text(self.original@, self.add@, piece) =~= bytes@);
        piece
    }

    #[verifier::spinoff_prover]
    #[verifier::rlimit(40)]
    fn insert_bytes(&mut self, at: usize, bytes: &Vec<u8>)
        requires
            old(self).wf(),
            at >= old(self)@.len() || is_char_boundary(old(self)@, at as int),
            old(self)@.len() + bytes@.len() < usize::MAX,
            bytes@.len() > 0,
            valid_utf8(bytes@),
        ensures
            final(self).wf(),
            final(self)@ == spliced(
                old(self)@,
                if at < old(self)@.len() { at as int } else { old(self)@.len() as int },
                bytes@,
            ),
            final(self).original@ == old(self).original@,
            final(self).add@ == old(self).add@ + bytes@,
    {
        let n = bytes.len();
        let ghost v0 = self@;
        let ghost p0: int = if at < v0.len() { at as int } else { v0.len() as int };
        proof {
            is_char_boundary_start_end_of_seq(v0);
            lemma_splice_valid(v0, p0, bytes@);
            lemma_count_nl_bound(v0);
        }
        let ghost o = self.original@;
        let ghost ps = self.pieces@;
        let piece = self.push_add(bytes);
        let start = piece.start;
        let nl = piece.newlines;
        let ghost a = self.add@;
        let (i, off) = self.locate(at);
        proof {
            self.lemma_off_ends();
            if i < ps.len() {
                self.lemma_piece_in_view(i as int);
            }
            lemma_concat_prefix(o, a, ps, i as int);
            assert(off == 0 ==> concat(o, a, ps.take(i as int)).len() == p0);
            assert(off > 0 ==> concat(o, a, ps.take(i as int)).len() + off == p0);
        }
        if off == 0 {
            if i > 0 {
                let prev = self.pieces[i - 1];
                proof {
                    assert(piece_ok(o, a, ps[i - 1]));
                    self.lemma_piece_in_view(i - 1);
                    lemma_count_nl_bound(piece_text(o, a, prev));
                }
                if matches!(prev.src, Src::Add) && prev.start + prev.len == start {
                    let np = Piece {
                        src: prev.src,
                        start: prev.start,
                        len: prev.len + n,
                        newlines: prev.newlines + nl,
                    };
                    self.pieces.set(i - 1, np);
                    self.len = self.len + n;
                    proof {
                        let t0 = piece_text(o, a, prev);
                        assert(piece_text(o, a, np) =~= t0 + bytes@);
                        lemma_count_nl_concat(t0, bytes@);
                        lemma_insert_coalesce(o, a, ps, i as int, np, bytes@, p0);
                    }
                    return;
                }
            }
            self.pieces.insert(i, piece);
            proof {
                lemma_insert_between(o, a, ps, i as int, piece, bytes@, p0);
            }
        } else {
            let ghost t = piece_text(o, a, ps[i as int]);
            self.split(i, off);
            let ghost sps = self.pieces@;
            let np = self.pieces.len();
            assert(i < np);
            self.pieces.insert(i + 1, piece);
            proof {
                lemma_insert_inside(o, a, ps, sps, i as int, off as int, piece, bytes@, p0);
            }
        }
        self.len = self.len + n;
    }

    /// Deletes `[start, min(end, len))` and returns the deleted text.
    #[verifier::spinoff_prover]
    #[verifier::rlimit(40)]
    pub fn delete(&mut self, start: usize, end: usize) -> (r: String)
        requires
            old(self).wf(),
            start < end && start < old(self)@.len() ==> is_char_boundary(old(self)@, start as int)
                && is_char_boundary(
                old(self)@,
                if end < old(self)@.len() { end as int } else { old(self)@.len() as int },
            ),
        ensures
            final(self).wf(),
            start < end && start < old(self)@.len() ==> {
                let e = if end < old(self)@.len() { end as int } else { old(self)@.len() as int };
                &&& final(self)@ == cut(old(self)@, start as int, e)
                &&& encode_utf8(r@) == old(self)@.subrange(start as int, e)
            },
            !(start < end && start < old(self)@.len()) ==> final(self)@ == old(self)@ && r@.len()
                == 0,
            final(self).original_spec() == old(self).original_spec(),
            final(self).add_spec() == old(self).add_spec(),
    {
        let end = if end < self.len { end } else { self.len };
        if start >= end {
            return String::new();
        }
        let removed = self.slice(start, end);
        let ghost v0 = self@;
        let ghost o = self.original@;
        let ghost a = self.add@;
        let ghost ps0 = self.pieces@;
        let (i0, off) = self.locate(start);
        let mut i = i0;
        proof {
            self.lemma_off_ends();
            self.lemma_piece_in_view(i as int);
            lemma_concat_prefix(o, a, ps0, i as int);
        }
        if off > 0 {
            self.split(i, off);
            proof {
                lemma_delete_split_start(o, a, ps0, self.pieces@, i as int, off as int, start as int);
            }
            let n = self.pieces.len();
            assert(i < n);
            i = i + 1;
        } else {
            proof {
                assert(concat(o, a, ps0.take(i as int)) =~= v0.subrange(0, start as int));
                assert(concat(o, a, ps0.skip(i as int)) =~= v0.subrange(start as int, v0.len() as int));
            }
        }
        let mut remaining = end - start;
        while remaining > 0
            invariant
                all_ok(o, a, self.pieces@),
                self.original@ == o,
                self.add@ == a,
                i <= self.pieces@.len(),
                concat(o, a, self.pieces@.take(i as int)) == v0.subrange(0, start as int),
                concat(o, a, self.pieces@.skip(i as int)) == v0.subrange(
                    end - remaining,
                    v0.len() as int,
                ),
                remaining <= end - start,
                start < end <= v0.len(),
                self.len == v0.len(),
            decreases remaining,
        {
            let ghost ps = self.pieces@;
            let ghost rest = v0.subrange(end - remaining, v0.len() as int);
            proof {
                lemma_skip_first(o, a, ps, i as int);
            }
            let np_len = self.pieces.len();
            let p = self.pieces[i];
            proof {
                assert(piece_ok(o, a, ps[i as int]));
            }
            if p.len <= remaining {
                remaining = remaining - p.len;
                self.pieces.remove(i);
                proof {
                    lemma_delete_drop(o, a, ps, i as int, rest);
                    assert(rest.subrange(p.len as int, rest.len() as int) =~= v0.subrange(
                        end - remaining,
                        v0.len() as int,
                    ));
                }
            } else {
                let src = self.source(p.src);
                let slen = src.len();
                assert(p.start + p.len <= slen);
                let cut_nl = count_nl_in(src, p.start, p.start + remaining);
                let ghost t = piece_text(o, a, p);
                proof {
                    assert(t.subrange(0, remaining as int) =~= src@.subrange(
                        p.start as int,
                        p.start + remaining,
                    ));
                    assert(t =~= t.subrange(0, remaining as int) + t.subrange(remaining as int, p.len as int));
                    lemma_count_nl_concat(t.subrange(0, remaining as int), t.subrange(remaining as int, p.len as int));
                }
                let np = Piece {
                    src: p.src,
                    start: p.start + remaining,
                    len: p.len - remaining,
                    newlines: p.newlines - cut_nl,
                };
                proof {
                    assert(piece_text(o, a, np) =~= t.subrange(remaining as int, p.len as int));
                }
                self.pieces.set(i, np);
                proof {
                    lemma_delete_trim(o, a, ps, i as int, np, remaining as int, rest);
                    assert(rest.subrange(remaining as int, rest.len() as int) =~= v0.subrange(
                        end as int,
                        v0.len() as int,
                    ));
                }
                remaining = 0;
            }
        }
        proof {
            lemma_concat_prefix(o, a, self.pieces@, i as int);
            assert(self@ =~= cut(v0, start as int, end as int));
            lemma_cut_valid(v0, start as int, end as int);
        }
        self.len = self.len - (end - start);
        removed
    }

    /// The character starting at `at`, or `None` at or past the end.
    pub fn char_at(&self, at: usize) -> (r: Option<char>)
        requires
            self.wf(),
            at < self@.len() ==> is_char_boundary(self@, at as int),
        ensures
            at >= self@.len() ==> r is None,
            at < self@.len() ==> r == Some(char_at_spec(self@, at as int)) && at + char_bytes(
                r->0,
            ).len() <= self@.len() && self@.subrange(at as int, at + char_bytes(r->0).len())
                == char_bytes(r->0),
    {
        if at >= self.len {
            return None;
        }
        let end = if self.len - at < 4 { self.len } else { at + 4 };
        let w = self.slice_bytes(at, end);
        let ghost suf = self@.subrange(at as int, self@.len() as int);
        proof {
            is_char_boundary_start_end_of_seq(self@);
            lemma_sub_boundary(self@, at as int, self@.len() as int, at as int);
            lemma_valid_first(suf);
            assert(w@ =~= suf.take(end - at));
            lemma_first_scalar_prefix(suf, end - at);
            assert(w@.subrange(0, w@.len() as int) =~= w@);
        }
        let (c, n) = decode_at(w.as_slice(), 0);
        proof {
            char_u32_cast(c, decode_first_scalar(suf));
            assert(self@.subrange(at as int, at + n) =~= w@.subrange(0, n as int));
        }
        Some(c)
    }

    /// The offset just past the character at `at`, or the end.
    pub fn next_boundary(&self, at: usize) -> (r: usize)
        requires
            self.wf(),
            at < self@.len() ==> is_char_boundary(self@, at as int),
        ensures
            at >= self@.len() ==> r == self@.len(),
            at < self@.len() ==> r == at + char_bytes(char_at_spec(self@, at as int)).len(),
            at < self@.len() ==> at < r <= self@.len(),
            is_char_boundary(self@, r as int),
    {
        proof {
            is_char_boundary_start_end_of_seq(self@);
        }
        match self.char_at(at) {
            Some(c) => {
                let n = char_len(c);
                proof {
                    let suf = self@.subrange(at as int, self@.len() as int);
                    lemma_sub_boundary(self@, at as int, self@.len() as int, at as int);
                    lemma_valid_first(suf);
                    let k = length_of_first_scalar(suf);
                    lemma_char_bytes_len(c);
                    assert(suf.subrange(0, n as int) == char_bytes(c));
                    decode_utf8_first_scalar(suf);
                    assert(c == decode_first_scalar(suf) as char);
                    assert(take_first_scalar(suf) == char_bytes(c));
                    assert(k == n);
                    if at + n < self@.len() {
                        let rest = pop_first_scalar(suf);
                        lemma_valid_first(rest);
                        assert(rest[0] == self@[at + n]);
                        is_char_boundary_iff_not_is_continuation_byte(self@, at + n);
                    }
                }
                at + n
            },
            None => self.len,
        }
    }

    /// The start of the character before `at`.
    pub fn prev_boundary(&self, at: usize) -> (r: usize)
        requires
            self.wf(),
            at <= self@.len(),
        ensures
            at == 0 ==> r == 0,
            at > 0 ==> r < at && is_char_boundary(self@, r as int) && forall|k: int|
                r < k < at ==> !is_char_boundary(self@, k),
    {
        if at == 0 {
            return 0;
        }
        self.boundary_at_or_before(at - 1)
    }

    /// The last boundary at or before `at`.
    fn boundary_at_or_before(&self, at: usize) -> (r: usize)
        requires
            self.wf(),
            at < self@.len(),
        ensures
            r <= at,
            is_char_boundary(self@, r as int),
            forall|k: int| r < k <= at ==> !is_char_boundary(self@, k),
    {
        let mut j = at;
        proof {
            is_char_boundary_start_end_of_seq(self@);
            is_char_boundary_iff_not_is_continuation_byte(self@, 0);
        }
        loop
            invariant
                self.wf(),
                j <= at < self@.len(),
                is_char_boundary(self@, 0),
                forall|k: int| j < k <= at ==> !is_char_boundary(self@, k),
            decreases j,
        {
            let b = self.byte_at(j);
            proof {
                is_char_boundary_iff_not_is_continuation_byte(self@, j as int);
            }
            if !is_cont(b) {
                return j;
            }
            j = j - 1;
        }
    }

    /// `at` clamped to the text and moved back to a character boundary.
    pub fn snap(&self, at: usize) -> (r: usize)
        requires
            self.wf(),
        ensures
            r <= at,
            r <= self@.len(),
            is_char_boundary(self@, r as int),
            forall|k: int| r < k <= at && k <= self@.len() ==> !is_char_boundary(self@, k),
    {
        let at = if at < self.len { at } else { self.len };
        proof {
            is_char_boundary_start_end_of_seq(self@);
        }
        if at == self.len {
            return at;
        }
        self.boundary_at_or_before(at)
    }

    /// Number of lines: one more than the number of newlines.
    pub fn line_count(&self) -> (r: usize)
        requires
            self.wf(),
        ensures
            r == count_nl(self@) + 1,
    {
        let mut sum: usize = 0;
        let mut i: usize = 0;
        while i < self.pieces.len()
            invariant
                self.wf(),
                i <= self.pieces@.len(),
                sum == count_nl(concat(self.original@, self.add@, self.pieces@.take(i as int))),
                sum <= self.off(i as int),
                self.off(i as int) <= self@.len(),
            decreases self.pieces@.len() - i,
        {
            proof {
                self.lemma_piece_in_view(i as int);
                assert(piece_ok(self.original@, self.add@, self.pieces@[i as int]));
                lemma_concat_around(self.original@, self.add@, self.pieces@, i as int);
                lemma_count_nl_concat(
                    concat(self.original@, self.add@, self.pieces@.take(i as int)),
                    self.text_of(self.pieces@[i as int]),
                );
                lemma_count_nl_bound(self.text_of(self.pieces@[i as int]));
            }
            sum = sum + self.pieces[i].newlines;
            i = i + 1;
        }
        proof {
            assert(self.pieces@.take(i as int) =~= self.pieces@);
        }
        sum + 1
    }

    /// The line (counted from zero) holding offset `at`: the newlines before it.
    pub fn line_of(&self, at: usize) -> (r: usize)
        requires
            self.wf(),
        ensures
            r == count_nl(self@.take(if at < self@.len() { at as int } else { self@.len() as int })),
    {
        let mut nl: usize = 0;
        let mut i: usize = 0;
        let mut off: usize = 0;
        proof {
            self.lemma_off_ends();
            lemma_count_nl_bound(self@);
        }
        while i < self.pieces.len()
            invariant
                self.wf(),
                i <= self.pieces@.len(),
                off == self.off(i as int),
                off <= at,
                off <= self@.len(),
                nl == count_nl(self@.take(off as int)),
                nl <= off,
            decreases self.pieces@.len() - i,
        {
            proof {
                self.lemma_piece_in_view(i as int);
                assert(piece_ok(self.original@, self.add@, self.pieces@[i as int]));
            }
            let p = self.pieces[i];
            let ghost t = self.text_of(p);
            if off + p.len <= at {
                proof {
                    assert(self@.take(off + p.len) =~= self@.take(off as int) + t);
                    lemma_count_nl_concat(self@.take(off as int), t);
                    lemma_count_nl_bound(t);
                }
                nl = nl + p.newlines;
                off = off + p.len;
                i = i + 1;
            } else {
                let src = self.source(p.src);
                let slen = src.len();
                assert(p.start + p.len <= slen);
                let k = at - off;
                let c = count_nl_in(src, p.start, p.start + k);
                proof {
                    assert(src@.subrange(p.start as int, p.start + k) =~= t.take(k as int));
                    assert(self@.take(at as int) =~= self@.take(off as int) + t.take(k as int));
                    lemma_count_nl_concat(self@.take(off as int), t.take(k as int));
                    lemma_count_nl_bound(t.take(k as int));
                }
                return nl + c;
            }
        }
        proof {
            self.lemma_off_ends();
            assert(self@.take(off as int) =~= self@.take(self@.len() as int));
        }
        nl
    }

    /// Where line `line` starts.
    pub fn line_start(&self, line: usize) -> (r: usize)
        requires
            self.wf(),
        ensures
            is_line_start(self@, line as int, r as int),
            r <= self@.len(),
    {
        if line == 0 {
            return 0;
        }
        let mut need = line;
        let mut i: usize = 0;
        let mut off: usize = 0;
        proof {
            self.lemma_off_ends();
        }
        while i < self.pieces.len()
            invariant
                self.wf(),
                i <= self.pieces@.len(),
                off == self.off(i as int),
                off <= self@.len(),
                0 < need <= line,
                count_nl(self@.take(off as int)) == line - need,
            decreases self.pieces@.len() - i,
        {
            proof {
                self.lemma_piece_in_view(i as int);
                assert(piece_ok(self.original@, self.add@, self.pieces@[i as int]));
            }
            let p = self.pieces[i];
            let ghost t = self.text_of(p);
            proof {
                assert(self@.take(off + p.len) =~= self@.take(off as int) + t);
                lemma_count_nl_concat(self@.take(off as int), t);
            }
            if p.newlines < need {
                need = need - p.newlines;
                off = off + p.len;
                i = i + 1;
            } else {
                let src = self.source(p.src);
                let slen = src.len();
                assert(p.start + p.len <= slen);
                let mut k: usize = 0;
                let mut cnt: usize = 0;
                while k < p.len
                    invariant
                        k <= p.len,
                        p.start + p.len <= slen,
                        slen == src@.len(),
                        t == src@.subrange(p.start as int, p.start + p.len),
                        cnt == count_nl(t.take(k as int)),
                        cnt < need,
                        p.newlines == count_nl(t),
                        need <= p.newlines,
                        self@.subrange(off as int, off + p.len) == t,
                        off + p.len <= self@.len(),
                        self@.len() < usize::MAX,
                        count_nl(self@.take(off as int)) == line - need,
                    decreases p.len - k,
                {
                    proof {
                        lemma_count_nl_step(t, k as int);
                    }
                    if src[p.start + k] == NL {
                        if cnt + 1 == need {
                            proof {
                                assert(self@ =~= self@.take(off + k + 1) + self@.skip(off + k + 1));
                                lemma_count_nl_concat(self@.take(off + k + 1), self@.skip(off + k + 1));
                                assert(self@.take(off + k + 1) =~= self@.take(off as int) + t.take(k + 1));
                                lemma_count_nl_concat(self@.take(off as int), t.take(k + 1));
                                assert(self@[off + k] == t[k as int]);
                            }
                            return off + k + 1;
                        }
                        cnt = cnt + 1;
                    }
                    k = k + 1;
                }
                proof {
                    assert(t.take(k as int) =~= t);
                }
                return self.len;
            }
        }
        proof {
            self.lemma_off_ends();
            assert(self@.take(off as int) =~= self@);
        }
        self.len
    }

    /// The first newline at or after `from`, or the end.
    pub fn next_newline(&self, from: usize) -> (r: usize)
        requires
            self.wf(),
        ensures
            is_next_newline(self@, from as int, r as int),
    {
        let mut i: usize = 0;
        let mut off: usize = 0;
        proof {
            self.lemma_off_ends();
        }
        while i < self.pieces.len()
            invariant
                self.wf(),
                i <= self.pieces@.len(),
                off == self.off(i as int),
                off <= self@.len(),
                forall|j: int| from <= j < off ==> self@[j] != NL,
            decreases self.pieces@.len() - i,
        {
            proof {
                self.lemma_piece_in_view(i as int);
                assert(piece_ok(self.original@, self.add@, self.pieces@[i as int]));
            }
            let p = self.pieces[i];
            let ghost t = self.text_of(p);
            if off + p.len > from && p.newlines > 0 {
                let src = self.source(p.src);
                let slen = src.len();
                assert(p.start + p.len <= slen);
                let mut k: usize = if from > off { from - off } else { 0 };
                while k < p.len
                    invariant
                        k <= p.len,
                        p.start + p.len <= slen,
                        slen == src@.len(),
                        t == src@.subrange(p.start as int, p.start + p.len),
                        self@.subrange(off as int, off + p.len) == t,
                        off + p.len <= self@.len(),
                        self@.len() < usize::MAX,
                        from <= off + k,
                        forall|j: int| from <= j < off + k ==> self@[j] != NL,
                    decreases p.len - k,
                {
                    assert(self@[off + k] == t[k as int]);
                    assert(t[k as int] == src@[p.start + k]);
                    if src[p.start + k] == NL {
                        return off + k;
                    }
                    k = k + 1;
                }
            } else {
                proof {
                    lemma_count_nl_zero(t);
                    assert forall|j: int| from <= j < off + p.len implies self@[j] != NL by {
                        if j >= off {
                            assert(self@[j] == t[j - off]);
                        }
                    }
                }
            }
            off = off + p.len;
            i = i + 1;
        }
        proof {
            self.lemma_off_ends();
        }
        self.len
    }
}


/// Where line `line` of `t` starts.
pub open spec fn line_start_of(t: Seq<u8>, line: int) -> int {
    choose|r: int| is_line_start(t, line, r)
}

/// The first newline at or after `from`, or the end.
pub open spec fn newline_from(t: Seq<u8>, from: int) -> int {
    choose|r: int| is_next_newline(t, from, r)
}

/// A line has one start.
pub proof fn lemma_line_start_unique(t: Seq<u8>, line: int, r1: int, r2: int)
    requires
        is_line_start(t, line, r1),
        is_line_start(t, line, r2),
    ensures
        r1 == r2,
{
    if line != 0 && line <= count_nl(t) && r1 != r2 {
        let (a, b) = if r1 < r2 { (r1, r2) } else { (r2, r1) };
        assert(t.take(b - 1) =~= t.take(a) + t.subrange(a, b - 1));
        lemma_count_nl_concat(t.take(a), t.subrange(a, b - 1));
        crate::encoding::lemma_count_nl_step(t, b - 1);
        assert(false);
    }
}

/// There is one first newline at or after a position.
pub proof fn lemma_newline_unique(t: Seq<u8>, from: int, r1: int, r2: int)
    requires
        is_next_newline(t, from, r1),
        is_next_newline(t, from, r2),
    ensures
        r1 == r2,
{
}

/// The exec results of `line_start` and `next_newline` are the chosen ones.
pub proof fn lemma_line_start_is(t: Seq<u8>, line: int, r: int)
    requires
        is_line_start(t, line, r),
    ensures
        line_start_of(t, line) == r,
{
    lemma_line_start_unique(t, line, r, line_start_of(t, line));
}

pub proof fn lemma_newline_is(t: Seq<u8>, from: int, r: int)
    requires
        is_next_newline(t, from, r),
    ensures
        newline_from(t, from) == r,
{
    lemma_newline_unique(t, from, r, newline_from(t, from));
}


/// Deleting what was just inserted gives the text back.
pub proof fn lemma_delete_undoes_insert(t: Seq<u8>, at: int, s: Seq<u8>)
    requires
        0 <= at <= t.len(),
    ensures
        cut(spliced(t, at, s), at, at + s.len()) == t,
{
    assert(cut(spliced(t, at, s), at, at + s.len()) =~= t);
}

/// Inserting what was just deleted gives the text back.
pub proof fn lemma_insert_undoes_delete(t: Seq<u8>, a: int, b: int)
    requires
        0 <= a <= b <= t.len(),
    ensures
        spliced(cut(t, a, b), a, t.subrange(a, b)) == t,
{
    assert(spliced(cut(t, a, b), a, t.subrange(a, b)) =~= t);
}

} // verus!
