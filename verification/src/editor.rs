//! Buffers, the undo history, commands and the editor's modes.
use vstd::prelude::*;
use vstd::utf8::*;
use vstd::string::*;
use crate::text::{PieceTable, spliced, cut, is_line_start, is_next_newline, char_at_spec};
use crate::encoding::{str_bytes, lemma_splice_boundary, lemma_cut_boundary, lemma_encode_concat, lemma_encode_push, lemma_after_ascii, lemma_boundary_byte, lemma_count_nl_concat, lemma_count_nl_step, lemma_prefix_boundary, lemma_sub_boundary, decode_all, char_len, count_nl, NL};
use crate::width;
use crate::width::width_spec;

verus! {

pub use crate::session::{Editor, Cmd, keymap, Prompt, PromptAction, Search, Replace, Mode, Request, Loaded, OpenOutcome, Last, common_prefix, form_at};

/// The largest text a buffer holds, in bytes.
pub const TEXT_MAX: usize = usize::MAX / 16;

/// One recorded edit.
pub enum Op {
    Ins { at: usize, len: usize },
    Del { at: usize, text: String },
}

/// An edit in the undo history, with the cursor before it and its group.
pub struct Undo {
    pub op: Op,
    pub cursor: usize,
    pub group: u64,
}

/// `u` took the text from `before` to `after`, and its cursor is a boundary of `before`.
pub open spec fn entry_ok(before: Seq<u8>, after: Seq<u8>, u: Undo) -> bool {
    &&& u.cursor <= before.len()
    &&& is_char_boundary(before, u.cursor as int)
    &&& match u.op {
        Op::Ins { at, len } => {
            &&& at <= before.len()
            &&& at + len <= after.len()
            &&& is_char_boundary(before, at as int)
            &&& valid_utf8(after.subrange(at as int, at + len))
            &&& after == spliced(before, at as int, after.subrange(at as int, at + len))
        },
        Op::Del { at, text } => {
            &&& at + encode_utf8(text@).len() <= before.len()
            &&& is_char_boundary(before, at as int)
            &&& is_char_boundary(before, at + encode_utf8(text@).len())
            &&& before.subrange(at as int, at + encode_utf8(text@).len()) == encode_utf8(text@)
            &&& after == cut(before, at as int, at + encode_utf8(text@).len())
        },
    }
}

/// Where the run of entries of group `g` that ends at `pos` starts.
pub open spec fn group_start(u: Seq<Undo>, pos: int, g: u64) -> int
    decreases pos,
{
    if pos > 0 && pos <= u.len() && u[pos - 1].group == g {
        group_start(u, pos - 1, g)
    } else {
        pos
    }
}

proof fn lemma_group_start(u: Seq<Undo>, pos: int, g: u64)
    requires
        0 <= pos <= u.len(),
    ensures
        0 <= group_start(u, pos, g) <= pos,
        forall|k: int| group_start(u, pos, g) <= k < pos ==> (#[trigger] u[k]).group == g,
    decreases pos,
{
    if pos > 0 && u[pos - 1].group == g {
        lemma_group_start(u, pos - 1, g);
    }
}

/// Where the undo position stands after `n` undo steps from `pos`: each step goes
/// back to the start of the group that the entry before the position belongs to,
/// and none goes below the start.
pub open spec fn undo_steps(u: Seq<Undo>, pos: int, n: nat) -> int
    decreases n,
{
    if n == 0 || pos <= 0 {
        pos
    } else {
        undo_steps(u, group_start(u, pos, u[pos - 1].group), (n - 1) as nat)
    }
}

proof fn lemma_undo_steps_bound(u: Seq<Undo>, pos: int, n: nat)
    requires
        0 <= pos <= u.len(),
    ensures
        0 <= undo_steps(u, pos, n) <= pos,
    decreases n,
{
    if n > 0 && pos > 0 {
        let g = u[pos - 1].group;
        lemma_group_start(u, pos, g);
        lemma_undo_steps_bound(u, group_start(u, pos, g), (n - 1) as nat);
    }
}

/// Step `k + 1` takes one group back from where step `k` stands.
proof fn lemma_undo_steps_succ(u: Seq<Undo>, pos: int, k: nat)
    requires
        0 <= pos <= u.len(),
    ensures
        ({
            let q = undo_steps(u, pos, k);
            undo_steps(u, pos, k + 1) == if q <= 0 {
                q
            } else {
                group_start(u, q, u[q - 1].group)
            }
        }),
    decreases k,
{
    if pos > 0 {
        let g = u[pos - 1].group;
        let gs = group_start(u, pos, g);
        lemma_group_start(u, pos, g);
        if k == 0 {
            assert(undo_steps(u, pos, 1) == undo_steps(u, gs, 0));
        } else {
            assert(undo_steps(u, pos, k + 1) == undo_steps(u, gs, k));
            assert(undo_steps(u, pos, k) == undo_steps(u, gs, (k - 1) as nat));
            lemma_undo_steps_succ(u, gs, (k - 1) as nat);
        }
    }
}

/// Once the steps reach the start they stay there.
pub proof fn lemma_undo_steps_stay(u: Seq<Undo>, pos: int, k: nat, n: nat)
    requires
        0 <= pos <= u.len(),
        k <= n,
        undo_steps(u, pos, k) == 0,
    ensures
        undo_steps(u, pos, n) == 0,
    decreases n - k,
{
    if k < n {
        lemma_undo_steps_succ(u, pos, k);
        lemma_undo_steps_stay(u, pos, k + 1, n);
    }
}

/// Entries appended after `u` leave the groups within `u` as they were.
proof fn lemma_group_start_prefix(u: Seq<Undo>, v: Seq<Undo>, pos: int, g: u64)
    requires
        u.len() <= v.len(),
        v.take(u.len() as int) == u,
        0 <= pos <= u.len(),
    ensures
        group_start(v, pos, g) == group_start(u, pos, g),
    decreases pos,
{
    if pos > 0 {
        assert(v[pos - 1] == v.take(u.len() as int)[pos - 1]);
        lemma_group_start_prefix(u, v, pos - 1, g);
    }
}

fn copy_op(op: &Op) -> (r: Op)
    ensures
        r == *op,
{
    match op {
        Op::Ins { at, len } => Op::Ins { at: *at, len: *len },
        Op::Del { at, text } => Op::Del { at: *at, text: text.clone() },
    }
}

/// An open document: its text, cursor, mark, view position and undo history.
pub struct Buffer {
    pub text: PieceTable,
    pub name: String,
    pub path: Option<String>,
    pub cursor: usize,
    pub mark: Option<usize>,
    pub mark_active: bool,
    pub goal: Option<usize>,
    pub top: usize,
    pub left: usize,
    pub modified: bool,
    pub mode_bits: Option<u32>,
    pub undo: Vec<Undo>,
    pub undo_pos: usize,
    pub group: u64,
    pub in_undo: bool,
    pub hist: Ghost<Seq<Seq<u8>>>,
}

impl Buffer {
    /// The history is consistent: `hist[k]` is the text before edit `k`, the last
    /// entry is the current text, and cursor and mark are boundaries of it.
    pub closed spec fn wf_hist(&self) -> bool {
        &&& self.text.wf()
        &&& self.text@.len() <= TEXT_MAX
        &&& self.cursor <= self.text@.len()
        &&& is_char_boundary(self.text@, self.cursor as int)
        &&& (self.mark matches Some(m) ==> m <= self.text@.len() && is_char_boundary(self.text@, m as int))
        &&& self.undo_pos <= self.undo@.len()
        &&& self.hist@.len() == self.undo@.len() + 1
        &&& self.hist@.last() == self.text@
        &&& forall|k: int| 0 <= k < self.undo@.len() ==> entry_ok(self.hist@[k], self.hist@[k + 1], #[trigger] self.undo@[k])
        &&& forall|k: int| 0 <= k < self.undo@.len() ==> (#[trigger] self.undo@[k]).group <= self.group
        &&& forall|k: int| 0 <= k < self.hist@.len() ==> valid_utf8(#[trigger] self.hist@[k])
        &&& forall|k: int| 0 <= k < self.hist@.len() ==> (#[trigger] self.hist@[k]).len() <= TEXT_MAX
    }

    /// A well-formed buffer at rest: undoing reaches back to the state `undo_pos`.
    pub closed spec fn wf(&self) -> bool {
        &&& self.wf_hist()
        &&& self.hist@[self.undo_pos as int] == self.text@
        &&& !self.in_undo
    }

    /// A new buffer holding `content`, cursor at the start, nothing to undo.
    pub fn new(name: String, path: Option<String>, content: String, mode_bits: Option<u32>) -> (r: Buffer)
        requires
            encode_utf8(content@).len() <= TEXT_MAX,
        ensures
            r.wf(),
            r.text@ == encode_utf8(content@),
            r.name == name,
            r.path == path,
            r.cursor == 0,
            r.mark is None,
            !r.mark_active,
            r.goal is None,
            r.top == 0,
            r.left == 0,
            !r.modified,
            r.mode_bits == mode_bits,
            r.undo@.len() == 0,
            r.undo_pos == 0,
    {
        let text = PieceTable::new(content);
        proof {
            text.lemma_wf();
        }
        let ghost h = seq![text@];
        Buffer {
            text,
            name,
            path,
            cursor: 0,
            mark: None,
            mark_active: false,
            goal: None,
            top: 0,
            left: 0,
            modified: false,
            mode_bits,
            undo: Vec::new(),
            undo_pos: 0,
            group: 0,
            in_undo: false,
            hist: Ghost(h),
        }
    }

    fn record(&mut self, op: Op, Ghost(before): Ghost<Seq<u8>>)
        requires
            old(self).undo_pos <= old(self).undo@.len(),
            old(self).hist@.len() == old(self).undo@.len() + 1,
            old(self).hist@.last() == before,
            forall|k: int| 0 <= k < old(self).undo@.len() ==> entry_ok(old(self).hist@[k], old(self).hist@[k + 1], #[trigger] old(self).undo@[k]),
            forall|k: int| 0 <= k < old(self).undo@.len() ==> (#[trigger] old(self).undo@[k]).group <= old(self).group,
            forall|k: int| 0 <= k < old(self).hist@.len() ==> valid_utf8(#[trigger] old(self).hist@[k]),
            forall|k: int| 0 <= k < old(self).hist@.len() ==> (#[trigger] old(self).hist@[k]).len() <= TEXT_MAX,
            valid_utf8(old(self).text@),
            old(self).text@.len() <= TEXT_MAX,
            entry_ok(before, old(self).text@, Undo { op, cursor: old(self).cursor, group: old(self).group }),
        ensures
            final(self).undo@ == old(self).undo@.push(Undo { op, cursor: old(self).cursor, group: old(self).group }),
            final(self).hist@ == old(self).hist@.push(old(self).text@),
            !old(self).in_undo ==> final(self).undo_pos == final(self).undo@.len(),
            old(self).in_undo ==> final(self).undo_pos == old(self).undo_pos,
            final(self).undo_pos <= final(self).undo@.len(),
            forall|k: int| 0 <= k < final(self).undo@.len() ==> entry_ok(final(self).hist@[k], final(self).hist@[k + 1], #[trigger] final(self).undo@[k]),
            forall|k: int| 0 <= k < final(self).undo@.len() ==> (#[trigger] final(self).undo@[k]).group <= final(self).group,
            forall|k: int| 0 <= k < final(self).hist@.len() ==> valid_utf8(#[trigger] final(self).hist@[k]),
            forall|k: int| 0 <= k < final(self).hist@.len() ==> (#[trigger] final(self).hist@[k]).len() <= TEXT_MAX,
            final(self).text == old(self).text,
            final(self).cursor == old(self).cursor,
            final(self).mark == old(self).mark,
            final(self).group == old(self).group,
            final(self).in_undo == old(self).in_undo,
            final(self).name == old(self).name,
            final(self).path == old(self).path,
            final(self).mark_active == old(self).mark_active,
            final(self).goal == old(self).goal,
            final(self).top == old(self).top,
            final(self).left == old(self).left,
            final(self).modified == old(self).modified,
    {
        let u = Undo { op, cursor: self.cursor, group: self.group };
        self.undo.push(u);
        proof {
            let h0 = self.hist@;
            self.hist = Ghost(h0.push(self.text@));
            assert forall|k: int| 0 <= k < self.undo@.len() implies entry_ok(self.hist@[k], self.hist@[k + 1], #[trigger] self.undo@[k]) by {
                if k < old(self).undo@.len() {
                    assert(self.undo@[k] == old(self).undo@[k]);
                    assert(self.hist@[k] == h0[k]);
                    assert(self.hist@[k + 1] == h0[k + 1]);
                }
            }
            assert forall|k: int| 0 <= k < self.hist@.len() implies valid_utf8(#[trigger] self.hist@[k]) by {
                if k < h0.len() {
                    assert(self.hist@[k] == h0[k]);
                }
            }
            assert forall|k: int| 0 <= k < self.hist@.len() implies (#[trigger] self.hist@[k]).len() <= TEXT_MAX by {
                if k < h0.len() {
                    assert(self.hist@[k] == h0[k]);
                }
            }
        }
        if !self.in_undo {
            self.undo_pos = self.undo.len();
        }
    }


    /// `self` is `old` with `s` inserted at `at`; the mark and the cursor after `at`
    /// move along; the edit is recorded for undo.
    pub open spec fn inserted(self, old: Buffer, at: int, s: Seq<u8>) -> bool {
        if s.len() == 0 {
            self == old
        } else {
            &&& self.text@ == spliced(old.text@, at, s)
            &&& self.modified
            &&& !self.mark_active
            &&& self.mark == (match old.mark {
                Some(m) => Some(if m > at { (m + s.len()) as usize } else { m }),
                None => None,
            })
            &&& self.cursor == (if old.cursor > at { old.cursor + s.len() } else { old.cursor as int })
            &&& self.undo@ == old.undo@.push(Undo { op: Op::Ins { at: at as usize, len: s.len() as usize }, cursor: old.cursor, group: old.group })
            &&& self.hist@ == old.hist@.push(self.text@)
            &&& self.group == old.group
            &&& self.in_undo == old.in_undo
            &&& (!old.in_undo ==> self.undo_pos == self.undo@.len())
            &&& (old.in_undo ==> self.undo_pos == old.undo_pos)
            &&& self.name == old.name
            &&& self.path == old.path
            &&& self.goal == old.goal
            &&& self.top == old.top
            &&& self.left == old.left
        }
    }

    /// Inserts `s` at `at`.
    pub fn insert(&mut self, at: usize, s: &str)
        requires
            old(self).wf_hist(),
            at <= old(self).text@.len(),
            is_char_boundary(old(self).text@, at as int),
            old(self).text@.len() + s.spec_bytes().len() <= TEXT_MAX,
        ensures
            final(self).wf_hist(),
            final(self).inserted(*old(self), at as int, s.spec_bytes()),
            old(self).wf() ==> final(self).wf(),
    {
        if s.len() == 0 {
            return;
        }
        let ghost before = self.text@;
        let ghost sb = s.spec_bytes();
        let n = s.len();
        proof {
            self.text.lemma_wf();
            encode_utf8_valid_utf8(s@);
        }
        self.text.insert(at, s);
        proof {
            self.text.lemma_wf();
            lemma_splice_boundary(before, at as int, sb, at as int);
            lemma_splice_boundary(before, at as int, sb, self.cursor as int);
            if let Some(m) = self.mark {
                lemma_splice_boundary(before, at as int, sb, m as int);
            }
            assert(self.text@.subrange(at as int, at + n) =~= sb);
            assert(self.text@ == spliced(before, at as int, self.text@.subrange(at as int, at + n)));
        }
        self.record(Op::Ins { at, len: n }, Ghost(before));
        self.modified = true;
        self.mark_active = false;
        if let Some(m) = self.mark {
            if m > at {
                self.mark = Some(m + n);
            }
        }
        if self.cursor > at {
            self.cursor = self.cursor + n;
        }
    }

    /// `self` is `old` with the bytes `[start, e)` deleted, `e` being `end` clamped to
    /// the text; mark and cursor inside the range move to `start`, after it move back.
    pub open spec fn deleted(self, old: Buffer, start: int, end: int, r: Seq<char>) -> bool {
        let e = if end < old.text@.len() { end } else { old.text@.len() as int };
        let n = end - start;
        if start >= end {
            self == old && r.len() == 0
        } else {
            &&& self.text@ == cut(old.text@, start, e)
            &&& encode_utf8(r) == old.text@.subrange(start, e)
            &&& self.modified
            &&& !self.mark_active
            &&& self.mark == (match old.mark {
                Some(m) => Some(if m <= start { m } else if m >= end { (m - n) as usize } else { start as usize }),
                None => None,
            })
            &&& self.cursor == (if old.cursor >= end { old.cursor - n } else if old.cursor > start { start } else { old.cursor as int })
            &&& self.hist@ == old.hist@.push(self.text@)
            &&& self.undo@.len() == old.undo@.len() + 1
            &&& self.undo@.take(old.undo@.len() as int) == old.undo@
            &&& self.undo@.last().cursor == old.cursor
            &&& self.undo@.last().group == old.group
            &&& self.undo@.last().op matches Op::Del { at, text } && at == start && text@ == r
            &&& self.group == old.group
            &&& self.in_undo == old.in_undo
            &&& (!old.in_undo ==> self.undo_pos == self.undo@.len())
            &&& (old.in_undo ==> self.undo_pos == old.undo_pos)
            &&& self.name == old.name
            &&& self.path == old.path
            &&& self.goal == old.goal
            &&& self.top == old.top
            &&& self.left == old.left
        }
    }

    /// Deletes `[start, end)` (clamped to the text) and returns what it removed.
    #[verifier::rlimit(40)]
    pub fn delete(&mut self, start: usize, end: usize) -> (r: String)
        requires
            old(self).wf_hist(),
            start < end ==> start <= old(self).text@.len(),
            start < end ==> is_char_boundary(old(self).text@, start as int),
            start < end ==> end >= old(self).text@.len() || is_char_boundary(old(self).text@, end as int),
        ensures
            final(self).wf_hist(),
            final(self).deleted(*old(self), start as int, end as int, r@),
            old(self).wf() ==> final(self).wf(),
    {
        if start >= end {
            return String::new();
        }
        let ghost before = self.text@;
        let ghost e: int = if end < before.len() { end as int } else { before.len() as int };
        proof {
            self.text.lemma_wf();
        }
        let s = self.text.delete(start, end);
        let ghost sb = encode_utf8(s@);
        proof {
            self.text.lemma_wf();
            if start < e {
                assert(sb == before.subrange(start as int, e));
            } else {
                assert(s@.len() == 0);
                assert(sb =~= Seq::<u8>::empty());
                assert(cut(before, start as int, e) =~= before);
            }
            assert(sb.len() == e - start);
            lemma_cut_boundary(before, start as int, e, start as int);
            lemma_cut_boundary(before, start as int, e, self.cursor as int);
            if let Some(m) = self.mark {
                lemma_cut_boundary(before, start as int, e, m as int);
            }
        }
        let kept = s.clone();
        proof {
            assert(kept@ == s@);
            assert(is_char_boundary(before, start + sb.len()));
            assert(before.subrange(start as int, start + sb.len()) == sb);
            assert(self.text@ == cut(before, start as int, start + sb.len()));
            assert(entry_ok(before, self.text@, Undo { op: Op::Del { at: start, text: kept }, cursor: self.cursor, group: self.group }));
        }
        self.record(Op::Del { at: start, text: kept }, Ghost(before));
        self.modified = true;
        self.mark_active = false;
        let n = end - start;
        if let Some(m) = self.mark {
            self.mark = Some(if m <= start {
                m
            } else if m >= end {
                m - n
            } else {
                start
            });
        }
        if self.cursor >= end {
            self.cursor = self.cursor - n;
        } else if self.cursor > start {
            self.cursor = start;
        }
        proof {
            assert(self.undo@.take(old(self).undo@.len() as int) =~= old(self).undo@);
        }
        s
    }


    /// Undoes the latest group of edits before `undo_pos` (each undone edit is itself
    /// recorded, so undoing can be undone); false when there is nothing to undo.
    #[verifier::rlimit(60)]
    pub fn undo(&mut self) -> (r: bool)
        requires
            old(self).wf(),
        ensures
            final(self).wf(),
            r == (old(self).undo_pos > 0),
            !r ==> *final(self) == *old(self),
            r ==> final(self).undone_from(*old(self)),
    {
        if self.undo_pos == 0 {
            return false;
        }
        let gid = self.undo[self.undo_pos - 1].group;
        let ghost p = group_start(self.undo@, self.undo_pos as int, gid);
        let ghost u0 = self.undo@;
        let ghost h0 = self.hist@;
        if self.group < u64::MAX {
            self.group = self.group + 1;
        }
        self.in_undo = true;
        proof {
            lemma_group_start(u0, self.undo_pos as int, gid);
        }
        while self.undo_pos > 0 && self.undo[self.undo_pos - 1].group == gid
            invariant
                self.wf_hist(),
                self.in_undo,
                self.hist@[self.undo_pos as int] == self.text@,
                p <= self.undo_pos <= old(self).undo_pos,
                group_start(u0, self.undo_pos as int, gid) == p,
                u0 == old(self).undo@,
                h0 == old(self).hist@,
                old(self).undo_pos <= u0.len(),
                h0.len() == u0.len() + 1,
                u0[old(self).undo_pos - 1].group == gid,
                self.undo_pos == old(self).undo_pos ==> self.undo_pos > 0 && u0[self.undo_pos - 1].group == gid,
                old(self).group < u64::MAX ==> self.group == old(self).group + 1,
                u0.len() <= self.undo@.len(),
                self.undo@.take(u0.len() as int) == u0,
                self.hist@.take(h0.len() as int) == h0,
                self.undo_pos < old(self).undo_pos ==> self.cursor == u0[self.undo_pos as int].cursor,
                self.name == old(self).name,
                self.path == old(self).path,
                self.top == old(self).top,
                self.left == old(self).left,
                forall|j: int| u0.len() <= j < self.undo@.len() ==> (#[trigger] self.undo@[j]).group == self.group,
            decreases self.undo_pos,
        {
            self.undo_pos = self.undo_pos - 1;
            let k = self.undo_pos;
            let cur = self.undo[k].cursor;
            let op = copy_op(&self.undo[k].op);
            let ghost before = self.hist@[k as int];
            let ghost after = self.hist@[k + 1];
            let ghost ul = self.undo@;
            let ghost hl = self.hist@;
            proof {
                assert(ul[k as int] == u0[k as int]);
                assert(hl[k as int] == h0[k as int]);
                assert(hl[k + 1] == h0[k + 1]);
                assert(entry_ok(before, after, ul[k as int]));
                assert(valid_utf8(before));
                assert(u0[k as int].group == gid);
                assert(group_start(u0, k as int, gid) == p);
                lemma_group_start(u0, k as int, gid);
                self.text.lemma_wf();
            }
            match op {
                Op::Ins { at, len } => {
                    proof {
                        let x = after.subrange(at as int, at + len);
                        lemma_splice_boundary(before, at as int, x, at as int);
                        assert(cut(after, at as int, at + len) =~= before);
                    }
                    self.delete(at, at + len);
                },
                Op::Del { at, text } => {
                    let ts = text.as_str();
                    proof {
                        let n = encode_utf8(text@).len();
                        lemma_cut_boundary(before, at as int, at + n, at as int);
                        assert(ts.spec_bytes() == encode_utf8(text@));
                        assert(spliced(after, at as int, encode_utf8(text@)) =~= before);
                    }
                    self.insert(at, ts);
                },
            }
            assert(self.text@ == before);
            let len = self.text.len();
            self.cursor = if cur < len { cur } else { len };
            proof {
                assert forall|j: int| u0.len() <= j < self.undo@.len() implies (#[trigger] self.undo@[j]).group == self.group by {
                    if j < ul.len() {
                        assert(self.undo@[j] == ul[j]);
                    }
                }
                assert(self.hist@[k as int] == hl[k as int]);
                assert(self.undo@.take(u0.len() as int) =~= u0);
                assert(self.hist@.take(h0.len() as int) =~= h0);
                assert(self.undo@[k as int] == u0[k as int]);
            }
        }
        proof {
            if self.undo_pos > 0 {
                assert(self.undo@[self.undo_pos - 1] == u0[self.undo_pos - 1]);
            }
            assert(self.hist@[self.undo_pos as int] == h0[self.undo_pos as int]);
        }
        self.in_undo = false;
        true
    }

    /// `self` is what undoing one group leaves of `old`: the text as it was before
    /// the group's first edit, with the cursor where it was then.
    pub open spec fn undone_from(self, old: Buffer) -> bool {
        let g = old.undo@[old.undo_pos - 1].group;
        let p = group_start(old.undo@, old.undo_pos as int, g);
        &&& self.undo_pos == p
        &&& self.text@ == old.hist@[p]
        &&& self.cursor == old.undo@[p].cursor
        &&& old.undo@.len() <= self.undo@.len()
        &&& old.hist@.len() <= self.hist@.len()
        &&& self.undo@.take(old.undo@.len() as int) == old.undo@
        &&& self.hist@.take(old.hist@.len() as int) == old.hist@
        &&& (old.group < u64::MAX ==> self.group == old.group + 1)
        &&& forall|j: int| old.undo@.len() <= j < self.undo@.len() ==> (#[trigger] self.undo@[j]).group == self.group
        &&& self.top == old.top
        &&& self.left == old.left
        &&& self.name == old.name
        &&& self.path == old.path
    }

    /// Starts a new undo group: later edits undo separately from earlier ones.
    pub fn new_group(&mut self)
        requires
            old(self).wf(),
        ensures
            final(self).wf(),
            final(self).text@ == old(self).text@,
            final(self).cursor == old(self).cursor,
            final(self).mark == old(self).mark,
            final(self).mark_active == old(self).mark_active,
            final(self).modified == old(self).modified,
            final(self).goal == old(self).goal,
            final(self).name == old(self).name,
            final(self).path == old(self).path,
            final(self).top == old(self).top,
            final(self).left == old(self).left,
            final(self).undo_pos == old(self).undo_pos,
            final(self).mode_bits == old(self).mode_bits,
            final(self).undo@ == old(self).undo@,
            final(self).hist@ == old(self).hist@,
            old(self).group < u64::MAX ==> final(self).group == old(self).group + 1,
            old(self).group < u64::MAX ==> forall|k: int| 0 <= k < final(self).undo@.len() ==> (#[trigger] final(self).undo@[k]).group < final(self).group,
    {
        if self.group < u64::MAX {
            self.group = self.group + 1;
        }
    }

    /// Makes the next undo start again from the latest edit.
    pub fn break_undo_chain(&mut self)
        requires
            old(self).wf(),
        ensures
            final(self).wf(),
            final(self).text@ == old(self).text@,
            final(self).cursor == old(self).cursor,
            final(self).mark == old(self).mark,
            final(self).mark_active == old(self).mark_active,
            final(self).modified == old(self).modified,
            final(self).goal == old(self).goal,
            final(self).name == old(self).name,
            final(self).path == old(self).path,
            final(self).top == old(self).top,
            final(self).left == old(self).left,
            final(self).undo_pos == final(self).undo@.len(),
            final(self).mode_bits == old(self).mode_bits,
            final(self).undo@ == old(self).undo@,
            final(self).hist@ == old(self).hist@,
            final(self).group == old(self).group,
    {
        self.undo_pos = self.undo.len();
    }
}


/// Whether `c` is alphabetic or numeric in Unicode's sense.
pub uninterp spec fn alnum(c: char) -> bool;

/// Calls `char::is_alphanumeric`, which tells whether `c` has Unicode's
/// Alphabetic or Numeric property; its result is named `alnum`.
#[verifier::external_body]
fn is_alnum(c: char) -> (r: bool)
    ensures
        r == alnum(c),
{
    c.is_alphanumeric()
}

/// The first index at or after `i` whose character is alphanumeric exactly when
/// `want`, or the length.
pub open spec fn scan_fwd(cs: Seq<char>, i: int, want: bool) -> int
    decreases cs.len() - i,
{
    if i < 0 || i >= cs.len() {
        cs.len() as int
    } else if alnum(cs[i]) == want {
        i
    } else {
        scan_fwd(cs, i + 1, want)
    }
}

/// The last index at or before `i` that is zero or follows a character that is
/// alphanumeric exactly when `want`.
pub open spec fn scan_back(cs: Seq<char>, i: int, want: bool) -> int
    decreases i,
{
    if i <= 0 {
        0
    } else if alnum(cs[i - 1]) == want {
        i
    } else {
        scan_back(cs, i - 1, want)
    }
}

/// Where the word at or after `at` ends: past the non-word characters, then past
/// the word characters.
pub open spec fn word_end_spec(t: Seq<u8>, at: int) -> int {
    let cs = decode_utf8(t.subrange(at, t.len() as int));
    at + encode_utf8(cs.take(scan_fwd(cs, scan_fwd(cs, 0, true), false))).len()
}

/// Where the word before `at` starts: back over non-word characters, then back over
/// word characters.
pub open spec fn word_start_spec(t: Seq<u8>, at: int) -> int {
    let cs = decode_utf8(t.subrange(0, at));
    encode_utf8(cs.take(scan_back(cs, scan_back(cs, cs.len() as int, true), false))).len() as int
}

/// The current selection: the span between mark and cursor, when the mark is
/// active and the span is not empty.
pub open spec fn selection_spec(active: bool, mark: Option<usize>, cursor: usize) -> Option<(usize, usize)> {
    if !active {
        None
    } else {
        match mark {
            None => None,
            Some(m) => {
                let a = if m < cursor { m } else { cursor };
                let z = if m < cursor { cursor } else { m };
                if a != z { Some((a, z)) } else { None }
            },
        }
    }
}

/// `col` is the display column of offset `at`, counted from the start of its line.
pub open spec fn is_col_of(t: Seq<u8>, at: int, col: int) -> bool {
    exists|ls: int|
        is_line_start(t, count_nl(t.take(at)) as int, ls) && col == (if ls < at {
            width_spec(decode_utf8(t.subrange(ls, at)))
        } else {
            0
        })
}

/// `r` is the offset on the line starting at `ls` whose column first reaches `goal`.
pub open spec fn is_col_offset(t: Seq<u8>, ls: int, goal: int, r: int) -> bool {
    if ls >= t.len() {
        r == ls
    } else {
        exists|end: int, k: int|
            is_next_newline(t, ls, end) && width::reaches_col(decode_utf8(t.subrange(ls, end)), goal, k)
                && r == ls + encode_utf8(decode_utf8(t.subrange(ls, end)).take(k)).len()
    }
}

/// The number of bytes the first `n` characters of `cs` take.
fn prefix_bytes(cs: &Vec<char>, n: usize) -> (r: usize)
    requires
        n <= cs@.len(),
        encode_utf8(cs@).len() <= usize::MAX,
    ensures
        r == encode_utf8(cs@.take(n as int)).len(),
{
    let mut at: usize = 0;
    let mut j: usize = 0;
    proof {
        assert(cs@.take(0) =~= Seq::<char>::empty());
    }
    while j < n
        invariant
            j <= n <= cs@.len(),
            encode_utf8(cs@).len() <= usize::MAX,
            at == encode_utf8(cs@.take(j as int)).len(),
        decreases n - j,
    {
        proof {
            assert(cs@.take(j + 1) =~= cs@.take(j as int).push(cs@[j as int]));
            lemma_encode_push(cs@.take(j as int), cs@[j as int]);
            assert(cs@ =~= cs@.take(j + 1) + cs@.skip(j + 1));
            lemma_encode_concat(cs@.take(j + 1), cs@.skip(j + 1));
        }
        at = at + char_len(cs[j]);
        j = j + 1;
    }
    at
}

/// Line starts are character boundaries.
pub proof fn lemma_line_start_boundary(t: Seq<u8>, line: int, r: int)
    requires
        valid_utf8(t),
        line >= 0,
        is_line_start(t, line, r),
    ensures
        0 <= r <= t.len(),
        is_char_boundary(t, r),
{
    is_char_boundary_start_end_of_seq(t);
    if line != 0 && line <= count_nl(t) {
        lemma_after_ascii(t, r - 1);
    }
}

/// The end of a line is a character boundary.
proof fn lemma_newline_boundary(t: Seq<u8>, from: int, r: int)
    requires
        valid_utf8(t),
        0 <= from,
        is_next_newline(t, from, r),
    ensures
        0 <= r <= t.len(),
        is_char_boundary(t, r),
{
    lemma_boundary_byte(t, r);
}

impl Buffer {
    /// `self`'s cursor is where one line down (or up) from `old`'s lands: on the next
    /// (previous) line at the goal column, which is `old`'s goal or else the column
    /// the cursor was at; at the end (start) of the text from the last (first) line.
    pub open spec fn line_moved(self, old: Buffer, down: bool) -> bool {
        let t = old.text@;
        let line = count_nl(t.take(old.cursor as int)) as int;
        let g = self.goal->0 as int;
        &&& self.goal is Some
        &&& old.goal is Some ==> self.goal == old.goal
        &&& old.goal is None ==> is_col_of(t, old.cursor as int, g)
        &&& if down {
            if line + 1 >= count_nl(t) + 1 {
                self.cursor == t.len()
            } else {
                exists|ls: int| is_line_start(t, line + 1, ls) && is_col_offset(t, ls, g, self.cursor as int)
            }
        } else {
            if line == 0 {
                self.cursor == 0
            } else {
                exists|ls: int| is_line_start(t, line - 1, ls) && is_col_offset(t, ls, g, self.cursor as int)
            }
        }
    }
}

impl Buffer {
    /// `self` is where `n` line moves down (`down`) or up from `old` end: on the line
    /// `n` below (above) at the goal column, which is `old`'s goal or else the column
    /// the cursor was at; at the end (start) of the text when that line would lie past
    /// the last (first) one.
    pub open spec fn lines_moved(self, old: Buffer, down: bool, n: nat) -> bool {
        let t = old.text@;
        let line = count_nl(t.take(old.cursor as int)) as int;
        let g = self.goal->0 as int;
        &&& self.goal is Some
        &&& old.goal is Some ==> self.goal == old.goal
        &&& old.goal is None ==> is_col_of(t, old.cursor as int, g)
        &&& if down {
            if line + n > count_nl(t) {
                self.cursor == t.len()
            } else {
                exists|ls: int| is_line_start(t, line + n, ls) && is_col_offset(t, ls, g, self.cursor as int)
            }
        } else {
            if line < n {
                self.cursor == 0
            } else {
                exists|ls: int| is_line_start(t, line - n, ls) && is_col_offset(t, ls, g, self.cursor as int)
            }
        }
    }
}

/// The offset `is_col_offset` finds lies on the line it was looked for on.
proof fn lemma_col_offset_line(t: Seq<u8>, ls: int, goal: int, r: int)
    requires
        valid_utf8(t),
        0 <= ls <= t.len(),
        is_char_boundary(t, ls),
        is_col_offset(t, ls, goal, r),
    ensures
        count_nl(t.take(r)) == count_nl(t.take(ls)),
{
    if ls < t.len() {
        let (end, k) = choose|end: int, k: int|
            is_next_newline(t, ls, end) && width::reaches_col(decode_utf8(t.subrange(ls, end)), goal, k)
                && r == ls + encode_utf8(decode_utf8(t.subrange(ls, end)).take(k)).len();
        is_char_boundary_start_end_of_seq(t);
        if end < t.len() {
            is_char_boundary_iff_not_is_continuation_byte(t, end);
        }
        let sub = t.subrange(ls, end);
        lemma_sub_boundary(t, ls, end, end);
        lemma_prefix_boundary(sub, k);
        let j = r - ls;
        assert(j <= sub.len());
        let piece = sub.take(j);
        assert(t.take(r) =~= t.take(ls) + piece);
        crate::encoding::lemma_count_nl_concat(t.take(ls), piece);
        assert forall|i: int| 0 <= i < piece.len() implies piece[i] != NL by {
            assert(piece[i] == t[ls + i]);
        }
        crate::encoding::lemma_count_nl_zero(piece);
    }
}

/// The line the cursor is on once a line move has put it at a line start's goal column.
proof fn lemma_on_line(t: Seq<u8>, line: int, ls: int, goal: int, r: int)
    requires
        valid_utf8(t),
        0 <= line <= count_nl(t),
        is_line_start(t, line, ls),
        is_col_offset(t, ls, goal, r),
    ensures
        count_nl(t.take(r)) == line,
{
    lemma_line_start_boundary(t, line, ls);
    lemma_col_offset_line(t, ls, goal, r);
    if line == 0 {
        assert(t.take(0) =~= Seq::<u8>::empty());
    }
}

/// One line move is a run of one.
pub proof fn lemma_lines_moved_one(b0: Buffer, b1: Buffer, down: bool)
    requires
        b1.line_moved(b0, down),
    ensures
        b1.lines_moved(b0, down, 1),
{
    let t = b0.text@;
    let line = count_nl(t.take(b0.cursor as int)) as int;
    let g = b1.goal->0 as int;
    if down && line + 1 <= count_nl(t) {
        let ls = choose|ls: int| is_line_start(t, line + 1, ls) && is_col_offset(t, ls, g, b1.cursor as int);
        assert(is_line_start(t, line + 1nat, ls));
    }
    if !down && line >= 1 {
        let ls = choose|ls: int| is_line_start(t, line - 1, ls) && is_col_offset(t, ls, g, b1.cursor as int);
        assert(is_line_start(t, line - 1nat, ls));
    }
}

/// `k + 1` line moves are `k` of them and then one more.
pub proof fn lemma_lines_moved_step(b0: Buffer, bk: Buffer, b1: Buffer, down: bool, k: nat)
    requires
        b0.wf(),
        bk.text@ == b0.text@,
        k >= 1,
        bk.lines_moved(b0, down, k),
        b1.line_moved(bk, down),
    ensures
        b1.lines_moved(b0, down, k + 1),
{
    let t = b0.text@;
    let line = count_nl(t.take(b0.cursor as int)) as int;
    let g = bk.goal->0 as int;
    let lk = count_nl(t.take(bk.cursor as int)) as int;
    assert(valid_utf8(t)) by {
        assert(b0.hist@.last() == t);
        assert(valid_utf8(b0.hist@[b0.hist@.len() - 1]));
    }
    assert(t.take(t.len() as int) =~= t);
    assert(t.take(0) =~= Seq::<u8>::empty());
    if down {
        if line + k > count_nl(t) {
            assert(lk == count_nl(t));
        } else {
            let ls = choose|ls: int| is_line_start(t, line + k, ls) && is_col_offset(t, ls, g, bk.cursor as int);
            lemma_on_line(t, line + k, ls, g, bk.cursor as int);
        }
    } else {
        if line < k {
            assert(lk == 0);
        } else {
            assert(t =~= t.take(b0.cursor as int) + t.skip(b0.cursor as int));
            crate::encoding::lemma_count_nl_concat(t.take(b0.cursor as int), t.skip(b0.cursor as int));
            let ls = choose|ls: int| is_line_start(t, line - k, ls) && is_col_offset(t, ls, g, bk.cursor as int);
            lemma_on_line(t, line - k, ls, g, bk.cursor as int);
        }
    }
}

impl Buffer {
    /// Everything but the cursor and the goal column is as in `old`.
    pub open spec fn moved(self, old: Buffer) -> bool {
        &&& self.text == old.text
        &&& self.name == old.name
        &&& self.path == old.path
        &&& self.mark == old.mark
        &&& self.mark_active == old.mark_active
        &&& self.top == old.top
        &&& self.left == old.left
        &&& self.modified == old.modified
        &&& self.mode_bits == old.mode_bits
        &&& self.undo == old.undo
        &&& self.undo_pos == old.undo_pos
        &&& self.group == old.group
        &&& self.in_undo == old.in_undo
        &&& self.hist == old.hist
    }

    /// In a well-formed buffer the history ends with the current text, and every
    /// recorded edit's group is at most the current group.
    pub proof fn lemma_hist(&self)
        requires
            self.wf(),
        ensures
            self.hist@.len() == self.undo@.len() + 1,
            self.hist@[self.undo@.len() as int] == self.text@,
            forall|k: int| 0 <= k < self.undo@.len() ==> (#[trigger] self.undo@[k]).group <= self.group,
            !self.in_undo,
    {
    }

    /// What a well-formed buffer guarantees of its text, cursor and mark.
    pub proof fn lemma_wf(&self)
        requires
            self.wf(),
        ensures
            self.wf_hist(),
            self.text.wf(),
            valid_utf8(self.text@),
            self.text@.len() <= TEXT_MAX,
            self.cursor <= self.text@.len(),
            is_char_boundary(self.text@, self.cursor as int),
            self.mark matches Some(m) ==> m <= self.text@.len() && is_char_boundary(self.text@, m as int),
            forall|k: int| 0 <= k < self.undo@.len() ==> (#[trigger] self.undo@[k]).group <= self.group,
            self.hist@.len() == self.undo@.len() + 1,
            self.hist@[self.undo@.len() as int] == self.text@,
            !self.in_undo,
    {
        self.text.lemma_wf();
    }

    /// A buffer whose text and history are those of a well-formed one, with cursor
    /// and mark on boundaries, is well formed.
    pub proof fn lemma_same_text_wf(self, old: Buffer)
        requires
            old.wf(),
            self.text == old.text,
            self.undo == old.undo,
            self.undo_pos == old.undo_pos,
            self.hist == old.hist,
            self.group == old.group,
            self.in_undo == old.in_undo,
            self.cursor <= self.text@.len(),
            is_char_boundary(self.text@, self.cursor as int),
            self.mark matches Some(m) ==> m <= self.text@.len() && is_char_boundary(self.text@, m as int),
        ensures
            self.wf(),
    {
    }

    /// The line (from zero) the cursor is on.
    pub fn line(&self) -> (r: usize)
        requires
            self.wf(),
        ensures
            r == count_nl(self.text@.take(self.cursor as int)),
    {
        self.text.line_of(self.cursor)
    }

    /// The active, non-empty span between mark and cursor.
    pub fn selection(&self) -> (r: Option<(usize, usize)>)
        ensures
            r == selection_spec(self.mark_active, self.mark, self.cursor),
    {
        if !self.mark_active {
            return None;
        }
        match self.mark {
            None => None,
            Some(m) => {
                let a = if m < self.cursor { m } else { self.cursor };
                let z = if m < self.cursor { self.cursor } else { m };
                if a != z { Some((a, z)) } else { None }
            },
        }
    }

    /// The display column of the cursor on its line.
    fn cursor_col(&self) -> (r: usize)
        requires
            self.wf(),
        ensures
            is_col_of(self.text@, self.cursor as int, r as int),
            r <= usize::MAX / 2,
    {
        let line = self.line();
        let ls = self.text.line_start(line);
        proof {
            self.text.lemma_wf();
            lemma_line_start_boundary(self.text@, line as int, ls as int);
        }
        let r = width::display_col(&self.text, ls, self.cursor);
        proof {
            if ls < self.cursor && ls < self.text@.len() {
                let cs = decode_utf8(self.text@.subrange(ls as int, self.cursor as int));
                width::lemma_width_bounds(cs);
                lemma_sub_boundary(self.text@, ls as int, self.cursor as int, ls as int);
                encode_utf8_decode_utf8(cs);
                decode_utf8_encode_utf8(self.text@.subrange(ls as int, self.cursor as int));
                crate::encoding::lemma_encode_len(cs);
                assert(cs.len() <= TEXT_MAX);
                assert(8 * cs.len() <= 8 * TEXT_MAX) by (nonlinear_arith)
                    requires
                        cs.len() <= TEXT_MAX,
                ;
            }
            assert(is_line_start(self.text@, line as int, ls as int));
        }
        r
    }

    /// Scrolls the view so that the cursor is inside `rows` lines from `top` and
    /// `cols` columns from `left`.
    pub fn reframe(&mut self, rows: usize, cols: usize)
        requires
            old(self).wf(),
            old(self).top + rows <= usize::MAX,
            old(self).left + cols <= usize::MAX,
        ensures
            final(self).wf(),
            ({
                let line = count_nl(old(self).text@.take(old(self).cursor as int)) as int;
                let t1 = if line < old(self).top { line } else { old(self).top as int };
                final(self).top == (if line >= t1 + rows { line - rows + 1 } else { t1 })
            }),
            exists|col: int| is_col_of(old(self).text@, old(self).cursor as int, col) && ({
                let l1 = if col < old(self).left { col } else { old(self).left as int };
                final(self).left == (if col >= l1 + cols { col + 1 - cols } else { l1 })
            }),
            final(self).text == old(self).text,
            final(self).cursor == old(self).cursor,
            final(self).name == old(self).name,
            final(self).path == old(self).path,
            final(self).mark == old(self).mark,
            final(self).mark_active == old(self).mark_active,
            final(self).modified == old(self).modified,
            final(self).goal == old(self).goal,
            final(self).undo == old(self).undo,
            final(self).undo_pos == old(self).undo_pos,
            final(self).group == old(self).group,
            final(self).hist == old(self).hist,
            old(self).top <= TEXT_MAX + 1 ==> final(self).top <= TEXT_MAX + 1,
            old(self).left <= usize::MAX / 2 + 1 ==> final(self).left <= usize::MAX / 2 + 1,
            rows > 0 ==> final(self).top <= count_nl(old(self).text@.take(old(self).cursor as int)) < final(self).top + rows,
            cols > 0 ==> exists|col: int| is_col_of(old(self).text@, old(self).cursor as int, col) && final(self).left <= col
                < final(self).left + cols,
    {
        let line = self.line();
        proof {
            crate::encoding::lemma_count_nl_bound(self.text@.take(self.cursor as int));
            crate::encoding::lemma_count_nl_bound(self.text@);
            assert(count_nl(self.text@.take(self.cursor as int)) <= self.text@.len());
        }
        if line < self.top {
            self.top = line;
        }
        if line >= self.top + rows {
            self.top = line - rows + 1;
        }
        let col = self.cursor_col();
        if col < self.left {
            self.left = col;
        }
        if col >= self.left + cols {
            self.left = col + 1 - cols;
        }
    }

    /// Moves the cursor one character forward.
    pub fn forward(&mut self)
        requires
            old(self).wf(),
        ensures
            final(self).wf(),
            final(self).moved(*old(self)),
            final(self).goal == old(self).goal,
            old(self).cursor >= old(self).text@.len() ==> final(self).cursor == old(self).cursor,
            old(self).cursor < old(self).text@.len() ==> final(self).cursor == old(self).cursor
                + crate::encoding::char_bytes(char_at_spec(old(self).text@, old(self).cursor as int)).len(),
    {
        self.cursor = self.text.next_boundary(self.cursor);
    }

    /// Moves the cursor one character back.
    pub fn backward(&mut self)
        requires
            old(self).wf(),
        ensures
            final(self).wf(),
            final(self).moved(*old(self)),
            final(self).goal == old(self).goal,
            old(self).cursor == 0 ==> final(self).cursor == 0,
            old(self).cursor > 0 ==> final(self).cursor < old(self).cursor && is_char_boundary(
                old(self).text@,
                final(self).cursor as int,
            ) && forall|k: int|
                final(self).cursor < k < old(self).cursor ==> !is_char_boundary(old(self).text@, k),
    {
        self.cursor = self.text.prev_boundary(self.cursor);
    }

    /// Moves the cursor a line down or up, keeping to the goal column; past the last
    /// line it goes to the end, before the first to the start.
    pub fn vertical(&mut self, down: bool)
        requires
            old(self).wf(),
        ensures
            final(self).wf(),
            final(self).text == old(self).text,
            final(self).mark == old(self).mark,
            final(self).mark_active == old(self).mark_active,
            final(self).undo == old(self).undo,
            final(self).undo_pos == old(self).undo_pos,
            final(self).hist == old(self).hist,
            final(self).group == old(self).group,
            final(self).top == old(self).top,
            final(self).left == old(self).left,
            final(self).modified == old(self).modified,
            final(self).name == old(self).name,
            final(self).path == old(self).path,
            final(self).line_moved(*old(self), down),
    {
        let line = self.line();
        let goal = match self.goal {
            Some(g) => g,
            None => {
                let g = self.cursor_col();
                self.goal = Some(g);
                g
            },
        };
        let count = self.text.line_count();
        proof {
            self.text.lemma_wf();
            is_char_boundary_start_end_of_seq(self.text@);
            crate::encoding::lemma_count_nl_bound(self.text@.take(self.cursor as int));
            crate::encoding::lemma_count_nl_bound(self.text@);
        }
        let target = if down {
            if line + 1 >= count {
                self.cursor = self.text.len();
                return;
            }
            line + 1
        } else {
            if line == 0 {
                self.cursor = 0;
                return;
            }
            line - 1
        };
        let ls = self.text.line_start(target);
        proof {
            lemma_line_start_boundary(self.text@, target as int, ls as int);
        }
        self.cursor = width::offset_at_col(&self.text, ls, goal);
        proof {
            assert(is_line_start(self.text@, target as int, ls as int));
            assert(is_col_offset(self.text@, ls as int, goal as int, self.cursor as int));
            assert(self.goal->0 == goal);
            assert(exists|l: int| is_line_start(self.text@, target as int, l) && is_col_offset(self.text@, l, goal as int, self.cursor as int));
        }
    }

    /// Where the word at or after the cursor ends.
    pub(crate) fn word_end(&self) -> (r: usize)
        requires
            self.wf(),
        ensures
            r == word_end_spec(self.text@, self.cursor as int),
            r <= self.text@.len(),
            is_char_boundary(self.text@, r as int),
    {
        let len = self.text.len();
        let bytes = self.text.slice_bytes(self.cursor, len);
        let ghost t = self.text@;
        let ghost sub = t.subrange(self.cursor as int, t.len() as int);
        proof {
            self.text.lemma_wf();
            is_char_boundary_start_end_of_seq(t);
            lemma_sub_boundary(t, self.cursor as int, t.len() as int, self.cursor as int);
            if !(self.cursor < len) {
                assert(sub =~= bytes@);
            }
        }
        let cs = decode_all(&bytes);
        let mut i: usize = 0;
        let mut at = self.cursor;
        proof {
            crate::encoding::lemma_encode_len(cs@);
            assert(cs@.take(0) =~= Seq::<char>::empty());
        }
        while i < cs.len() && !is_alnum(cs[i])
            invariant
                i <= cs@.len(),
                cs@ == decode_utf8(sub),
                encode_utf8(cs@) == sub,
                sub.len() + self.cursor == t.len(),
                t.len() <= usize::MAX,
                at == self.cursor + encode_utf8(cs@.take(i as int)).len(),
                scan_fwd(cs@, 0, true) == scan_fwd(cs@, i as int, true),
            decreases cs@.len() - i,
        {
            proof {
                assert(cs@.take(i + 1) =~= cs@.take(i as int).push(cs@[i as int]));
                lemma_encode_push(cs@.take(i as int), cs@[i as int]);
                assert(cs@ =~= cs@.take(i + 1) + cs@.skip(i + 1));
                lemma_encode_concat(cs@.take(i + 1), cs@.skip(i + 1));
            }
            at = at + char_len(cs[i]);
            i = i + 1;
        }
        let ghost i0 = i as int;
        proof {
            assert(scan_fwd(cs@, 0, true) == i0);
        }
        while i < cs.len() && is_alnum(cs[i])
            invariant
                i0 <= i <= cs@.len(),
                cs@ == decode_utf8(sub),
                encode_utf8(cs@) == sub,
                sub.len() + self.cursor == t.len(),
                t.len() <= usize::MAX,
                at == self.cursor + encode_utf8(cs@.take(i as int)).len(),
                scan_fwd(cs@, 0, true) == i0,
                scan_fwd(cs@, i0, false) == scan_fwd(cs@, i as int, false),
            decreases cs@.len() - i,
        {
            proof {
                assert(cs@.take(i + 1) =~= cs@.take(i as int).push(cs@[i as int]));
                lemma_encode_push(cs@.take(i as int), cs@[i as int]);
                assert(cs@ =~= cs@.take(i + 1) + cs@.skip(i + 1));
                lemma_encode_concat(cs@.take(i + 1), cs@.skip(i + 1));
            }
            at = at + char_len(cs[i]);
            i = i + 1;
        }
        proof {
            assert(scan_fwd(cs@, i0, false) == i as int);
            lemma_prefix_boundary(sub, i as int);
            crate::encoding::lemma_sub_boundary_back(t, self.cursor as int, t.len() as int, encode_utf8(cs@.take(i as int)).len() as int);
        }
        at
    }

    /// Where the word before the cursor starts.
    pub(crate) fn word_start(&self) -> (r: usize)
        requires
            self.wf(),
        ensures
            r == word_start_spec(self.text@, self.cursor as int),
            r <= self.cursor,
            is_char_boundary(self.text@, r as int),
    {
        let bytes = self.text.slice_bytes(0, self.cursor);
        let ghost t = self.text@;
        let ghost sub = t.subrange(0, self.cursor as int);
        proof {
            self.text.lemma_wf();
            is_char_boundary_start_end_of_seq(t);
            lemma_sub_boundary(t, 0, self.cursor as int, 0);
            if !(0 < self.cursor) {
                assert(sub =~= bytes@);
            }
        }
        let cs = decode_all(&bytes);
        let mut i: usize = cs.len();
        proof {
            crate::encoding::lemma_encode_len(cs@);
            assert(cs@.take(cs@.len() as int) =~= cs@);
        }
        while i > 0 && !is_alnum(cs[i - 1])
            invariant
                i <= cs@.len(),
                cs@ == decode_utf8(sub),
                encode_utf8(cs@) == sub,
                scan_back(cs@, cs@.len() as int, true) == scan_back(cs@, i as int, true),
            decreases i,
        {
            i = i - 1;
        }
        let ghost i0 = i as int;
        while i > 0 && is_alnum(cs[i - 1])
            invariant
                i <= i0 <= cs@.len(),
                cs@ == decode_utf8(sub),
                encode_utf8(cs@) == sub,
                scan_back(cs@, cs@.len() as int, true) == i0,
                scan_back(cs@, i0, false) == scan_back(cs@, i as int, false),
            decreases i,
        {
            i = i - 1;
        }
        let at = prefix_bytes(&cs, i);
        proof {
            lemma_prefix_boundary(sub, i as int);
            crate::encoding::lemma_sub_boundary_back(t, 0, self.cursor as int, at as int);
        }
        at
    }
}


/// A run of entries of group `g` that starts at `q` (after an entry of another
/// group, or at the start) and ends at `pos` is undone back to `q`.
proof fn lemma_group_run(u: Seq<Undo>, q: int, pos: int, g: u64)
    requires
        0 <= q <= pos <= u.len(),
        forall|k: int| q <= k < pos ==> (#[trigger] u[k]).group == g,
        q > 0 ==> u[q - 1].group != g,
    ensures
        group_start(u, pos, g) == q,
    decreases pos,
{
    if pos > q {
        lemma_group_run(u, q, pos - 1, g);
    }
}

/// `b1` is `b0` after edits that all went into one undo group, newer than the groups
/// of the edits `b0` had: the text before the first of the new edits is `b0`'s, and
/// undoing starts from the latest edit.
pub open spec fn edits_grouped(b0: Buffer, b1: Buffer) -> bool {
    let n = b0.undo@.len();
    &&& n <= b1.undo@.len()
    &&& n < b1.hist@.len()
    &&& b1.hist@[n as int] == b0.text@
    &&& forall|k: int| n <= k < b1.undo@.len() ==> (#[trigger] b1.undo@[k]).group == b1.group
    &&& forall|k: int| 0 <= k < n ==> (#[trigger] b1.undo@[k]).group < b1.group
    &&& b1.undo@.len() > n ==> b1.undo_pos == b1.undo@.len()
}

/// `y`'s undo history is `x`'s with edits added in `x`'s group; undo starts from the
/// latest edit in `y` when it did in `x`.
pub open spec fn appended_in_group(x: Buffer, y: Buffer) -> bool {
    let n = x.undo@.len();
    &&& n <= y.undo@.len()
    &&& y.undo@.take(n as int) == x.undo@
    &&& x.hist@.len() <= y.hist@.len()
    &&& y.hist@.take(x.hist@.len() as int) == x.hist@
    &&& y.group == x.group
    &&& forall|k: int| n <= k < y.undo@.len() ==> (#[trigger] y.undo@[k]).group == x.group
    &&& x.undo_pos == n ==> y.undo_pos == y.undo@.len()
}

/// A buffer's history stands in `appended_in_group` to itself.
pub proof fn lemma_appended_refl(x: Buffer)
    requires
        x.wf(),
    ensures
        appended_in_group(x, x),
{
    x.lemma_wf();
    assert(x.undo@.take(x.undo@.len() as int) =~= x.undo@);
    assert(x.hist@.take(x.hist@.len() as int) =~= x.hist@);
}

/// A buffer with the same history as `x` stands in `appended_in_group` to it.
pub proof fn lemma_same_history_appended(x: Buffer, y: Buffer)
    requires
        x.wf(),
        y.undo == x.undo,
        y.undo_pos == x.undo_pos,
        y.hist == x.hist,
        y.group == x.group,
    ensures
        appended_in_group(x, y),
{
    lemma_appended_refl(x);
}

/// An insertion at the cursor adds to the history in the buffer's own group.
pub proof fn lemma_inserted_at_cursor_appended(x: Buffer, y: Buffer, s: Seq<u8>)
    requires
        x.wf(),
        y.inserted_at_cursor(x, s),
    ensures
        appended_in_group(x, y),
{
    x.lemma_wf();
    let mid = choose|mid: Buffer| mid.inserted(x, x.cursor as int, s) && y == (Buffer { cursor: (x.cursor + s.len()) as usize, ..mid });
    if s.len() == 0 {
        lemma_appended_refl(x);
    } else {
        let n = x.undo@.len() as int;
        assert(y.undo@.take(n) =~= x.undo@);
        assert(y.undo@[n].group == x.group);
        assert(y.hist@.take(x.hist@.len() as int) =~= x.hist@);
    }
}

/// A deletion adds to the history in the buffer's own group.
pub proof fn lemma_deleted_appended(x: Buffer, y: Buffer, start: int, end: int, r: Seq<char>)
    requires
        x.wf(),
        y.deleted(x, start, end, r),
    ensures
        appended_in_group(x, y),
{
    x.lemma_wf();
    if start >= end {
        lemma_appended_refl(x);
    } else {
        let n = x.undo@.len() as int;
        assert(y.undo@[n] == y.undo@.last());
        assert(y.hist@.take(x.hist@.len() as int) =~= x.hist@);
    }
}

/// `appended_in_group` composes.
pub proof fn lemma_appended_trans(x: Buffer, y: Buffer, z: Buffer)
    requires
        x.wf(),
        y.wf(),
        appended_in_group(x, y),
        appended_in_group(y, z),
    ensures
        appended_in_group(x, z),
{
    x.lemma_wf();
    y.lemma_wf();
    let n = x.undo@.len() as int;
    let m = y.undo@.len() as int;
    assert(z.undo@.take(n) =~= z.undo@.take(m).take(n));
    assert forall|k: int| n <= k < z.undo@.len() implies (#[trigger] z.undo@[k]).group == x.group by {
        if k < m {
            assert(z.undo@[k] == z.undo@.take(m)[k]);
        }
    }
    assert(z.hist@.take(x.hist@.len() as int) =~= z.hist@.take(y.hist@.len() as int).take(x.hist@.len() as int));
}

/// After edits that went into one new group, the group undo would revert starts
/// right after `b0`'s edits, where the history holds `b0`'s text.
pub proof fn lemma_grouped_start(b0: Buffer, b1: Buffer)
    requires
        edits_grouped(b0, b1),
        b1.undo@.len() > b0.undo@.len(),
    ensures
        b1.undo_pos == b1.undo@.len(),
        group_start(b1.undo@, b1.undo_pos as int, b1.undo@[b1.undo_pos - 1].group) == b0.undo@.len(),
        b1.hist@[b0.undo@.len() as int] == b0.text@,
{
    let n = b0.undo@.len() as int;
    let u = b1.undo@;
    let len = u.len() as int;
    let g = b1.group;
    assert(u[len - 1].group == g);
    if n > 0 {
        assert(u[n - 1].group < g);
    }
    lemma_group_run(u, n, len, g);
}

/// A well-formed buffer's history holds its text at the undo position.
pub proof fn lemma_undo_position(b: Buffer)
    requires
        b.wf(),
    ensures
        b.undo_pos <= b.undo@.len(),
        b.hist@.len() == b.undo@.len() + 1,
        b.hist@[b.undo_pos as int] == b.text@,
{
}

/// One more undo continues a run of undo steps begun at `b0`: `bk` stands where `k`
/// steps leave `b0` and has more to undo, and `b1` is what undoing leaves of it.
pub proof fn lemma_undo_step(b0: Buffer, bk: Buffer, b1: Buffer, k: nat)
    requires
        b0.wf(),
        bk.wf(),
        b0.undo@.len() <= bk.undo@.len(),
        b0.hist@.len() <= bk.hist@.len(),
        bk.undo@.take(b0.undo@.len() as int) == b0.undo@,
        bk.hist@.take(b0.hist@.len() as int) == b0.hist@,
        bk.undo_pos == undo_steps(b0.undo@, b0.undo_pos as int, k),
        bk.undo_pos > 0,
        b1.undone_from(bk),
    ensures
        b1.undo_pos == undo_steps(b0.undo@, b0.undo_pos as int, k + 1),
        b1.undo_pos < bk.undo_pos <= b0.undo_pos,
        b1.text@ == b0.hist@[b1.undo_pos as int],
        b1.cursor == b0.undo@[b1.undo_pos as int].cursor,
        b0.undo@.len() <= b1.undo@.len(),
        b0.hist@.len() <= b1.hist@.len(),
        b1.undo@.take(b0.undo@.len() as int) == b0.undo@,
        b1.hist@.take(b0.hist@.len() as int) == b0.hist@,
{
    let u0 = b0.undo@;
    let pos0 = b0.undo_pos as int;
    let q = bk.undo_pos as int;
    lemma_undo_steps_bound(u0, pos0, k);
    lemma_undo_steps_succ(u0, pos0, k);
    assert(bk.undo@[q - 1] == bk.undo@.take(u0.len() as int)[q - 1]);
    let g = u0[q - 1].group;
    lemma_group_start_prefix(u0, bk.undo@, q, g);
    lemma_group_start(u0, q - 1, g);
    let p = group_start(u0, q, g);
    assert(p == group_start(u0, q - 1, g));
    assert(bk.hist@[p] == bk.hist@.take(b0.hist@.len() as int)[p]);
    assert(bk.undo@[p] == bk.undo@.take(u0.len() as int)[p]);
    assert forall|i: int| 0 <= i < u0.len() implies b1.undo@[i] == u0[i] by {
        assert(b1.undo@[i] == b1.undo@.take(bk.undo@.len() as int)[i]);
        assert(bk.undo@[i] == bk.undo@.take(u0.len() as int)[i]);
    }
    assert(b1.undo@.take(u0.len() as int) =~= u0);
    let h0 = b0.hist@;
    assert forall|i: int| 0 <= i < h0.len() implies b1.hist@[i] == h0[i] by {
        assert(b1.hist@[i] == b1.hist@.take(bk.hist@.len() as int)[i]);
        assert(bk.hist@[i] == bk.hist@.take(h0.len() as int)[i]);
    }
    assert(b1.hist@.take(h0.len() as int) =~= h0);
}

/// One undo after edits that went into one new group (`edits_grouped`) brings back
/// the text from before all of them.
pub proof fn lemma_undo_reverts_group(b0: Buffer, b1: Buffer, b2: Buffer)
    requires
        edits_grouped(b0, b1),
        b1.undo@.len() > b0.undo@.len(),
        b2.undone_from(b1),
    ensures
        b2.text@ == b0.text@,
{
    lemma_grouped_start(b0, b1);
}

/// Undo reverts an insertion made in a fresh group: the text and the cursor are
/// back to what they were before it.
pub proof fn lemma_undo_reverts_insert(b0: Buffer, b1: Buffer, b2: Buffer, at: int, s: Seq<u8>)
    requires
        b0.wf(),
        b0.undo_pos == b0.undo@.len(),
        forall|k: int| 0 <= k < b0.undo@.len() ==> (#[trigger] b0.undo@[k]).group < b0.group,
        s.len() > 0,
        b1.inserted(b0, at, s),
        b2.undone_from(b1),
    ensures
        b2.text@ == b0.text@,
        b2.cursor == b0.cursor,
{
    let n = b0.undo@.len() as int;
    assert(b1.undo@[n].group == b0.group);
    if n > 0 {
        assert(b1.undo@[n - 1] == b0.undo@[n - 1]);
    }
    lemma_group_run(b1.undo@, n, n + 1, b0.group);
    assert(b1.hist@[n] == b0.hist@[n]);
}

/// Undo reverts a deletion made in a fresh group: the text and the cursor are
/// back to what they were before it.
pub proof fn lemma_undo_reverts_delete(b0: Buffer, b1: Buffer, b2: Buffer, start: int, end: int, r: Seq<char>)
    requires
        b0.wf(),
        b0.undo_pos == b0.undo@.len(),
        forall|k: int| 0 <= k < b0.undo@.len() ==> (#[trigger] b0.undo@[k]).group < b0.group,
        start < end,
        b1.deleted(b0, start, end, r),
        b2.undone_from(b1),
    ensures
        b2.text@ == b0.text@,
        b2.cursor == b0.cursor,
{
    let n = b0.undo@.len() as int;
    assert(b1.undo@[n].group == b0.group);
    if n > 0 {
        assert(b1.undo@[n - 1] == b0.undo@.take(n)[n - 1]);
    }
    lemma_group_run(b1.undo@, n, n + 1, b0.group);
    assert(b1.hist@[n] == b0.hist@[n]);
}

/// Undoing is itself undoable: once another command has broken the undo chain, a
/// second undo brings back the text the first one reverted.
pub proof fn lemma_undo_undoes_undo(b0: Buffer, b1: Buffer, b2: Buffer, b3: Buffer)
    requires
        b0.wf(),
        b0.undo_pos > 0,
        b0.group < u64::MAX,
        b1.undone_from(b0),
        b1.undo@.len() > b0.undo@.len(),
        b2.undo@ == b1.undo@,
        b2.hist@ == b1.hist@,
        b2.undo_pos == b2.undo@.len(),
        b3.undone_from(b2),
    ensures
        b3.text@ == b0.text@,
{
    let n = b0.undo@.len() as int;
    let m = b2.undo@.len() as int;
    let g = b1.group;
    assert(b2.undo@[m - 1].group == g);
    assert forall|k: int| n <= k < m implies (#[trigger] b2.undo@[k]).group == g by {}
    if n > 0 {
        assert(b2.undo@[n - 1] == b1.undo@.take(n)[n - 1]);
        assert(b0.undo@[n - 1].group <= b0.group);
    }
    lemma_group_run(b2.undo@, n, m, g);
    assert(b2.hist@[n] == b1.hist@.take(b0.hist@.len() as int)[n]);
}


impl Buffer {
    /// `self` is `old` with `s` inserted at its cursor and the cursor just past it.
    pub open spec fn inserted_at_cursor(self, old: Buffer, s: Seq<u8>) -> bool {
        exists|mid: Buffer|
            mid.inserted(old, old.cursor as int, s) && self == (Buffer { cursor: (old.cursor + s.len()) as usize, ..mid })
    }
}


impl Buffer {
    /// Puts the cursor at `at`, a boundary of the text.
    pub(crate) fn goto(&mut self, at: usize)
        requires
            old(self).wf(),
            at <= old(self).text@.len(),
            is_char_boundary(old(self).text@, at as int),
        ensures
            final(self).wf(),
            final(self).moved(*old(self)),
            final(self).goal == old(self).goal,
            final(self).cursor == at,
    {
        self.cursor = at;
    }

    /// Sets the mark and whether it is active.
    pub(crate) fn put_mark(&mut self, m: Option<usize>, active: bool)
        requires
            old(self).wf(),
            m matches Some(k) ==> k <= old(self).text@.len() && is_char_boundary(old(self).text@, k as int),
        ensures
            final(self).wf(),
            final(self).mark == m,
            final(self).mark_active == active,
            final(self).text == old(self).text,
            final(self).cursor == old(self).cursor,
            final(self).goal == old(self).goal,
            final(self).top == old(self).top,
            final(self).left == old(self).left,
            final(self).modified == old(self).modified,
            final(self).name == old(self).name,
            final(self).path == old(self).path,
            final(self).undo == old(self).undo,
            final(self).undo_pos == old(self).undo_pos,
            final(self).hist == old(self).hist,
            final(self).group == old(self).group,
    {
        self.mark = m;
        self.mark_active = active;
    }
}


impl Buffer {
    /// Inserts `s` at the cursor and puts the cursor just past it.
    pub fn insert_at_cursor(&mut self, s: &str)
        requires
            old(self).wf(),
            old(self).text@.len() + s.spec_bytes().len() <= TEXT_MAX,
        ensures
            final(self).wf(),
            final(self).inserted_at_cursor(*old(self), s.spec_bytes()),
            final(self).text@ == spliced(old(self).text@, old(self).cursor as int, s.spec_bytes()),
            final(self).cursor == old(self).cursor + s.spec_bytes().len(),
            final(self).name == old(self).name,
            final(self).path == old(self).path,
            final(self).top == old(self).top,
            final(self).left == old(self).left,
    {
        let at = self.cursor;
        let ghost t0 = self.text@;
        let ghost b0 = *self;
        proof {
            self.text.lemma_wf();
        }
        self.insert(at, s);
        let ghost mid = *self;
        proof {
            encode_utf8_valid_utf8(s@);
            lemma_splice_boundary(t0, at as int, s.spec_bytes(), at as int);
        }
        let n = str_bytes(s).len();
        self.cursor = at + n;
        proof {
            if s.spec_bytes().len() == 0 {
                assert(mid == b0);
                assert(t0 =~= spliced(t0, at as int, s.spec_bytes()));
            }
            assert(*self == (Buffer { cursor: (b0.cursor + s.spec_bytes().len()) as usize, ..mid }));
        }
    }
}


/// The end of a line is at or after where the search starts.
pub proof fn lemma_newline_bound(t: Seq<u8>, from: int, r: int)
    requires
        valid_utf8(t),
        0 <= from <= t.len(),
        is_next_newline(t, from, r),
    ensures
        from <= r <= t.len(),
        is_char_boundary(t, r),
        r < t.len() ==> t[r] == NL,
{
    lemma_newline_boundary(t, from, r);
}

/// Word ends lie at or after the cursor, word starts at or before it.
pub proof fn lemma_word_end_after(b: Buffer, forward: bool)
    requires
        b.wf(),
    ensures
        b.cursor <= word_end_spec(b.text@, b.cursor as int) <= b.text@.len(),
        word_start_spec(b.text@, b.cursor as int) <= b.cursor,
{
    b.lemma_wf();
    let t = b.text@;
    let cs = decode_utf8(t.subrange(b.cursor as int, t.len() as int));
    let j = scan_fwd(cs, scan_fwd(cs, 0, true), false);
    lemma_scan_fwd(cs, 0, true);
    lemma_scan_fwd(cs, scan_fwd(cs, 0, true), false);
    is_char_boundary_start_end_of_seq(t);
    lemma_sub_boundary(t, b.cursor as int, t.len() as int, b.cursor as int);
    lemma_prefix_boundary(t.subrange(b.cursor as int, t.len() as int), j);
    let ds = decode_utf8(t.subrange(0, b.cursor as int));
    let k = scan_back(ds, scan_back(ds, ds.len() as int, true), false);
    lemma_scan_back(ds, ds.len() as int, true);
    lemma_scan_back(ds, scan_back(ds, ds.len() as int, true), false);
    lemma_sub_boundary(t, 0, b.cursor as int, 0);
    lemma_prefix_boundary(t.subrange(0, b.cursor as int), k);
}

proof fn lemma_scan_fwd(cs: Seq<char>, i: int, want: bool)
    requires
        0 <= i <= cs.len(),
    ensures
        i <= scan_fwd(cs, i, want) <= cs.len(),
    decreases cs.len() - i,
{
    if i < cs.len() && alnum(cs[i]) != want {
        lemma_scan_fwd(cs, i + 1, want);
    }
}

proof fn lemma_scan_back(cs: Seq<char>, i: int, want: bool)
    requires
        0 <= i <= cs.len(),
    ensures
        0 <= scan_back(cs, i, want) <= i,
    decreases i,
{
    if i > 0 && alnum(cs[i - 1]) != want {
        lemma_scan_back(cs, i - 1, want);
    }
}


impl Buffer {
    /// Scrolls the view so that line `top` is the first shown.
    pub(crate) fn set_top(&mut self, top: usize)
        requires
            old(self).wf(),
        ensures
            final(self).wf(),
            final(self).top == top,
            final(self).text == old(self).text,
            final(self).cursor == old(self).cursor,
            final(self).mark == old(self).mark,
            final(self).mark_active == old(self).mark_active,
            final(self).goal == old(self).goal,
            final(self).left == old(self).left,
            final(self).modified == old(self).modified,
            final(self).name == old(self).name,
            final(self).path == old(self).path,
            final(self).undo == old(self).undo,
            final(self).undo_pos == old(self).undo_pos,
            final(self).hist == old(self).hist,
            final(self).group == old(self).group,
    {
        self.top = top;
    }

    /// Forgets the goal column of vertical motion.
    pub(crate) fn clear_goal(&mut self)
        requires
            old(self).wf(),
        ensures
            final(self).wf(),
            final(self).goal is None,
            final(self).mode_bits == old(self).mode_bits,
            final(self).undo == old(self).undo,
            final(self).hist == old(self).hist,
            final(self).group == old(self).group,
            final(self).undo_pos == old(self).undo_pos,
            final(self).text == old(self).text,
            final(self).cursor == old(self).cursor,
            final(self).mark == old(self).mark,
            final(self).mark_active == old(self).mark_active,
            final(self).top == old(self).top,
            final(self).left == old(self).left,
            final(self).modified == old(self).modified,
            final(self).name == old(self).name,
            final(self).path == old(self).path,
    {
        self.goal = None;
    }
}


impl Buffer {
    /// Records that the text now matches the file.
    pub(crate) fn mark_saved(&mut self)
        requires
            old(self).wf(),
        ensures
            final(self).wf(),
            !final(self).modified,
            final(self).text == old(self).text,
            final(self).cursor == old(self).cursor,
            final(self).top == old(self).top,
            final(self).left == old(self).left,
            final(self).name == old(self).name,
            final(self).path == old(self).path,
    {
        self.modified = false;
    }

    /// Makes the buffer visit `path` under `name`, saved.
    pub(crate) fn set_file(&mut self, name: String, path: String)
        requires
            old(self).wf(),
        ensures
            final(self).wf(),
            !final(self).modified,
            final(self).name == name,
            final(self).path == Some(path),
            final(self).text == old(self).text,
            final(self).cursor == old(self).cursor,
            final(self).top == old(self).top,
            final(self).left == old(self).left,
    {
        self.name = name;
        self.path = Some(path);
        self.modified = false;
    }
}

} // verus!
