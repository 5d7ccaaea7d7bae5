//! The editor session: the buffer list, the kill ring, the key map, and the modes
//! that keys pass through (editing, prompts, incremental search, query-replace).
use vstd::prelude::*;
use vstd::utf8::*;
use vstd::string::*;
use crate::editor::{Buffer, TEXT_MAX, selection_spec};
use crate::encoding::{str_bytes, string_bytes, bytes_to_string, is_cont, find_from, rfind_before, occurs_at, lemma_splice_boundary, lemma_boundary_byte, lemma_match_boundaries, str_chars, push_str};
use crate::forth;
use crate::forth::{Host, Vm};
use crate::term::Key;
use crate::text::{is_line_start, is_next_newline, char_at_spec};

verus! {

/// An editing command, as keys are bound to them.
#[derive(Clone, Copy, PartialEq, Eq, Structural, Debug)]
pub enum Cmd {
    Insert(char),
    Newline,
    Forward,
    Backward,
    Next,
    Prev,
    WordForward,
    WordBackward,
    LineStart,
    LineEnd,
    BufStart,
    BufEnd,
    PageDown,
    PageUp,
    Recenter,
    DeleteForward,
    DeleteBackward,
    KillLine,
    KillWordForward,
    KillWordBackward,
    SetMark,
    ExchangeMark,
    KillRegion,
    CopyRegion,
    Yank,
    YankPop,
    SearchForward,
    SearchBackward,
    QueryReplace,
    Undo,
    Save,
    WriteAs,
    FindFile,
    SwitchBuffer,
    KillBuffer,
    ListBuffers,
    QuitEditor,
    Repl,
    EvalPoint,
}

/// The key bindings: after `C-x` when `cx`, at top level otherwise.
pub open spec fn keymap_spec(cx: bool, key: Key) -> Option<Cmd> {
    if cx {
        match key {
            Key::Ctrl('s') => Some(Cmd::Save),
            Key::Ctrl('w') => Some(Cmd::WriteAs),
            Key::Ctrl('f') => Some(Cmd::FindFile),
            Key::Ctrl('c') => Some(Cmd::QuitEditor),
            Key::Ctrl('x') => Some(Cmd::ExchangeMark),
            Key::Ctrl('b') => Some(Cmd::ListBuffers),
            Key::Char('b') => Some(Cmd::SwitchBuffer),
            Key::Char('k') => Some(Cmd::KillBuffer),
            _ => None,
        }
    } else {
        match key {
            Key::Char(c) => Some(Cmd::Insert(c)),
            Key::Enter => Some(Cmd::Newline),
            Key::Tab => Some(Cmd::Insert('\t')),
            Key::Ctrl('f') | Key::Right => Some(Cmd::Forward),
            Key::Ctrl('b') | Key::Left => Some(Cmd::Backward),
            Key::Ctrl('n') | Key::Down => Some(Cmd::Next),
            Key::Ctrl('p') | Key::Up => Some(Cmd::Prev),
            Key::Meta('f') => Some(Cmd::WordForward),
            Key::Meta('b') => Some(Cmd::WordBackward),
            Key::Ctrl('a') | Key::Home => Some(Cmd::LineStart),
            Key::Ctrl('e') | Key::End => Some(Cmd::LineEnd),
            Key::Meta('<') => Some(Cmd::BufStart),
            Key::Meta('>') => Some(Cmd::BufEnd),
            Key::Ctrl('v') | Key::PageDown => Some(Cmd::PageDown),
            Key::Meta('v') | Key::PageUp => Some(Cmd::PageUp),
            Key::Ctrl('l') => Some(Cmd::Recenter),
            Key::Ctrl('d') | Key::Delete => Some(Cmd::DeleteForward),
            Key::Backspace => Some(Cmd::DeleteBackward),
            Key::Ctrl('k') => Some(Cmd::KillLine),
            Key::Meta('d') => Some(Cmd::KillWordForward),
            Key::MetaBackspace => Some(Cmd::KillWordBackward),
            Key::Ctrl(' ') => Some(Cmd::SetMark),
            Key::Ctrl('w') => Some(Cmd::KillRegion),
            Key::Meta('w') => Some(Cmd::CopyRegion),
            Key::Ctrl('y') => Some(Cmd::Yank),
            Key::Meta('y') => Some(Cmd::YankPop),
            Key::Ctrl('s') => Some(Cmd::SearchForward),
            Key::Ctrl('r') => Some(Cmd::SearchBackward),
            Key::Meta('%') => Some(Cmd::QueryReplace),
            Key::Ctrl('_') => Some(Cmd::Undo),
            Key::Meta('x') => Some(Cmd::Repl),
            Key::Meta(';') => Some(Cmd::EvalPoint),
            _ => None,
        }
    }
}

/// The command `key` is bound to.
pub fn keymap(cx: bool, key: Key) -> (r: Option<Cmd>)
    ensures
        r == keymap_spec(cx, key),
{
    if cx {
        return match key {
            Key::Ctrl('s') => Some(Cmd::Save),
            Key::Ctrl('w') => Some(Cmd::WriteAs),
            Key::Ctrl('f') => Some(Cmd::FindFile),
            Key::Ctrl('c') => Some(Cmd::QuitEditor),
            Key::Ctrl('x') => Some(Cmd::ExchangeMark),
            Key::Ctrl('b') => Some(Cmd::ListBuffers),
            Key::Char('b') => Some(Cmd::SwitchBuffer),
            Key::Char('k') => Some(Cmd::KillBuffer),
            _ => None,
        };
    }
    match key {
        Key::Char(c) => Some(Cmd::Insert(c)),
        Key::Enter => Some(Cmd::Newline),
        Key::Tab => Some(Cmd::Insert('\t')),
        Key::Ctrl('f') | Key::Right => Some(Cmd::Forward),
        Key::Ctrl('b') | Key::Left => Some(Cmd::Backward),
        Key::Ctrl('n') | Key::Down => Some(Cmd::Next),
        Key::Ctrl('p') | Key::Up => Some(Cmd::Prev),
        Key::Meta('f') => Some(Cmd::WordForward),
        Key::Meta('b') => Some(Cmd::WordBackward),
        Key::Ctrl('a') | Key::Home => Some(Cmd::LineStart),
        Key::Ctrl('e') | Key::End => Some(Cmd::LineEnd),
        Key::Meta('<') => Some(Cmd::BufStart),
        Key::Meta('>') => Some(Cmd::BufEnd),
        Key::Ctrl('v') | Key::PageDown => Some(Cmd::PageDown),
        Key::Meta('v') | Key::PageUp => Some(Cmd::PageUp),
        Key::Ctrl('l') => Some(Cmd::Recenter),
        Key::Ctrl('d') | Key::Delete => Some(Cmd::DeleteForward),
        Key::Backspace => Some(Cmd::DeleteBackward),
        Key::Ctrl('k') => Some(Cmd::KillLine),
        Key::Meta('d') => Some(Cmd::KillWordForward),
        Key::MetaBackspace => Some(Cmd::KillWordBackward),
        Key::Ctrl(' ') => Some(Cmd::SetMark),
        Key::Ctrl('w') => Some(Cmd::KillRegion),
        Key::Meta('w') => Some(Cmd::CopyRegion),
        Key::Ctrl('y') => Some(Cmd::Yank),
        Key::Meta('y') => Some(Cmd::YankPop),
        Key::Ctrl('s') => Some(Cmd::SearchForward),
        Key::Ctrl('r') => Some(Cmd::SearchBackward),
        Key::Meta('%') => Some(Cmd::QueryReplace),
        Key::Ctrl('_') => Some(Cmd::Undo),
        Key::Meta('x') => Some(Cmd::Repl),
        Key::Meta(';') => Some(Cmd::EvalPoint),
        _ => None,
    }
}

/// What a prompt's answer is for.
pub enum PromptAction {
    FindFile,
    WriteAs,
    GotoLine,
    SwitchBuffer,
    KillBufferConfirm,
    QuitConfirm,
    ReplaceFrom,
    ReplaceTo { from: String },
    Eval,
}

/// A line of input read in the echo area.
pub struct Prompt {
    pub label: String,
    pub input: String,
    pub cur: usize,
    pub matches: String,
    pub yes_no: bool,
    pub action: PromptAction,
}

/// An incremental search in progress.
pub struct Search {
    pub forward: bool,
    pub needle: String,
    pub found: bool,
    pub origin: usize,
    pub at: usize,
}

/// A query-replace in progress: `at` is the match being asked about.
pub struct Replace {
    pub from: String,
    pub to: String,
    pub at: usize,
    pub count: usize,
}

/// Where keys go.
pub enum Mode {
    Edit,
    Prompt(Prompt),
    Search(Search),
    Replace(Replace),
}

/// The kind of the previous command, which decides how kills, typing and yanks
/// combine with the next.
#[derive(Clone, Copy, PartialEq, Eq, Structural, Debug)]
pub enum Last {
    Insert,
    Kill,
    Yank,
    LineMove,
    Other,
}

/// A file read from disk for a buffer.
pub struct Loaded {
    pub content: String,
    pub mode: Option<u32>,
    pub path: String,
}

/// What reading a file for `find_file` came to.
pub enum OpenOutcome {
    Loaded(Loaded),
    NotFound,
    Failed(String),
}

/// File work the editor asks its caller to do; the answer comes back through
/// `find_file`, `file_loaded`, `saved`, `written_as` or `completed`.
pub enum Request {
    /// Open the file at this path.
    Open(String),
    /// Write `content` to the buffer's own (canonical) path.
    Save { path: String, content: String, mode: Option<u32> },
    /// Write `content` to this path, as typed.
    WriteAs { path: String, content: String, mode: Option<u32> },
    /// List the paths that complete this partial path.
    Complete(String),
}


/// `r` is `n` clamped to `[0, t.len()]` and moved back to a character boundary.
pub open spec fn snapped(t: Seq<u8>, n: int, r: int) -> bool {
    let c = if n < 0 { 0 } else if n > t.len() { t.len() as int } else { n };
    &&& 0 <= r <= c
    &&& is_char_boundary(t, r)
    &&& forall|k: int| r < k <= c ==> !is_char_boundary(t, k)
}

/// The line number `l` clamped to the lines of `t`.
pub open spec fn clamp_line(t: Seq<u8>, l: int) -> int {
    if l < 0 {
        0
    } else if l > crate::encoding::count_nl(t) {
        crate::encoding::count_nl(t) as int
    } else {
        l
    }
}

/// The buffer a Forth evaluation works on, and the message it leaves.
pub struct EvalCtx {
    buf: Buffer,
    echo: String,
    /// How many edits the buffer had recorded when the evaluation began.
    base_len: Ghost<nat>,
    /// The buffer's text when the evaluation began.
    base_text: Ghost<Seq<u8>>,
    /// The undo group the evaluation's edits go into; past the largest group when
    /// the counter had run out and no fresh group could be opened.
    group: Ghost<nat>,
}

impl EvalCtx {
    #[verifier::type_invariant]
    spec fn inv(self) -> bool {
        self.buf.wf()
    }

    /// The buffer being worked on.
    pub closed spec fn buffer(&self) -> Buffer {
        self.buf
    }

    /// The message left so far.
    pub closed spec fn message_text(&self) -> String {
        self.echo
    }

    /// Moves the buffer out, leaving an empty one in its place.
    fn take_buffer(&mut self) -> (r: Buffer)
        ensures
            r == old(self).buf,
            r.wf(),
            final(self).echo == old(self).echo,
            final(self).base_len == old(self).base_len,
            final(self).base_text == old(self).base_text,
            final(self).group == old(self).group,
    {
        proof {
            use_type_invariant(&*self);
            self.buf.lemma_wf();
        }
        let mut b = Buffer::new(String::new(), None, String::new(), None);
        std::mem::swap(&mut self.buf, &mut b);
        b
    }

    /// The offset `n` names: clamped to the text and snapped to a boundary.
    fn at(&self, n: i64) -> (r: usize)
        ensures
            snapped(self.buf.text@, n as int, r as int),
            r <= self.buf.text@.len(),
    {
        proof {
            use_type_invariant(self);
            self.buf.lemma_wf();
        }
        let len = self.buf.text.len();
        let c: usize = if n < 0 {
            0
        } else if n > len as i64 {
            len
        } else {
            n as usize
        };
        self.buf.text.snap(c)
    }

    /// The offsets `a` and `b` name, in order.
    fn range(&self, a: i64, b: i64) -> (r: (usize, usize))
        ensures
            r.0 <= r.1 <= self.buf.text@.len(),
            exists|x: int, y: int|
                snapped(self.buf.text@, a as int, x) && snapped(self.buf.text@, b as int, y) && r.0 == (
                if x < y { x } else { y }) && r.1 == (if x < y { y } else { x }),
    {
        let x = self.at(a);
        let y = self.at(b);
        if x < y { (x, y) } else { (y, x) }
    }
}

impl Host for EvalCtx {
    /// Every edit since the evaluation began went into its one undo group, newer
    /// than the groups of the edits from before it.
    closed spec fn kept(&self) -> bool {
        let u = self.buf.undo@;
        let (t0, n, g) = self.anchor();
        g <= u64::MAX ==> {
            &&& n <= u.len()
            &&& n < self.buf.hist@.len()
            &&& self.buf.hist@[n as int] == t0
            &&& self.buf.group == g
            &&& forall|k: int| n <= k < u.len() ==> (#[trigger] u[k]).group == g
            &&& forall|k: int| 0 <= k < n ==> (#[trigger] u[k]).group < g
            &&& u.len() > n ==> self.buf.undo_pos == u.len()
        }
    }

    closed spec fn anchor(&self) -> (Seq<u8>, nat, nat) {
        (self.base_text@, self.base_len@, self.group@)
    }

    open spec fn modeled(&self) -> bool {
        true
    }

    open spec fn buffer_model(&self) -> Buffer {
        self.buffer()
    }

    open spec fn message_model(&self) -> Seq<char> {
        self.message_text()@
    }

    fn len(&self) -> (r: i64)
        ensures
            r == self.buffer().text@.len(),
    {
        proof {
            use_type_invariant(self);
            self.buf.lemma_wf();
        }
        self.buf.text.len() as i64
    }

    fn cursor(&self) -> (r: i64)
        ensures
            r == self.buffer().cursor,
    {
        proof {
            use_type_invariant(self);
            self.buf.lemma_wf();
        }
        self.buf.cursor as i64
    }

    fn set_cursor(&mut self, at: i64)
        ensures
            snapped(old(self).buffer().text@, at as int, final(self).buffer().cursor as int),
            final(self).buffer().text == old(self).buffer().text,
    {
        proof {
            use_type_invariant(&*self);
            self.buf.lemma_wf();
        }
        let c = self.at(at);
        let ghost b0 = self.buf;
        let mut b = self.take_buffer();
        b.cursor = c;
        proof {
            b.lemma_same_text_wf(b0);
        }
        self.buf = b;
    }

    fn mark(&self) -> (r: i64)
        ensures
            r == (match self.buffer().mark {
                Some(m) => m as int,
                None => -1,
            }),
    {
        proof {
            use_type_invariant(self);
            self.buf.lemma_wf();
        }
        match self.buf.mark {
            Some(m) => m as i64,
            None => -1,
        }
    }

    fn set_mark(&mut self, at: i64)
        ensures
            at < 0 ==> final(self).buffer().mark is None && !final(self).buffer().mark_active,
            at >= 0 ==> final(self).buffer().mark_active && (final(self).buffer().mark matches Some(m) && snapped(
                old(self).buffer().text@,
                at as int,
                m as int,
            )),
            final(self).buffer().text == old(self).buffer().text,
            final(self).buffer().cursor == old(self).buffer().cursor,
    {
        proof {
            use_type_invariant(&*self);
            self.buf.lemma_wf();
        }
        let ghost b0 = self.buf;
        if at < 0 {
            let mut b = self.take_buffer();
            b.mark = None;
            b.mark_active = false;
            proof {
                b.lemma_same_text_wf(b0);
            }
            self.buf = b;
        } else {
            let m = self.at(at);
            let mut b = self.take_buffer();
            b.mark = Some(m);
            b.mark_active = true;
            proof {
                b.lemma_same_text_wf(b0);
            }
            self.buf = b;
        }
    }

    fn selection(&self) -> (r: (i64, i64))
        ensures
            r == (match selection_spec(self.buffer().mark_active, self.buffer().mark, self.buffer().cursor) {
                Some((a, b)) => (a as i64, b as i64),
                None => (self.buffer().cursor as i64, self.buffer().cursor as i64),
            }),
    {
        proof {
            use_type_invariant(self);
            self.buf.lemma_wf();
        }
        match self.buf.selection() {
            Some((a, b)) => (a as i64, b as i64),
            None => (self.buf.cursor as i64, self.buf.cursor as i64),
        }
    }

    fn slice(&self, a: i64, b: i64) -> (r: String)
        ensures
            exists|x: int, y: int|
                snapped(self.buffer().text@, a as int, x) && snapped(self.buffer().text@, b as int, y) && encode_utf8(r@)
                    == self.buffer().text@.subrange(if x < y { x } else { y }, if x < y { y } else { x }),
    {
        proof {
            use_type_invariant(self);
            self.buf.lemma_wf();
            self.buf.text.lemma_wf();
        }
        let (x, y) = self.range(a, b);
        let r = self.buf.text.slice(x, y);
        proof {
            if !(x < y && x < self.buf.text@.len()) {
                assert(encode_utf8(r@) =~= self.buf.text@.subrange(x as int, y as int));
            }
        }
        r
    }

    fn insert(&mut self, s: &str)
        ensures
            old(self).buffer().text@.len() + s.spec_bytes().len() <= TEXT_MAX ==> final(self).buffer().inserted_at_cursor(old(self).buffer(), s.spec_bytes()),
            old(self).buffer().text@.len() + s.spec_bytes().len() > TEXT_MAX ==> final(self).buffer() == old(self).buffer(),
    {
        proof {
            use_type_invariant(&*self);
            self.buf.lemma_wf();
            self.buf.text.lemma_wf();
        }
        let at = self.buf.cursor;
        let sb = str_bytes(s);
        let n = sb.len();
        let len = self.buf.text.len();
        if n > TEXT_MAX - len {
            return;
        }
        let ghost t0 = self.buf.text@;
        let mut b = self.take_buffer();
        let ghost u0 = b.undo@;
        proof {
            b.lemma_hist();
        }
        b.insert(at, s);
        proof {
            encode_utf8_valid_utf8(s@);
            lemma_splice_boundary(t0, at as int, s.spec_bytes(), at as int);
            if s.spec_bytes().len() > 0 {
                assert forall|k: int| 0 <= k < u0.len() implies b.undo@[k] == u0[k] by {
                    assert(b.undo@[k] == u0.push(b.undo@.last())[k]);
                }
            }
        }
        let ghost b1 = b;
        proof {
            b.lemma_wf();
        }
        b.cursor = at + n;
        proof {
            b.lemma_same_text_wf(b1);
        }
        self.buf = b;
    }

    fn delete(&mut self, a: i64, b: i64)
        ensures
            exists|x: int, y: int, r: Seq<char>|
                #![trigger snapped(old(self).buffer().text@, a as int, x), snapped(old(self).buffer().text@, b as int, y), encode_utf8(r)]
                snapped(old(self).buffer().text@, a as int, x) && snapped(old(self).buffer().text@, b as int, y)
                    && final(self).buffer().deleted(old(self).buffer(), if x < y { x } else { y }, if x < y { y } else { x }, r),
    {
        proof {
            use_type_invariant(&*self);
            self.buf.lemma_wf();
        }
        let (x, y) = self.range(a, b);
        let ghost b0 = self.buf;
        let mut buf = self.take_buffer();
        proof {
            buf.lemma_hist();
        }
        let r = buf.delete(x, y);
        proof {
            if x < y {
                assert forall|k: int| 0 <= k < b0.undo@.len() implies buf.undo@[k] == b0.undo@[k] by {
                    assert(buf.undo@.take(b0.undo@.len() as int)[k] == buf.undo@[k]);
                }
            }
        }
        self.buf = buf;
        proof {
            let (xs, ys) = choose|xs: int, ys: int|
                snapped(b0.text@, a as int, xs) && snapped(b0.text@, b as int, ys) && x == (
                if xs < ys { xs } else { ys }) && y == (if xs < ys { ys } else { xs });
            assert(snapped(b0.text@, a as int, xs) && snapped(b0.text@, b as int, ys) && encode_utf8(r@) == encode_utf8(r@));
        }
    }

    fn line(&self) -> (r: i64)
        ensures
            r == crate::encoding::count_nl(self.buffer().text@.take(self.buffer().cursor as int)),
    {
        proof {
            use_type_invariant(self);
            self.buf.lemma_wf();
            crate::encoding::lemma_count_nl_bound(self.buf.text@.take(self.buf.cursor as int));
        }
        self.buf.line() as i64
    }

    fn lines(&self) -> (r: i64)
        ensures
            r == crate::encoding::count_nl(self.buffer().text@) + 1,
    {
        proof {
            use_type_invariant(self);
            self.buf.lemma_wf();
            crate::encoding::lemma_count_nl_bound(self.buf.text@);
        }
        self.buf.text.line_count() as i64
    }

    fn line_start(&self, l: i64) -> (r: i64)
        ensures
            is_line_start(self.buffer().text@, clamp_line(self.buffer().text@, l as int), r as int),
            0 <= r <= self.buffer().text@.len(),
    {
        proof {
            use_type_invariant(self);
            self.buf.lemma_wf();
            crate::encoding::lemma_count_nl_bound(self.buf.text@);
        }
        let last = self.lines() - 1;
        let c: usize = if l < 0 {
            0
        } else if l > last {
            last as usize
        } else {
            l as usize
        };
        self.buf.text.line_start(c) as i64
    }

    fn line_end(&self, l: i64) -> (r: i64)
        ensures
            exists|ls: int|
                is_line_start(self.buffer().text@, clamp_line(self.buffer().text@, l as int), ls) && is_next_newline(
                    self.buffer().text@,
                    ls,
                    r as int,
                ),
    {
        proof {
            use_type_invariant(self);
            self.buf.lemma_wf();
        }
        let ls = self.line_start(l);
        let r = self.buf.text.next_newline(ls as usize) as i64;
        proof {
            assert(is_line_start(self.buf.text@, clamp_line(self.buf.text@, l as int), ls as int));
        }
        r
    }

    fn search(&self, s: &str, fwd: bool) -> (r: i64)
        ensures
            fwd && r >= 0 ==> self.buffer().cursor <= r && occurs_at(self.buffer().text@, s.spec_bytes(), r as int)
                && forall|j: int| self.buffer().cursor <= j < r ==> !occurs_at(self.buffer().text@, s.spec_bytes(), j),
            fwd && r < 0 ==> r == -1 && forall|j: int|
                self.buffer().cursor <= j <= self.buffer().text@.len() ==> !occurs_at(self.buffer().text@, s.spec_bytes(), j),
            !fwd && r >= 0 ==> r + s.spec_bytes().len() <= self.buffer().cursor && occurs_at(
                self.buffer().text@,
                s.spec_bytes(),
                r as int,
            ) && forall|j: int|
                r < j && j + s.spec_bytes().len() <= self.buffer().cursor ==> !occurs_at(self.buffer().text@, s.spec_bytes(), j),
            !fwd && r < 0 ==> r == -1 && forall|j: int|
                0 <= j && j + s.spec_bytes().len() <= self.buffer().cursor ==> !occurs_at(self.buffer().text@, s.spec_bytes(), j),
    {
        proof {
            use_type_invariant(self);
            self.buf.lemma_wf();
            self.buf.text.lemma_wf();
        }
        let len = self.buf.text.len();
        let hay = self.buf.text.slice_bytes(0, len);
        proof {
            assert(hay@ =~= self.buf.text@);
        }
        let needle = str_bytes(s);
        let c = self.buf.cursor;
        if fwd {
            match find_from(&hay, &needle, c) {
                Some(i) => i as i64,
                None => -1,
            }
        } else {
            match rfind_before(&hay, &needle, c) {
                Some(i) => i as i64,
                None => -1,
            }
        }
    }

    fn message(&mut self, s: &str)
        ensures
            final(self).message_text()@ == s@,
            final(self).buffer() == old(self).buffer(),
    {
        proof {
            use_type_invariant(&*self);
        }
        self.echo = s.to_string();
    }
}


/// The first boundary of `s` at or after `i` (taken no further than the end).
fn ceil_boundary(s: &Vec<u8>, i: usize) -> (r: usize)
    requires
        valid_utf8(s@),
    ensures
        (if i < s@.len() { i as int } else { s@.len() as int }) <= r <= s@.len(),
        is_char_boundary(s@, r as int),
        forall|k: int| (if i < s@.len() { i as int } else { s@.len() as int }) <= k < r ==> !is_char_boundary(s@, k),
{
    let mut j = if i < s.len() { i } else { s.len() };
    let ghost c = j;
    while j < s.len() && is_cont(s[j])
        invariant
            c <= j <= s@.len(),
            valid_utf8(s@),
            forall|k: int| c <= k < j ==> !is_char_boundary(s@, k),
        decreases s@.len() - j,
    {
        proof {
            lemma_boundary_byte(s@, j as int);
        }
        j = j + 1;
    }
    proof {
        lemma_boundary_byte(s@, j as int);
    }
    j
}

/// The first character boundary of `t` at or after `i` (taken no further than the end).
pub open spec fn ceil_pos(t: Seq<u8>, i: int) -> int {
    let lo = if i < t.len() { i } else { t.len() as int };
    choose|r: int| lo <= r <= t.len() && is_char_boundary(t, r) && forall|k: int| lo <= k < r ==> !is_char_boundary(t, k)
}

/// A boundary at or after `i` with none between is `ceil_pos(t, i)`.
pub proof fn lemma_ceil_pos(t: Seq<u8>, i: int, r: int)
    requires
        (if i < t.len() { i } else { t.len() as int }) <= r <= t.len(),
        is_char_boundary(t, r),
        forall|k: int| (if i < t.len() { i } else { t.len() as int }) <= k < r ==> !is_char_boundary(t, k),
    ensures
        ceil_pos(t, i) == r,
{
    let lo = if i < t.len() { i } else { t.len() as int };
    let p = ceil_pos(t, i);
    assert(lo <= p <= t.len() && is_char_boundary(t, p) && forall|k: int| lo <= k < p ==> !is_char_boundary(t, k));
    if p < r {
        assert(!is_char_boundary(t, p));
    }
    if r < p {
        assert(!is_char_boundary(t, r));
    }
}

/// The last character boundary of `t` at or before `i` (taken no further than the end).
pub open spec fn floor_pos(t: Seq<u8>, i: int) -> int {
    let hi = if i < t.len() { i } else { t.len() as int };
    choose|r: int| 0 <= r <= hi && is_char_boundary(t, r) && forall|k: int| r < k <= hi ==> !is_char_boundary(t, k)
}

/// A boundary at or before `i` with none between is `floor_pos(t, i)`.
pub proof fn lemma_floor_pos(t: Seq<u8>, i: int, r: int)
    requires
        0 <= r <= (if i < t.len() { i } else { t.len() as int }),
        is_char_boundary(t, r),
        forall|k: int| r < k <= (if i < t.len() { i } else { t.len() as int }) ==> !is_char_boundary(t, k),
    ensures
        floor_pos(t, i) == r,
{
    let hi = if i < t.len() { i } else { t.len() as int };
    let p = floor_pos(t, i);
    assert(0 <= p <= hi && is_char_boundary(t, p) && forall|k: int| p < k <= hi ==> !is_char_boundary(t, k));
    if p < r {
        assert(!is_char_boundary(t, r));
    }
    if r < p {
        assert(!is_char_boundary(t, p));
    }
}

/// `j` is the last place where `nb` occurs in `t` ending by `lim`.
pub open spec fn last_match(t: Seq<u8>, nb: Seq<u8>, lim: int, j: int) -> bool {
    &&& j + nb.len() <= lim
    &&& occurs_at(t, nb, j)
    &&& forall|k: int| j < k && k + nb.len() <= lim ==> !occurs_at(t, nb, k)
}

/// Where searching backward again from `at` looks: matches ending by the boundary at
/// or after the boundary before `at` plus the needle's length.
pub open spec fn back_limit(t: Seq<u8>, at: int, n: int) -> int {
    ceil_pos(t, floor_pos(t, at - 1) + n)
}

/// Where the search for `nb` in `hay` from `at` finds it: forward, the first match at
/// or after `at` (after the boundary past `at` when advancing); backward, the last
/// match ending by the boundary at or after `at` plus the needle's length (before
/// `at` when advancing).
#[verifier::spinoff_prover]
fn locate(hay: &Vec<u8>, nb: &Vec<u8>, at: usize, forward: bool, advance: bool) -> (r: Option<usize>)
    requires
        valid_utf8(hay@),
        at <= hay@.len(),
        hay@.len() <= TEXT_MAX,
    ensures
        r matches Some(p) ==> occurs_at(hay@, nb@, p as int),
        forward ==> ({
            let st = if advance { ceil_pos(hay@, at + 1) } else { at as int };
            &&& (!advance ==> is_char_boundary(hay@, at as int)) && r is Some ==> first_match(hay@, nb@, st, r->0 as int)
            &&& (!advance ==> is_char_boundary(hay@, at as int)) && r is None ==> no_match_from(hay@, nb@, st)
        }),
        !forward && !advance ==> ({
            let lim = ceil_pos(hay@, at + nb@.len());
            &&& r is Some ==> r->0 + nb@.len() <= lim && forall|j: int| r->0 < j && j + nb@.len() <= lim ==> !occurs_at(hay@, nb@, j)
            &&& r is None ==> forall|j: int| 0 <= j && j + nb@.len() <= lim ==> !occurs_at(hay@, nb@, j)
        }),
        !forward && advance ==> ({
            let lim = back_limit(hay@, at as int, nb@.len() as int);
            &&& r is Some ==> r->0 < at && last_match(hay@, nb@, lim, r->0 as int)
            &&& r is None ==> at == 0 || forall|j: int| 0 <= j && last_match(hay@, nb@, lim, j) ==> j >= at
        }),
{
    let len = hay.len();
    let nl = nb.len();
    let s_at = at;
    if forward {
        let from = if advance {
            let f = ceil_boundary(hay, s_at + 1);
            proof {
                lemma_ceil_pos(hay@, s_at + 1, f as int);
            }
            f
        } else {
            if s_at < len { s_at } else { len }
        };
        let cb = ceil_boundary(hay, from);
        if cb != from {
            None
        } else {
            find_from(hay, nb, from)
        }
    } else {
        let limit = if advance {
            if s_at == 0 {
                return None;
            }
            let f = floor_boundary(hay, s_at - 1);
            proof {
                lemma_floor_pos(hay@, s_at - 1, f as int);
            }
            f
        } else {
            if s_at < len { s_at } else { len }
        };
        let end = if nl > len { len } else { ceil_boundary(hay, limit + nl) };
        proof {
            if nl > len {
                is_char_boundary_start_end_of_seq(hay@);
                lemma_ceil_pos(hay@, limit + nl, len as int);
            } else {
                lemma_ceil_pos(hay@, limit + nl, end as int);
            }
        }
        let p = rfind_before(hay, nb, end);
        if advance {
            match p {
                Some(q) => if q < s_at { Some(q) } else { None },
                None => None,
            }
        } else {
            p
        }
    }
}

/// The last boundary of `s` at or before `i` (taken no further than the end).
fn floor_boundary(s: &Vec<u8>, i: usize) -> (r: usize)
    requires
        valid_utf8(s@),
    ensures
        r <= (if i < s@.len() { i as int } else { s@.len() as int }),
        is_char_boundary(s@, r as int),
        forall|k: int| r < k <= (if i < s@.len() { i as int } else { s@.len() as int }) ==> !is_char_boundary(s@, k),
{
    let mut j = if i < s.len() { i } else { s.len() };
    let ghost c = j;
    proof {
        lemma_boundary_byte(s@, 0);
        if s@.len() > 0 {
            crate::encoding::lemma_valid_starts(s@);
        }
    }
    while j > 0 && j < s.len() && is_cont(s[j])
        invariant
            j <= c <= s@.len(),
            valid_utf8(s@),
            is_char_boundary(s@, 0),
            forall|k: int| j < k <= c ==> !is_char_boundary(s@, k),
        decreases j,
    {
        proof {
            lemma_boundary_byte(s@, j as int);
        }
        j = j - 1;
    }
    proof {
        lemma_boundary_byte(s@, j as int);
    }
    j
}

/// `p` is a prefix of `s`.
pub open spec fn is_prefix(p: Seq<char>, s: Seq<char>) -> bool {
    p.len() <= s.len() && s.take(p.len() as int) == p
}

/// Whether `s` starts with `p`.
fn chars_start_with(s: &Vec<char>, p: &Vec<char>) -> (r: bool)
    ensures
        r == is_prefix(p@, s@),
{
    if p.len() > s.len() {
        return false;
    }
    let mut i: usize = 0;
    while i < p.len()
        invariant
            i <= p@.len() <= s@.len(),
            forall|k: int| 0 <= k < i ==> s@[k] == p@[k],
        decreases p@.len() - i,
    {
        if s[i] != p[i] {
            assert(s@.take(p@.len() as int)[i as int] != p@[i as int]);
            return false;
        }
        i = i + 1;
    }
    assert(s@.take(p@.len() as int) =~= p@);
    true
}

/// `a` comes at or before `b` when strings are ordered by their characters' code
/// points, which for UTF-8 text is the order of their bytes.
pub open spec fn chars_le(a: Seq<char>, b: Seq<char>) -> bool
    decreases a.len(),
{
    if a.len() == 0 {
        true
    } else if b.len() == 0 {
        false
    } else if a[0] != b[0] {
        (a[0] as u32) < (b[0] as u32)
    } else {
        chars_le(a.drop_first(), b.drop_first())
    }
}

/// Two different characters have different code points.
proof fn lemma_code_points_differ(x: char, y: char)
    requires
        x != y,
    ensures
        (x as u32) != (y as u32),
{
}

proof fn lemma_chars_le_total(a: Seq<char>, b: Seq<char>)
    ensures
        chars_le(a, b) || chars_le(b, a),
    decreases a.len(),
{
    if a.len() > 0 && b.len() > 0 {
        if a[0] == b[0] {
            lemma_chars_le_total(a.drop_first(), b.drop_first());
        } else {
            lemma_code_points_differ(a[0], b[0]);
        }
    }
}

proof fn lemma_chars_le_trans(a: Seq<char>, b: Seq<char>, c: Seq<char>)
    requires
        chars_le(a, b),
        chars_le(b, c),
    ensures
        chars_le(a, c),
    decreases a.len(),
{
    if a.len() > 0 && b.len() > 0 && c.len() > 0 && a[0] == b[0] && b[0] == c[0] {
        lemma_chars_le_trans(a.drop_first(), b.drop_first(), c.drop_first());
    }
}

/// Whether `a` comes at or before `b` in code-point order.
fn chars_le_exec(a: &Vec<char>, b: &Vec<char>) -> (r: bool)
    ensures
        r == chars_le(a@, b@),
{
    let mut i: usize = 0;
    proof {
        assert(a@.skip(0) =~= a@);
        assert(b@.skip(0) =~= b@);
    }
    while i < a.len() && i < b.len() && a[i] == b[i]
        invariant
            i <= a@.len(),
            i <= b@.len(),
            chars_le(a@, b@) == chars_le(a@.skip(i as int), b@.skip(i as int)),
        decreases a@.len() - i,
    {
        proof {
            assert(a@.skip(i as int).drop_first() =~= a@.skip(i + 1));
            assert(b@.skip(i as int).drop_first() =~= b@.skip(i + 1));
        }
        i = i + 1;
    }
    if i == a.len() {
        true
    } else if i == b.len() {
        false
    } else {
        (a[i] as u32) < (b[i] as u32)
    }
}

/// The text of each string.
pub open spec fn string_views(v: Seq<String>) -> Seq<Seq<char>> {
    v.map_values(|x: String| x@)
}

/// Each string of `s` comes at or before every later one, in code-point order.
pub open spec fn chars_sorted(s: Seq<Seq<char>>) -> bool {
    forall|i: int, j: int| 0 <= i < j < s.len() ==> chars_le(#[trigger] s[i], #[trigger] s[j])
}

/// The directory entries of `entries` (each a name and whether it is a directory)
/// that complete `partial`: those whose names start with what follows the last `/`
/// of `partial` (and start with a dot only when that does), each written after the
/// part of `partial` up to that `/`, with a `/` after a directory.
pub open spec fn completion_entries(partial: Seq<char>, entries: Seq<(Seq<char>, bool)>) -> Seq<Seq<char>>
    decreases entries.len(),
{
    if entries.len() == 0 {
        Seq::empty()
    } else {
        let rest = completion_entries(partial, entries.drop_last());
        let name = entries.last().0;
        let k = after_last_slash_spec(partial) as int;
        let prefix = partial.skip(k);
        if is_prefix(prefix, name) && !(name.len() > 0 && name[0] == '.' && !(prefix.len() > 0 && prefix[0] == '.')) {
            rest.push(partial.take(k) + name + (if entries.last().1 { "/"@ } else { ""@ }))
        } else {
            rest
        }
    }
}

/// Puts `x` into the ordered `out`, after the strings at or before it.
fn insert_ordered(out: &mut Vec<String>, x: String)
    requires
        chars_sorted(string_views(old(out)@)),
    ensures
        chars_sorted(string_views(final(out)@)),
        string_views(final(out)@).to_multiset() == string_views(old(out)@).to_multiset().insert(x@),
{
    let xc = str_chars(x.as_str());
    let ghost v = string_views(out@);
    let mut j: usize = 0;
    let mut go = true;
    while go && j < out.len()
        invariant
            j <= out@.len(),
            v == string_views(out@),
            v.len() == out@.len(),
            xc@ == x@,
            forall|k: int| 0 <= k < j ==> chars_le(#[trigger] v[k], x@),
            !go ==> j < out@.len() && !chars_le(v[j as int], x@),
        decreases out@.len() - j + (if go { 1int } else { 0int }),
    {
        let oc = str_chars(out[j].as_str());
        assert(v[j as int] == out@[j as int]@);
        if chars_le_exec(&oc, &xc) {
            j = j + 1;
        } else {
            go = false;
        }
    }
    proof {
        if j < out@.len() {
            lemma_chars_le_total(v[j as int], x@);
        }
    }
    out.insert(j, x);
    proof {
        let w = string_views(out@);
        assert(w =~= v.insert(j as int, x@));
        vstd::seq_lib::to_multiset_insert(v, j as int, x@);
        assert forall|a: int, b: int| 0 <= a < b < w.len() implies chars_le(#[trigger] w[a], #[trigger] w[b]) by {
            if b < j {
                assert(chars_le(v[a], v[b]));
            } else if b == j {
                assert(w[a] == v[a] && w[b] == x@);
            } else if a == j {
                assert(w[b] == v[b - 1]);
                if b - 1 > j {
                    assert(chars_le(v[j as int], v[b - 1]));
                    lemma_chars_le_trans(x@, v[j as int], v[b - 1]);
                }
            } else if a < j {
                assert(w[a] == v[a] && w[b] == v[b - 1]);
                assert(chars_le(v[a], v[b - 1]));
            } else {
                assert(w[a] == v[a - 1] && w[b] == v[b - 1]);
                assert(chars_le(v[a - 1], v[b - 1]));
            }
        }
    }
}

/// The completions of `partial` that the directory entries `entries` give (see
/// `completion_entries`), in code-point order.
pub fn completion_list(partial: &str, entries: Vec<(String, bool)>) -> (r: Vec<String>)
    ensures
        chars_sorted(string_views(r@)),
        string_views(r@).to_multiset() == completion_entries(
            partial@,
            entries@.map_values(|e: (String, bool)| (e.0@, e.1)),
        ).to_multiset(),
{
    let ghost ev = entries@.map_values(|e: (String, bool)| (e.0@, e.1));
    let cs = str_chars(partial);
    let mut k = cs.len();
    proof {
        assert(cs@.take(k as int) =~= cs@);
    }
    while k > 0 && cs[k - 1] != '/'
        invariant
            k <= cs@.len(),
            after_last_slash_spec(cs@.take(k as int)) == after_last_slash_spec(cs@),
        decreases k,
    {
        proof {
            assert(cs@.take(k as int).drop_last() =~= cs@.take(k - 1));
        }
        k = k - 1;
    }
    proof {
        if k > 0 {
            assert(cs@.take(k as int).last() == '/');
        }
        assert(after_last_slash_spec(cs@.take(k as int)) == k);
    }
    let dir = crate::forth::chars_string(&cs, 0, k);
    let prefix = crate::forth::chars_sub(&cs, k, cs.len());
    let dotted = prefix.len() > 0 && prefix[0] == '.';
    proof {
        assert(dir@ =~= cs@.take(k as int));
        assert(prefix@ =~= cs@.skip(k as int));
    }
    let mut out: Vec<String> = Vec::new();
    let mut i: usize = 0;
    proof {
        assert(ev.take(0) =~= Seq::<(Seq<char>, bool)>::empty());
        assert(string_views(out@) =~= Seq::<Seq<char>>::empty());
    }
    while i < entries.len()
        invariant
            i <= entries@.len(),
            ev == entries@.map_values(|e: (String, bool)| (e.0@, e.1)),
            cs@ == partial@,
            k == after_last_slash_spec(partial@),
            dir@ == partial@.take(k as int),
            prefix@ == partial@.skip(k as int),
            dotted == (prefix@.len() > 0 && prefix@[0] == '.'),
            chars_sorted(string_views(out@)),
            string_views(out@).to_multiset() == completion_entries(partial@, ev.take(i as int)).to_multiset(),
        decreases entries@.len() - i,
    {
        let name = str_chars(entries[i].0.as_str());
        proof {
            assert(ev.take(i + 1).drop_last() =~= ev.take(i as int));
            assert(ev.take(i + 1).last() == ev[i as int]);
        }
        if chars_start_with(&name, &prefix) && !(name.len() > 0 && name[0] == '.' && !dotted) {
            let full = crate::forth::join3(dir.as_str(), entries[i].0.as_str(), if entries[i].1 { "/" } else { "" });
            proof {
                completion_entries(partial@, ev.take(i as int)).to_multiset_ensures();
            }
            insert_ordered(&mut out, full);
        }
        i = i + 1;
    }
    proof {
        assert(ev.take(entries@.len() as int) =~= ev);
    }
    out
}

/// A string made of `cs`.
pub(crate) fn string_of(cs: &Vec<char>) -> (r: String)
    ensures
        r@ == cs@,
{
    let mut v: Vec<u8> = Vec::new();
    crate::encoding::push_chars(&mut v, cs);
    proof {
        assert(v@ =~= encode_utf8(cs@));
        encode_utf8_valid_utf8(cs@);
        encode_utf8_decode_utf8(cs@);
    }
    bytes_to_string(v)
}

/// The longest prefix that all of `items` share.
pub fn common_prefix(items: &[String]) -> (r: String)
    requires
        items@.len() > 0,
    ensures
        forall|j: int| 0 <= j < items@.len() ==> is_prefix(r@, #[trigger] items@[j]@),
        forall|k: int|
            #![trigger items@[0]@.take(k)]
            r@.len() < k <= items@[0]@.len() ==> exists|j: int|
                0 <= j < items@.len() && !is_prefix(items@[0]@.take(k), #[trigger] items@[j]@),
{
    let first = str_chars(items[0].as_str());
    let mut p = str_chars(items[0].as_str());
    let ghost f = first@;
    proof {
        assert(f.take(f.len() as int) =~= f);
    }
    let mut i: usize = 1;
    while i < items.len()
        invariant
            1 <= i <= items@.len(),
            f == items@[0]@,
            p@.len() <= f.len(),
            p@ == f.take(p@.len() as int),
            forall|j: int| 0 <= j < i ==> is_prefix(p@, #[trigger] items@[j]@),
            forall|k: int|
                #![trigger f.take(k)]
                p@.len() < k <= f.len() ==> exists|j: int|
                    0 <= j < i && !is_prefix(f.take(k), #[trigger] items@[j]@),
        decreases items@.len() - i,
    {
        let s = str_chars(items[i].as_str());
        let ghost n0 = p@.len();
        while !chars_start_with(&s, &p)
            invariant
                s@ == items@[i as int]@,
                p@.len() <= n0 <= f.len(),
                p@ == f.take(p@.len() as int),
                forall|k: int| p@.len() < k <= n0 ==> !is_prefix(#[trigger] f.take(k), s@),
            decreases p@.len(),
        {
            proof {
                if p@.len() == 0 {
                    assert(s@.take(0) =~= p@);
                }
                assert(!is_prefix(f.take(p@.len() as int), s@));
            }
            p.pop();
            proof {
                assert(p@ =~= f.take(p@.len() as int));
            }
        }
        proof {
            assert forall|j: int| 0 <= j < i + 1 implies is_prefix(p@, #[trigger] items@[j]@) by {
                if j < i {
                    let q = items@[j]@;
                    assert(is_prefix(f.take(n0 as int), q));
                    assert(q.take(p@.len() as int) =~= q.take(n0 as int).take(p@.len() as int));
                    assert(f.take(n0 as int).take(p@.len() as int) =~= p@);
                }
            }
            assert forall|k: int| #![trigger f.take(k)] p@.len() < k <= f.len() implies exists|j: int|
                0 <= j < i + 1 && !is_prefix(f.take(k), #[trigger] items@[j]@) by {
                if k <= n0 {
                    assert(!is_prefix(f.take(k), items@[i as int]@));
                } else {
                    let j = choose|j: int| 0 <= j < i && !is_prefix(f.take(k), #[trigger] items@[j]@);
                    assert(0 <= j < i + 1 && !is_prefix(f.take(k), items@[j]@));
                }
            }
        }
        i = i + 1;
    }
    string_of(&p)
}

/// The last component of `path`, when it has one.
pub uninterp spec fn file_name_of(path: Seq<char>) -> Option<Seq<char>>;

/// Calls `Path::file_name` on `path` (a valid UTF-8 path, so the name converts to a
/// `String` without loss); the result is named `file_name_of`.
#[verifier::external_body]
fn path_file_name(path: &str) -> (r: Option<String>)
    ensures
        r matches Some(n) ==> file_name_of(path@) == Some(n@),
        r is None ==> file_name_of(path@) is None,
{
    match std::path::Path::new(path).file_name() {
        Some(n) => Some(n.to_string_lossy().into_owned()),
        None => None,
    }
}

/// A buffer's name for `path`: its last component, or the whole path.
pub open spec fn buffer_name_spec(path: Seq<char>) -> Seq<char> {
    match file_name_of(path) {
        Some(n) => n,
        None => path,
    }
}

/// The name a buffer visiting `path` gets.
fn buffer_name(path: &str) -> (r: String)
    ensures
        r@ == buffer_name_spec(path@),
{
    match path_file_name(path) {
        Some(n) => n,
        None => path.to_string(),
    }
}


/// Index of the first `;` token at or after `j`, or the number of tokens.
pub open spec fn next_semi(ts: Seq<(int, Seq<char>)>, j: int) -> int
    decreases ts.len() - j,
{
    if j < 0 || j >= ts.len() {
        ts.len() as int
    } else if ts[j].1 == seq![';'] {
        j
    } else {
        next_semi(ts, j + 1)
    }
}

pub proof fn lemma_next_semi(ts: Seq<(int, Seq<char>)>, j: int)
    requires
        0 <= j,
    ensures
        j <= next_semi(ts, j) || next_semi(ts, j) == ts.len(),
        next_semi(ts, j) <= ts.len(),
        next_semi(ts, j) < ts.len() ==> ts[next_semi(ts, j)].1 == seq![';'] && j <= next_semi(ts, j),
    decreases ts.len() - j,
{
    if j < ts.len() && ts[j].1 != seq![';'] {
        lemma_next_semi(ts, j + 1);
    }
}

/// The byte span of the first definition `: … ;` from token `i` on whose span holds
/// `cur`.
pub open spec fn def_span(ts: Seq<(int, Seq<char>)>, i: int, cur: int) -> Option<(int, int)>
    decreases ts.len() - i,
{
    if i < 0 || i >= ts.len() {
        None
    } else if ts[i].1 == seq![':'] && next_semi(ts, i + 1) < ts.len() {
        proof {
            lemma_next_semi(ts, i + 1);
        }
        let j = next_semi(ts, i + 1);
        let start = ts[i].0;
        let end = ts[j].0 + 1;
        if start <= cur <= end {
            Some((start, end))
        } else {
            def_span(ts, j + 1, cur)
        }
    } else {
        def_span(ts, i + 1, cur)
    }
}

/// From token `k` on: the first token whose span (ends included) holds `cur`, or
/// else the last one that ends at or before it (`before` when none).
pub open spec fn tok_at(ts: Seq<(int, Seq<char>)>, k: int, cur: int, before: Option<Seq<char>>) -> Option<Seq<char>>
    decreases ts.len() - k,
{
    if k < 0 || k >= ts.len() {
        before
    } else {
        let end = ts[k].0 + encode_utf8(ts[k].1).len();
        if ts[k].0 <= cur <= end {
            Some(ts[k].1)
        } else {
            tok_at(ts, k + 1, cur, if end <= cur { Some(ts[k].1) } else { before })
        }
    }
}

/// The Forth form at byte offset `cur` of `text`: the definition around it, or else
/// the token under or before it.
pub open spec fn form_at_spec(text: Seq<char>, cur: int) -> Option<Seq<char>> {
    match forth::lex_spec(text, 0) {
        None => None,
        Some(ts) => match def_span(ts, 0, cur) {
            Some((s, e)) => Some(decode_utf8(encode_utf8(text).subrange(s, e))),
            None => tok_at(ts, 0, cur, None),
        },
    }
}

/// Whether `s` is the one character `c`.
fn is_char_str(s: &String, c: char) -> (r: bool)
    ensures
        r == (s@ == seq![c]),
{
    let cs = str_chars(s.as_str());
    let r = cs.len() == 1 && cs[0] == c;
    proof {
        if cs@.len() == 1 && cs@[0] == c {
            assert(cs@ =~= seq![c]);
        }
    }
    r
}

/// The Forth form around byte offset `cur` of `text`.
pub fn form_at(text: &str, cur: usize) -> (r: Option<String>)
    ensures
        match r {
            Some(s) => form_at_spec(text@, cur as int) == Some(s@),
            None => form_at_spec(text@, cur as int) is None,
        },
{
    let toks = match forth::lex(text) {
        Ok(t) => t,
        Err(_) => return None,
    };
    let ghost cs = text@;
    let ghost ts = forth::toks_view(toks@);
    let tb = str_bytes(text);
    let tbl = tb.len();
    proof {
        forth::lemma_lex_positions(cs, 0);
        assert(forth::toks_positioned(cs, ts, 0));
    }
    let n = toks.len();
    let mut i: usize = 0;
    while i < n
        invariant
            n == toks@.len() == ts.len(),
            ts == forth::toks_view(toks@),
            forth::lex_spec(cs, 0) == Some(ts),
            forth::toks_positioned(cs, ts, 0),
            tb@ == encode_utf8(cs),
            cs == text@,
            tbl == tb@.len(),
            def_span(ts, 0, cur as int) == def_span(ts, i as int, cur as int),
        decreases n - i,
    {
        if is_char_str(&toks[i].1, ':') {
            let start = toks[i].0;
            let mut j = i + 1;
            proof {
                lemma_next_semi(ts, i + 1);
            }
            while j < n && !is_char_str(&toks[j].1, ';')
                invariant
                    i < j <= n,
                    n == toks@.len() == ts.len(),
                    ts == forth::toks_view(toks@),
                    next_semi(ts, i + 1) == next_semi(ts, j as int),
                decreases n - j,
            {
                j = j + 1;
            }
            if j < n {
                let sj = toks[j].0;
                proof {
                    assert(ts[j as int].0 == sj);
                    let (c, d) = choose|a: int, b: int|
                        0 <= a < b <= cs.len() && (#[trigger] ts[j as int]).0 == forth::boff(cs, a) && ts[j as int].1 == cs.subrange(a, b);
                    assert(ts[j as int].1 =~= seq![';']);
                    assert(cs.subrange(c, d).len() == 1);
                    assert(cs.subrange(c, d)[0] == cs[c]);
                    assert(cs[c] == ';');
                    assert(cs.take(c + 1) =~= cs.take(c).push(cs[c]));
                    crate::encoding::lemma_encode_push(cs.take(c), cs[c]);
                    crate::encoding::lemma_char_bytes_len(cs[c]);
                    forth::lemma_boff_slice(cs, c, c + 1);
                }
                let end = sj + 1;
                if cur >= start && cur <= end {
                    proof {
                        let (a, b) = choose|a: int, b: int|
                            0 <= a < b <= cs.len() && (#[trigger] ts[i as int]).0 == forth::boff(cs, a) && ts[i as int].1 == cs.subrange(a, b);
                        let (c, d) = choose|a: int, b: int|
                            0 <= a < b <= cs.len() && (#[trigger] ts[j as int]).0 == forth::boff(cs, a) && ts[j as int].1 == cs.subrange(a, b);
                        assert(cs.subrange(c, d).len() == 1);
                        forth::lemma_boff_order(cs, a, c + 1);
                        forth::lemma_boff_slice(cs, a, c + 1);
                        encode_utf8_valid_utf8(cs.subrange(a, c + 1));
                        assert(def_span(ts, i as int, cur as int) == Some((start as int, end as int)));
                    }
                    let v = vstd::slice::slice_to_vec(vstd::slice::slice_subrange(tb.as_slice(), start, end));
                    proof {
                        assert(def_span(ts, 0, cur as int) == Some((start as int, end as int)));
                        assert(v@ == encode_utf8(text@).subrange(start as int, end as int));
                    }
                    let r = bytes_to_string(v);
                    proof {
                        assert(form_at_spec(text@, cur as int) == Some(r@));
                    }
                    return Some(r);
                }
                i = j + 1;
            } else {
                i = i + 1;
            }
        } else {
            i = i + 1;
        }
    }
    let mut before: Option<usize> = None;
    let mut k: usize = 0;
    proof {
        assert(def_span(ts, 0, cur as int) is None);
    }
    while k < n
        invariant
            k <= n == toks@.len() == ts.len(),
            ts == forth::toks_view(toks@),
            forth::toks_positioned(cs, ts, 0),
            tb@ == encode_utf8(cs),
            cs == text@,
            tbl == tb@.len(),
            forth::lex_spec(cs, 0) == Some(ts),
            def_span(ts, 0, cur as int) is None,
            before matches Some(b) ==> b < k,
            tok_at(ts, 0, cur as int, None) == tok_at(ts, k as int, cur as int, match before {
                Some(b) => Some(ts[b as int].1),
                None => None,
            }),
        decreases n - k,
    {
        let t0 = toks[k].0;
        let tl = string_bytes(&toks[k].1).len();
        proof {
            let (a, b) = choose|a: int, b: int|
                0 <= a < b <= cs.len() && (#[trigger] ts[k as int]).0 == forth::boff(cs, a) && ts[k as int].1 == cs.subrange(a, b);
            forth::lemma_boff_slice(cs, a, b);
            assert(tb@.len() <= usize::MAX);
        }
        let end = t0 + tl;
        if cur >= t0 && cur <= end {
            let r = toks[k].1.clone();
            proof {
                assert(ts[k as int].1 == toks@[k as int].1@);
                assert(tok_at(ts, k as int, cur as int, match before {
                    Some(b) => Some(ts[b as int].1),
                    None => None,
                }) == Some(ts[k as int].1));
                assert(form_at_spec(text@, cur as int) == Some(r@));
            }
            return Some(r);
        }
        if end <= cur {
            before = Some(k);
        }
        k = k + 1;
    }
    match before {
        Some(b) => Some(toks[b].1.clone()),
        None => None,
    }
}


/// How many kills the kill ring keeps.
pub const KILL_MAX: usize = 16;

/// The whole editor: buffers, the current one, the mode keys go to, the echo area,
/// the kill ring, prefix-key state and the Forth VM.
pub struct Editor {
    pub buffers: Vec<Buffer>,
    pub current: usize,
    pub mode: Mode,
    pub echo: String,
    pub rows: usize,
    pub cols: usize,
    pub quit: bool,
    pub last_buffer: usize,
    pub kills: Vec<String>,
    pub kill_idx: usize,
    pub yank: Option<(usize, usize)>,
    pub cx: bool,
    pub mg: bool,
    pub arg: Option<usize>,
    pub arg_digits: bool,
    pub last: Last,
    pub last_needle: String,
    pub vm: Vm,
    pub request: Option<Request>,
}

/// A buffer's state that the editor keeps bounded: the view's origin.
pub open spec fn view_ok(b: Buffer) -> bool {
    b.wf() && b.top <= TEXT_MAX + 1 && b.left <= usize::MAX / 2 + 1
}

/// Every buffer of `bs` is well formed.
pub open spec fn bufs_ok(bs: Seq<Buffer>) -> bool {
    forall|i: int| 0 <= i < bs.len() ==> view_ok(#[trigger] bs[i])
}

proof fn lemma_bufs_update(bs: Seq<Buffer>, c: int, b: Buffer)
    requires
        bufs_ok(bs),
        0 <= c < bs.len(),
        view_ok(b),
    ensures
        bufs_ok(bs.update(c, b)),
{
    assert forall|i: int| 0 <= i < bs.update(c, b).len() implies view_ok(#[trigger] bs.update(c, b)[i]) by {
        if i != c {
            assert(bs.update(c, b)[i] == bs[i]);
        }
    }
}

impl Editor {
    /// The current buffer.
    pub open spec fn cur(&self) -> Buffer {
        self.buffers@[self.current as int]
    }

    /// The mode's positions are valid in the current buffer.
    pub open spec fn mode_ok(&self) -> bool {
        match self.mode {
            Mode::Edit => true,
            Mode::Prompt(p) => prompt_ok(p),
            Mode::Search(s) => s.origin <= self.cur().text@.len() && is_char_boundary(self.cur().text@, s.origin as int)
                && s.at <= self.cur().text@.len(),
            Mode::Replace(r) => {
                &&& encode_utf8(r.from@).len() > 0
                &&& occurs_at(self.cur().text@, encode_utf8(r.from@), r.at as int)
            },
        }
    }

    /// The editor is ready for keys: there is a current buffer, every buffer is
    /// well formed, and the ring, the VM and the mode are consistent.
    pub open spec fn wf(&self) -> bool {
        &&& self.buffers@.len() > 0
        &&& self.current < self.buffers@.len()
        &&& bufs_ok(self.buffers@)
        &&& self.vm.wf()
        &&& self.kills@.len() <= KILL_MAX
        &&& self.kill_idx < KILL_MAX
        &&& self.rows <= 0xffff
        &&& self.cols <= 0xffff
        &&& self.mode_ok()
    }

    /// A new editor: no buffers, edit mode, a 24 by 80 screen, an empty kill ring and
    /// a fresh VM.
    pub fn new() -> (r: Editor)
        ensures
            r.buffers@.len() == 0,
            r.current == 0,
            r.mode is Edit,
            r.echo@.len() == 0,
            r.rows == 24,
            r.cols == 80,
            !r.quit,
            r.last_buffer == 0,
            r.kills@.len() == 0,
            r.kill_idx == 0,
            r.yank is None,
            !r.cx,
            !r.mg,
            r.arg is None,
            !r.arg_digits,
            r.last == Last::Other,
            r.last_needle@.len() == 0,
            r.vm.wf(),
            r.vm.stack_spec().len() == 0,
            r.vm.dict().len() == 0,
            r.request is None,
    {
        Editor {
            buffers: Vec::new(),
            current: 0,
            mode: Mode::Edit,
            echo: String::new(),
            rows: 24,
            cols: 80,
            quit: false,
            last_buffer: 0,
            kills: Vec::new(),
            kill_idx: 0,
            yank: None,
            cx: false,
            mg: false,
            arg: None,
            arg_digits: false,
            last: Last::Other,
            last_needle: String::new(),
            vm: Vm::new(),
            request: None,
        }
    }

    /// Makes sure there is a buffer: an empty `*scratch*` one when there is none.
    pub fn ensure_buffer(&mut self)
        requires
            forall|i: int| 0 <= i < old(self).buffers@.len() ==> view_ok(#[trigger] old(self).buffers@[i]),
        ensures
            forall|i: int| 0 <= i < final(self).buffers@.len() ==> view_ok(#[trigger] final(self).buffers@[i]),
            old(self).buffers@.len() > 0 ==> final(self).buffers@ == old(self).buffers@ && final(self).current == old(self).current
                && final(self).last_buffer == old(self).last_buffer,
            old(self).buffers@.len() == 0 ==> final(self).buffers@.len() == 1 && final(self).current == 0
                && final(self).last_buffer == 0 && final(self).buffers@[0].name@ == "*scratch*"@
                && final(self).buffers@[0].text@.len() == 0 && final(self).buffers@[0].path is None,
            final(self).mode == old(self).mode,
            final(self).vm == old(self).vm,
            final(self).kills == old(self).kills,
            final(self).kill_idx == old(self).kill_idx,
            final(self).rows == old(self).rows,
            final(self).cols == old(self).cols,
            final(self).echo == old(self).echo,
            final(self).quit == old(self).quit,
            final(self).yank == old(self).yank,
            final(self).cx == old(self).cx,
            final(self).mg == old(self).mg,
            final(self).arg == old(self).arg,
            final(self).arg_digits == old(self).arg_digits,
            final(self).last == old(self).last,
            final(self).last_needle == old(self).last_needle,
            final(self).request == old(self).request,
    {
        if self.buffers.len() == 0 {
            let b = Buffer::new("*scratch*".to_string(), None, String::new(), None);
            self.buffers.push(b);
            self.current = 0;
            self.last_buffer = 0;
        }
    }

    /// The current buffer.
    pub fn buf(&self) -> (r: &Buffer)
        requires
            self.current < self.buffers@.len(),
        ensures
            *r == self.cur(),
    {
        &self.buffers[self.current]
    }

    /// The current buffer, to change.
    pub fn buf_mut(&mut self) -> (r: &mut Buffer)
        requires
            old(self).current < old(self).buffers@.len(),
        ensures
            *r == old(self).cur(),
            final(self).buffers@ == old(self).buffers@.update(old(self).current as int, *final(r)),
            final(self).current == old(self).current,
            final(self).mode == old(self).mode,
            final(self).echo == old(self).echo,
            final(self).vm == old(self).vm,
            final(self).kills == old(self).kills,
            final(self).kill_idx == old(self).kill_idx,
            final(self).rows == old(self).rows,
            final(self).cols == old(self).cols,
            final(self).quit == old(self).quit,
            final(self).last == old(self).last,
            final(self).last_buffer == old(self).last_buffer,
    {
        &mut self.buffers[self.current]
    }

    /// Scrolls the current buffer's view to show its cursor in the text area (the
    /// screen less the modeline and the echo line).
    pub fn reframe(&mut self)
        requires
            old(self).wf(),
        ensures
            final(self).wf(),
            final(self).current == old(self).current,
            final(self).buffers@.len() == old(self).buffers@.len(),
            forall|i: int| 0 <= i < final(self).buffers@.len() && i != final(self).current ==> final(self).buffers@[i] == old(self).buffers@[i],
            final(self).cur().text == old(self).cur().text,
            final(self).cur().cursor == old(self).cur().cursor,
            !(old(self).rows >= 3 && old(self).cols >= 8) ==> final(self).buffers == old(self).buffers,
            old(self).rows >= 3 && old(self).cols >= 8 ==> ({
                let line = crate::encoding::count_nl(old(self).cur().text@.take(old(self).cur().cursor as int)) as int;
                let top = old(self).cur().top as int;
                let t1 = if line < top { line } else { top };
                final(self).cur().top == (if line >= t1 + (old(self).rows - 2) { line - (old(self).rows - 2) + 1 } else { t1 })
            }),
            final(self).mode == old(self).mode,
            final(self).echo == old(self).echo,
            final(self).vm == old(self).vm,
            final(self).kills == old(self).kills,
    {
        if self.rows >= 3 && self.cols >= 8 {
            let rows = self.rows - 2;
            let cols = self.cols;
            let c = self.current;
            proof {
                assert(view_ok(self.buffers@[c as int]));
            }
            self.buffers[c].reframe(rows, cols);
            proof {
                assert forall|i: int| 0 <= i < self.buffers@.len() implies view_ok(#[trigger] self.buffers@[i]) by {
                    if i != c {
                        assert(self.buffers@[i] == old(self).buffers@[i]);
                    }
                }
            }
        }
    }

    /// Adds `b` and makes it current, remembering the previous buffer.
    fn add_buffer(&mut self, b: Buffer)
        requires
            forall|i: int| 0 <= i < old(self).buffers@.len() ==> view_ok(#[trigger] old(self).buffers@[i]),
            view_ok(b),
        ensures
            forall|i: int| 0 <= i < final(self).buffers@.len() ==> view_ok(#[trigger] final(self).buffers@[i]),
            final(self).buffers@ == old(self).buffers@.push(b),
            final(self).current == old(self).buffers@.len(),
            old(self).buffers@.len() > 0 ==> final(self).last_buffer == old(self).current,
            old(self).buffers@.len() == 0 ==> final(self).last_buffer == old(self).last_buffer,
            final(self).mode == old(self).mode,
            final(self).vm == old(self).vm,
            final(self).kills == old(self).kills,
            final(self).kill_idx == old(self).kill_idx,
            final(self).rows == old(self).rows,
            final(self).cols == old(self).cols,
            final(self).echo == old(self).echo,
            final(self).quit == old(self).quit,
            final(self).last == old(self).last,
    {
        if self.buffers.len() > 0 {
            self.last_buffer = self.current;
        }
        self.buffers.push(b);
        self.current = self.buffers.len() - 1;
    }
}

/// What `format!("{:?}", c)` writes for the character `c`: it quoted, with escapes.
pub uninterp spec fn char_debug_text(c: char) -> Seq<char>;

/// Formats `c` with `char`'s `Debug`; the text is named `char_debug_text`.
#[verifier::external_body]
fn char_debug(c: char) -> (r: String)
    ensures
        r@ == char_debug_text(c),
{
    format!("{:?}", c)
}

/// How a key is written in messages: its variant's name, with the character in
/// `Debug` form for `Char`, `Ctrl` and `Meta`.
pub open spec fn key_text_spec(k: Key) -> Seq<char> {
    match k {
        Key::Char(c) => "Char("@ + char_debug_text(c) + ")"@,
        Key::Ctrl(c) => "Ctrl("@ + char_debug_text(c) + ")"@,
        Key::Meta(c) => "Meta("@ + char_debug_text(c) + ")"@,
        Key::MetaBackspace => "MetaBackspace"@,
        Key::Enter => "Enter"@,
        Key::Tab => "Tab"@,
        Key::Backspace => "Backspace"@,
        Key::Esc => "Esc"@,
        Key::Up => "Up"@,
        Key::Down => "Down"@,
        Key::Left => "Left"@,
        Key::Right => "Right"@,
        Key::Home => "Home"@,
        Key::End => "End"@,
        Key::PageUp => "PageUp"@,
        Key::PageDown => "PageDown"@,
        Key::Delete => "Delete"@,
    }
}

/// The text a key is written as.
pub fn key_text(k: Key) -> (r: String)
    ensures
        r@ == key_text_spec(k),
{
    match k {
        Key::Char(c) => {
            let d = char_debug(c);
            forth::join3("Char(", d.as_str(), ")")
        },
        Key::Ctrl(c) => {
            let d = char_debug(c);
            forth::join3("Ctrl(", d.as_str(), ")")
        },
        Key::Meta(c) => {
            let d = char_debug(c);
            forth::join3("Meta(", d.as_str(), ")")
        },
        Key::MetaBackspace => "MetaBackspace".to_string(),
        Key::Enter => "Enter".to_string(),
        Key::Tab => "Tab".to_string(),
        Key::Backspace => "Backspace".to_string(),
        Key::Esc => "Esc".to_string(),
        Key::Up => "Up".to_string(),
        Key::Down => "Down".to_string(),
        Key::Left => "Left".to_string(),
        Key::Right => "Right".to_string(),
        Key::Home => "Home".to_string(),
        Key::End => "End".to_string(),
        Key::PageUp => "PageUp".to_string(),
        Key::PageDown => "PageDown".to_string(),
        Key::Delete => "Delete".to_string(),
    }
}


impl Editor {
    /// Runs Forth source on the current buffer, as one undo group of its own. The
    /// echo area then shows the VM's error, or else the message a word left, or else
    /// the stack.
    pub fn eval_forth(&mut self, src: &str)
        requires
            old(self).wf(),
        ensures
            old(self).mode is Edit ==> final(self).wf(),
            final(self).current == old(self).current,
            final(self).buffers@.len() == old(self).buffers@.len(),
            forall|i: int| 0 <= i < final(self).buffers@.len() && i != final(self).current ==> final(self).buffers@[i] == old(self).buffers@[i],
            final(self).mode == old(self).mode,
            final(self).kills == old(self).kills,
            final(self).vm.dict().take(old(self).vm.dict().len() as int) == old(self).vm.dict(),
            forth::lex_spec(src@, 0) is None ==> final(self).vm.stack_spec() == old(self).vm.stack_spec()
                && final(self).echo@ == "unterminated string"@,
            forth_outcome(old(self).vm, final(self).vm, src@),
            old(self).vm.evaluates_without_reads(src@) ==> final(self).echo@ == forth::show_spec(
                final(self).vm.stack_spec(),
            ) || final(self).echo@.len() > 0,
            old(self).wf() && old(self).cur().group < u64::MAX ==> crate::editor::edits_grouped(old(self).cur(), final(self).cur()),
    {
        let c = self.current;
        proof {
            assert(view_ok(self.buffers@[c as int]));
        }
        proof {
            old(self).buffers@[c as int].lemma_hist();
        }
        self.buffers[c].new_group();
        self.buffers[c].break_undo_chain();
        let ghost b1 = self.buffers@[c as int];
        let mut b = Buffer::new(String::new(), None, String::new(), None);
        std::mem::swap(&mut self.buffers[c], &mut b);
        proof {
            b.lemma_hist();
        }
        let ghost g = if old(self).cur().group < u64::MAX { b1.group as nat } else { u64::MAX as nat + 1 };
        let mut ctx = EvalCtx {
            buf: b,
            echo: String::new(),
            base_len: Ghost(b1.undo@.len()),
            base_text: Ghost(b1.text@),
            group: Ghost(g),
        };
        let r = self.vm.run(src, &mut ctx);
        proof {
            use_type_invariant(&ctx);
        }
        let ghost kept_ctx = ctx;
        let EvalCtx { buf, echo, .. } = ctx;
        let ghost b2 = buf;
        proof {
            b2.lemma_wf();
        }
        let top = buf.top;
        let left = buf.left;
        let mut buf = buf;
        if top > TEXT_MAX + 1 {
            buf.top = 0;
        }
        if left > usize::MAX / 2 + 1 {
            buf.left = 0;
        }
        proof {
            buf.lemma_same_text_wf(b2);
        }
        std::mem::swap(&mut self.buffers[c], &mut buf);
        proof {
            assert forall|i: int| 0 <= i < self.buffers@.len() implies view_ok(#[trigger] self.buffers@[i]) by {
                if i != c {
                    assert(self.buffers@[i] == old(self).buffers@[i]);
                }
            }
            let fb = self.buffers@[c as int];
            assert(fb.undo == kept_ctx.buf.undo && fb.hist == kept_ctx.buf.hist && fb.group == kept_ctx.buf.group
                && fb.undo_pos == kept_ctx.buf.undo_pos);
        }
        self.echo = match r {
            Ok(()) => {
                if echo.as_str().is_empty() {
                    self.vm.show()
                } else {
                    echo
                }
            },
            Err(e) => e,
        };
    }

    /// Evaluates the Forth form at the cursor: the definition around it, or else the
    /// token under or before it.
    fn eval_at_point(&mut self)
        requires
            old(self).wf(),
            old(self).mode is Edit,
        ensures
            final(self).wf(),
            final(self).current == old(self).current,
            final(self).buffers@.len() == old(self).buffers@.len(),
            final(self).mode == old(self).mode,
            final(self).kills == old(self).kills,
            evaluated_at_point(*old(self), *final(self)),
    {
        proof {
            assert(view_ok(self.buffers@[self.current as int]));
            self.buffers@[self.current as int].lemma_wf();
        }
        let all = self.buffers[self.current].text.all();
        let cursor = self.buffers[self.current].cursor;
        proof {
            encode_utf8_decode_utf8(all@);
        }
        match form_at(all.as_str(), cursor) {
            Some(src) => self.eval_forth(src.as_str()),
            None => {
                self.echo = "Nothing to evaluate here".to_string();
            },
        }
    }
}


/// A movement or deletion that a numeric argument repeats.
#[derive(Clone, Copy, PartialEq, Eq, Structural, Debug)]
pub enum Motion {
    Forward,
    Backward,
    Down,
    Up,
    WordEnd,
    WordStart,
    DeleteForward,
    DeleteBackward,
}

/// The boundary just after `c`: `c` advanced over one character, or `c` at the end.
pub open spec fn next_pos(t: Seq<u8>, c: int) -> int {
    if c >= t.len() {
        c
    } else {
        c + crate::encoding::char_bytes(char_at_spec(t, c)).len()
    }
}

/// The boundary just before `c`: the nearest character boundary of `t` below `c`, or 0.
pub open spec fn prev_pos(t: Seq<u8>, c: int) -> int {
    if c <= 0 {
        0
    } else {
        choose|r: int| 0 <= r < c && is_char_boundary(t, r) && forall|k: int| r < k < c ==> !is_char_boundary(t, k)
    }
}

/// A boundary below `c` with none between it and `c` is `prev_pos(t, c)`.
pub proof fn lemma_prev_pos(t: Seq<u8>, c: int, r: int)
    requires
        0 <= r < c,
        is_char_boundary(t, r),
        forall|k: int| r < k < c ==> !is_char_boundary(t, k),
    ensures
        prev_pos(t, c) == r,
{
    let p = prev_pos(t, c);
    assert(0 <= p < c && is_char_boundary(t, p) && forall|k: int| p < k < c ==> !is_char_boundary(t, k));
    if p < r {
        assert(!is_char_boundary(t, r));
    }
    if r < p {
        assert(!is_char_boundary(t, p));
    }
}

/// Where one step of the motion `m` from `c` lands in `t` (`c` for the motions that
/// do not only move).
pub open spec fn motion_step(t: Seq<u8>, c: int, m: Motion) -> int {
    match m {
        Motion::Forward => next_pos(t, c),
        Motion::Backward => prev_pos(t, c),
        Motion::WordEnd => crate::editor::word_end_spec(t, c),
        Motion::WordStart => crate::editor::word_start_spec(t, c),
        _ => c,
    }
}

/// Where `n` steps of `m` from `c` land in `t`.
pub open spec fn walked(t: Seq<u8>, c: int, m: Motion, n: nat) -> int
    decreases n,
{
    if n == 0 {
        c
    } else {
        motion_step(t, walked(t, c, m, (n - 1) as nat), m)
    }
}

/// Text and cursor after one deletion step of `m` at `c` in `t`: the character after
/// the cursor goes for a forward delete, the one before it for a backward delete.
pub open spec fn del_step(t: Seq<u8>, c: int, m: Motion) -> (Seq<u8>, int) {
    if m == Motion::DeleteForward {
        (crate::text::cut(t, c, next_pos(t, c)), c)
    } else {
        (crate::text::cut(t, prev_pos(t, c), c), prev_pos(t, c))
    }
}

/// Text and cursor after `n` deletion steps of `m` from `c` in `t`.
pub open spec fn erased(t: Seq<u8>, c: int, m: Motion, n: nat) -> (Seq<u8>, int)
    decreases n,
{
    if n == 0 {
        (t, c)
    } else {
        let p = erased(t, c, m, (n - 1) as nat);
        del_step(p.0, p.1, m)
    }
}

/// Whether `m` deletes a character.
pub open spec fn deletes(m: Motion) -> bool {
    m == Motion::DeleteForward || m == Motion::DeleteBackward
}

/// Where `C-k` at `c` kills to: the end of the line, or past its newline when `c` is
/// already at the end of the line or `whole` is set (a count above one).
pub open spec fn line_kill_end(t: Seq<u8>, c: int, whole: bool) -> int {
    let le = crate::text::newline_from(t, c);
    if whole || c == le {
        if le + 1 < t.len() { le + 1 } else { t.len() as int }
    } else {
        le
    }
}

/// The text after `k` line kills at `c` in `t` (the cursor stays at `c`).
pub open spec fn lines_killed(t: Seq<u8>, c: int, whole: bool, k: nat) -> Seq<u8>
    decreases k,
{
    if k == 0 {
        t
    } else {
        let t1 = lines_killed(t, c, whole, (k - 1) as nat);
        let e = line_kill_end(t1, c, whole);
        if e <= c { t1 } else { crate::text::cut(t1, c, e) }
    }
}

proof fn lemma_lines_killed_stop(t: Seq<u8>, c: int, whole: bool, i: nat, j: nat)
    requires
        i <= j,
        line_kill_end(lines_killed(t, c, whole, i), c, whole) <= c,
    ensures
        lines_killed(t, c, whole, j) == lines_killed(t, c, whole, i),
    decreases j - i,
{
    if j > i {
        lemma_lines_killed_stop(t, c, whole, i, (j - 1) as nat);
    }
}

/// Text and cursor after killing one word forward or back from `c` in `t`.
pub open spec fn word_kill(t: Seq<u8>, c: int, forward: bool) -> (Seq<u8>, int) {
    if forward {
        (crate::text::cut(t, c, crate::editor::word_end_spec(t, c)), c)
    } else {
        let s = crate::editor::word_start_spec(t, c);
        (crate::text::cut(t, s, c), s)
    }
}

/// Text and cursor after `k` word kills from `c` in `t`.
pub open spec fn words_killed(t: Seq<u8>, c: int, forward: bool, k: nat) -> (Seq<u8>, int)
    decreases k,
{
    if k == 0 {
        (t, c)
    } else {
        let p = words_killed(t, c, forward, (k - 1) as nat);
        word_kill(p.0, p.1, forward)
    }
}

proof fn lemma_words_killed_stop(t: Seq<u8>, c: int, forward: bool, i: nat, j: nat)
    requires
        i <= j,
        word_kill(words_killed(t, c, forward, i).0, words_killed(t, c, forward, i).1, forward) == words_killed(t, c, forward, i),
    ensures
        words_killed(t, c, forward, j) == words_killed(t, c, forward, i),
    decreases j - i,
{
    if j > i {
        lemma_words_killed_stop(t, c, forward, i, (j - 1) as nat);
    }
}

/// Whether `m` only moves the cursor.
pub open spec fn only_moves(m: Motion) -> bool {
    m == Motion::Forward || m == Motion::Backward || m == Motion::WordEnd || m == Motion::WordStart
}

/// One step of `m` on `b`.
fn apply(b: &mut Buffer, m: Motion)
    requires
        view_ok(*old(b)),
    ensures
        view_ok(*final(b)),
        final(b).name == old(b).name,
        final(b).path == old(b).path,
        only_moves(m) ==> final(b).moved(*old(b)) && final(b).cursor == motion_step(old(b).text@, old(b).cursor as int, m),
        (m == Motion::Down || m == Motion::Up) ==> final(b).text == old(b).text && final(b).line_moved(*old(b), m == Motion::Down),
        deletes(m) ==> final(b).text@ == del_step(old(b).text@, old(b).cursor as int, m).0 && final(b).cursor == del_step(
            old(b).text@,
            old(b).cursor as int,
            m,
        ).1,
        !deletes(m) ==> final(b).undo == old(b).undo && final(b).undo_pos == old(b).undo_pos && final(b).hist == old(b).hist,
        deletes(m) ==> crate::editor::appended_in_group(*old(b), *final(b)),
{
    proof {
        old(b).lemma_wf();
    }
    match m {
        Motion::Forward => b.forward(),
        Motion::Backward => {
            b.backward();
            proof {
                if old(b).cursor > 0 {
                    lemma_prev_pos(old(b).text@, old(b).cursor as int, b.cursor as int);
                }
            }
        },
        Motion::Down => b.vertical(true),
        Motion::Up => b.vertical(false),
        Motion::WordEnd => {
            let e = b.word_end();
            b.goto(e);
        },
        Motion::WordStart => {
            let e = b.word_start();
            b.goto(e);
        },
        Motion::DeleteForward => {
            let cur = b.cursor;
            let end = b.text.next_boundary(cur);
            proof {
                assert(crate::text::cut(old(b).text@, cur as int, cur as int) =~= old(b).text@);
            }
            let r = b.delete(cur, end);
            proof {
                crate::editor::lemma_deleted_appended(*old(b), *b, cur as int, end as int, r@);
            }
        },
        Motion::DeleteBackward => {
            let cur = b.cursor;
            let start = b.text.prev_boundary(cur);
            proof {
                if cur > 0 {
                    lemma_prev_pos(old(b).text@, cur as int, start as int);
                }
                assert(crate::text::cut(old(b).text@, cur as int, cur as int) =~= old(b).text@);
            }
            let r = b.delete(start, cur);
            proof {
                crate::editor::lemma_deleted_appended(*old(b), *b, start as int, cur as int, r@);
            }
        },
    }
}

/// The kind of command `cmd` counts as for the next one.
pub open spec fn last_of(cmd: Cmd) -> Last {
    match cmd {
        Cmd::Insert(_) | Cmd::Newline => Last::Insert,
        Cmd::KillLine | Cmd::KillRegion | Cmd::KillWordForward | Cmd::KillWordBackward => Last::Kill,
        Cmd::Yank | Cmd::YankPop => Last::Yank,
        Cmd::Next | Cmd::Prev | Cmd::PageDown | Cmd::PageUp => Last::LineMove,
        _ => Last::Other,
    }
}

/// What of a buffer the editing commands show and keep: text, cursor, mark, name,
/// path, file mode, whether it is modified, and the first line shown.
pub open spec fn surface_eq(a: Buffer, b: Buffer) -> bool {
    &&& a.text@ == b.text@
    &&& a.cursor == b.cursor
    &&& a.mark == b.mark
    &&& a.mark_active == b.mark_active
    &&& a.modified == b.modified
    &&& a.name == b.name
    &&& a.path == b.path
    &&& a.mode_bits == b.mode_bits
    &&& a.top == b.top
}

/// The two buffer lists agree buffer by buffer on what `surface_eq` compares.
pub open spec fn surfaces_eq(x: Seq<Buffer>, y: Seq<Buffer>) -> bool {
    &&& x.len() == y.len()
    &&& forall|i: int| 0 <= i < x.len() ==> surface_eq(#[trigger] x[i], y[i])
}

/// `n` copies of `c`.
pub open spec fn copies(c: char, n: nat) -> Seq<char> {
    Seq::new(n, |i: int| c)
}

/// `b`'s current buffer is `a`'s with `n` copies of `c` typed at the cursor (and is then
/// marked modified, its region inactive), when
/// `4 * n` more bytes would fit in a buffer.
pub open spec fn typed(a: Editor, b: Editor, c: char, n: usize) -> bool {
    let s = encode_utf8(copies(c, n as nat));
    &&& b.current == a.current
    &&& a.cur().text@.len() + 4 * n <= TEXT_MAX ==> b.cur().text@ == crate::text::spliced(a.cur().text@, a.cur().cursor as int, s)
        && b.cur().cursor == a.cur().cursor + s.len()
    &&& a.cur().text@.len() + 4 * n <= TEXT_MAX && n > 0 ==> b.cur().modified && !b.cur().mark_active
}

proof fn lemma_typed(a: Editor, b: Editor, c: char, n: usize)
    requires
        a.cur().cursor <= a.cur().text@.len(),
        b.current == a.current,
        a.cur().text@.len() + 4 * n <= TEXT_MAX ==> b.cur().inserted_at_cursor(
            a.cur(),
            encode_utf8(Seq::new(n as nat, |i: int| c)),
        ),
    ensures
        typed(a, b, c, n),
{
    let s = encode_utf8(Seq::new(n as nat, |i: int| c));
    crate::encoding::lemma_encode_len(Seq::new(n as nat, |i: int| c));
    if a.cur().text@.len() + 4 * n <= TEXT_MAX {
        let mid = choose|mid: Buffer|
            mid.inserted(a.cur(), a.cur().cursor as int, s) && b.cur() == (Buffer { cursor: (a.cur().cursor + s.len()) as usize, ..mid });
        if s.len() == 0 {
            assert(crate::text::spliced(a.cur().text@, a.cur().cursor as int, s) =~= a.cur().text@);
        }
    }
}

/// What typing `n` copies of `c` does to the undo history of `a`'s buffer, when the
/// text fits and `n > 0`: one new edit, with undo starting again from it. When the
/// typing goes on from earlier typing (`joined`) the edit joins their group, so that
/// one undo reverts all of it; otherwise it opens a group of its own, which one undo
/// reverts alone (`edits_grouped`).
pub open spec fn typing_undo(a: Editor, b: Editor, c: char, n: usize, joined: bool) -> bool {
    let x = a.cur();
    let y = b.cur();
    x.text@.len() + 4 * n <= TEXT_MAX && n > 0 ==> {
        &&& y.undo@.len() == x.undo@.len() + 1
        &&& y.undo@.take(x.undo@.len() as int) == x.undo@
        &&& y.undo_pos == y.undo@.len()
        &&& joined ==> y.group == x.group && y.undo@.last().group == x.group
        &&& !joined && x.group < u64::MAX ==> crate::editor::edits_grouped(x, y)
    }
}

/// How a command run from `a` with count `n` leaves the undo history of the buffer:
/// typed text joins the typing just before it; a newline, typing after anything
/// else, deleting characters, killing or yanking starts a group of its own; the
/// commands of `keeps_history` add nothing to it and make the next undo start again
/// from the latest edit.
pub open spec fn undo_effect(a: Editor, b: Editor, cmd: Cmd, n: usize) -> bool {
    match cmd {
        Cmd::Insert(c) => typing_undo(a, b, c, n, a.last == Last::Insert),
        Cmd::Newline => typing_undo(a, b, '\n', n, false),
        Cmd::DeleteForward | Cmd::DeleteBackward | Cmd::KillLine | Cmd::KillWordForward | Cmd::KillWordBackward
        | Cmd::KillRegion | Cmd::Yank | Cmd::YankPop => own_group(a, b),
        _ => keeps_history(cmd) ==> {
            &&& b.current == a.current
            &&& b.cur().undo@ == a.cur().undo@
            &&& b.cur().hist@ == a.cur().hist@
            &&& b.cur().undo_pos == b.cur().undo@.len()
        },
    }
}

/// `b`'s buffer is `a`'s after edits in one group of their own, which one undo
/// reverts (`edits_grouped`), when a new group can still be numbered.
pub open spec fn own_group(a: Editor, b: Editor) -> bool {
    &&& b.current == a.current
    &&& a.cur().group < u64::MAX ==> crate::editor::edits_grouped(a.cur(), b.cur())
}

/// Edits added in the group of `m`, the buffer `x` made ready for a command (a new
/// group, undo starting from the latest edit), are in a group of their own.
proof fn lemma_grouped_from_appended(x: Buffer, m: Buffer, y: Buffer)
    requires
        x.wf(),
        m.undo@ == x.undo@,
        m.hist@ == x.hist@,
        x.group < u64::MAX ==> m.group == x.group + 1,
        m.undo_pos == m.undo@.len(),
        crate::editor::appended_in_group(m, y),
    ensures
        x.group < u64::MAX ==> crate::editor::edits_grouped(x, y),
{
    x.lemma_wf();
    let n = x.undo@.len() as int;
    if x.group < u64::MAX {
        assert(y.hist@[n] == y.hist@.take(x.hist@.len() as int)[n]);
        assert forall|k: int| 0 <= k < n implies (#[trigger] y.undo@[k]).group < y.group by {
            assert(y.undo@[k] == y.undo@.take(n)[k]);
        }
    }
}

/// The commands that move, set the mark, recentre, copy, save, list the buffers, or
/// open a prompt or a search: they leave the buffer's undo history as it was, and the
/// next undo starts again from the latest edit.
pub open spec fn keeps_history(cmd: Cmd) -> bool {
    match cmd {
        Cmd::Forward | Cmd::Backward | Cmd::WordForward | Cmd::WordBackward | Cmd::Next | Cmd::Prev | Cmd::PageDown
        | Cmd::PageUp | Cmd::LineStart | Cmd::LineEnd | Cmd::BufStart | Cmd::BufEnd | Cmd::Recenter | Cmd::SetMark
        | Cmd::ExchangeMark | Cmd::SearchForward | Cmd::SearchBackward | Cmd::QueryReplace | Cmd::WriteAs
        | Cmd::FindFile | Cmd::SwitchBuffer | Cmd::Repl | Cmd::CopyRegion | Cmd::Save | Cmd::ListBuffers
        | Cmd::QuitEditor => true,
        _ => false,
    }
}

/// One undo right after typing that opened a group of its own brings back the text
/// from before the typing.
pub proof fn lemma_undo_after_typing(a: Editor, b: Editor, c: char, n: usize, y: Buffer)
    requires
        typing_undo(a, b, c, n, false),
        a.cur().text@.len() + 4 * n <= TEXT_MAX,
        n > 0,
        a.cur().group < u64::MAX,
        y.undone_from(b.cur()),
    ensures
        y.text@ == a.cur().text@,
{
    crate::editor::lemma_undo_reverts_group(a.cur(), b.cur(), y);
}

/// One undo right after a command that edited in a group of its own (`own_group`)
/// brings back the text from before the command.
pub proof fn lemma_undo_after_edit(a: Editor, b: Editor, y: Buffer)
    requires
        own_group(a, b),
        a.cur().group < u64::MAX,
        b.cur().undo@.len() > a.cur().undo@.len(),
        y.undone_from(b.cur()),
    ensures
        y.text@ == a.cur().text@,
{
    crate::editor::lemma_undo_reverts_group(a.cur(), b.cur(), y);
}

/// An undo, then a command of `keeps_history`, then another undo: the second undo
/// brings back the text the first one reverted.
pub proof fn lemma_undo_again_after_move(b0: Buffer, a: Editor, b: Editor, cmd: Cmd, n: usize, b3: Buffer)
    requires
        b0.wf(),
        b0.undo_pos > 0,
        b0.group < u64::MAX,
        a.cur().undone_from(b0),
        a.cur().undo@.len() > b0.undo@.len(),
        keeps_history(cmd),
        undo_effect(a, b, cmd, n),
        b3.undone_from(b.cur()),
    ensures
        b3.text@ == b0.text@,
{
    crate::editor::lemma_undo_undoes_undo(b0, a.cur(), b.cur(), b3);
}

/// Typing into `m`, the buffer `x` made ready for a command (a new group unless
/// `joined`, undo starting from the latest edit), gives `typing_undo`.
proof fn lemma_typing_undo(x: Buffer, m: Buffer, y: Buffer, c: char, n: usize, joined: bool)
    requires
        x.wf(),
        m.wf(),
        m.undo@ == x.undo@,
        m.hist@ == x.hist@,
        m.text@ == x.text@,
        m.cursor == x.cursor,
        m.undo_pos == m.undo@.len(),
        joined ==> m.group == x.group,
        !joined && x.group < u64::MAX ==> m.group == x.group + 1,
        x.text@.len() + 4 * n <= TEXT_MAX ==> y.inserted_at_cursor(m, encode_utf8(Seq::new(n as nat, |i: int| c))),
    ensures
        x.text@.len() + 4 * n <= TEXT_MAX && n > 0 ==> {
            &&& y.undo@.len() == x.undo@.len() + 1
            &&& y.undo@.take(x.undo@.len() as int) == x.undo@
            &&& y.undo_pos == y.undo@.len()
            &&& joined ==> y.group == x.group && y.undo@.last().group == x.group
            &&& !joined && x.group < u64::MAX ==> crate::editor::edits_grouped(x, y)
        },
{
    x.lemma_wf();
    m.lemma_wf();
    if x.text@.len() + 4 * n <= TEXT_MAX && n > 0 {
        let cs = Seq::new(n as nat, |i: int| c);
        let s = encode_utf8(cs);
        crate::encoding::lemma_encode_len(cs);
        assert(s.len() > 0);
        let mid = choose|mid: Buffer|
            mid.inserted(m, m.cursor as int, s) && y == (Buffer { cursor: (m.cursor + s.len()) as usize, ..mid });
        let k = x.undo@.len() as int;
        assert(y.undo@.take(k) =~= x.undo@);
        assert(y.undo@[k].group == m.group);
        if !joined && x.group < u64::MAX {
            assert(y.hist@[k] == m.hist@[k]);
            assert forall|j: int| 0 <= j < k implies (#[trigger] y.undo@[j]).group < y.group by {
                assert(y.undo@[j] == x.undo@[j]);
            }
        }
    }
}

/// Lists that agree on what `surface_eq` compares list the same and agree on whether
/// some buffer is modified.
proof fn lemma_surfaces_list(x: Seq<Buffer>, y: Seq<Buffer>)
    requires
        surfaces_eq(x, y),
    ensures
        buffer_list_spec(x) == buffer_list_spec(y),
        any_modified(x) == any_modified(y),
    decreases x.len(),
{
    if x.len() > 0 {
        assert(surfaces_eq(x.drop_last(), y.drop_last())) by {
            assert forall|i: int| 0 <= i < x.drop_last().len() implies surface_eq(
                #[trigger] x.drop_last()[i],
                y.drop_last()[i],
            ) by {
                assert(surface_eq(x[i], y[i]));
            }
        }
        lemma_surfaces_list(x.drop_last(), y.drop_last());
        assert(surface_eq(x[x.len() - 1], y[y.len() - 1]));
    }
    if any_modified(x) {
        let i = choose|i: int| 0 <= i < x.len() && (#[trigger] x[i]).modified;
        assert(surface_eq(x[i], y[i]));
        assert(y[i].modified);
    }
    if any_modified(y) {
        let i = choose|i: int| 0 <= i < y.len() && (#[trigger] y[i]).modified;
        assert(surface_eq(x[i], y[i]));
        assert(x[i].modified);
    }
}

/// A command's effect stated from `m` holds from `a` when the two differ only in what
/// `surface_eq` leaves out.
proof fn lemma_effect_from(a: Editor, m: Editor, b: Editor, cmd: Cmd, n: usize)
    requires
        a.current == m.current,
        a.current < a.buffers@.len(),
        surfaces_eq(a.buffers@, m.buffers@),
        a.kills == m.kills,
        a.quit == m.quit,
        a.last == m.last,
        a.rows == m.rows,
        a.yank == m.yank,
        a.kill_idx == m.kill_idx,
        cmd == Cmd::Undo ==> a.cur().undo@ == m.cur().undo@ && a.cur().hist@ == m.cur().hist@ && a.cur().undo_pos == m.cur().undo_pos,
        (cmd == Cmd::Next || cmd == Cmd::Prev || cmd == Cmd::PageDown || cmd == Cmd::PageUp) ==> a.cur().goal == m.cur().goal,
        cmd == Cmd::EvalPoint ==> a.vm == m.vm && a.cur().undo@.len() == m.cur().undo@.len() && (a.cur().group + 1
            < u64::MAX ==> m.cur().group < u64::MAX) && evaluated_at_point(m, b),
        cmd_effect(m, b, cmd, n),
    ensures
        cmd_effect(a, b, cmd, n),
{
    lemma_surfaces_list(a.buffers@, m.buffers@);
    assert(surface_eq(a.cur(), m.cur()));
    if cmd == Cmd::EvalPoint && a.cur().group + 1 < u64::MAX {
        if form_at_spec(decode_utf8(a.cur().text@), a.cur().cursor as int) is Some {
            assert(crate::editor::edits_grouped(m.cur(), b.cur()));
            assert(crate::editor::edits_grouped(a.cur(), b.cur()));
        }
    }
    if cmd == Cmd::KillBuffer && !a.cur().modified && a.buffers@.len() > 1 {
        let c = a.current as int;
        let x = a.buffers@.remove(c);
        let y = m.buffers@.remove(c);
        assert forall|i: int| 0 <= i < b.buffers@.len() implies surface_eq(#[trigger] b.buffers@[i], x[i]) by {
            assert(surface_eq(b.buffers@[i], y[i]));
            if i < c {
                assert(surface_eq(a.buffers@[i], m.buffers@[i]));
            } else {
                assert(surface_eq(a.buffers@[i + 1], m.buffers@[i + 1]));
            }
        }
    }
}

/// A command's effect stated from `m` holds from `a` when the two have the same
/// buffers and agree on every other field an effect reads.
proof fn lemma_effect_same(a: Editor, m: Editor, b: Editor, cmd: Cmd, n: usize)
    requires
        a.current == m.current,
        a.buffers == m.buffers,
        a.kills == m.kills,
        a.quit == m.quit,
        a.last == m.last,
        a.rows == m.rows,
        a.vm == m.vm,
        a.yank == m.yank,
        a.kill_idx == m.kill_idx,
        cmd_effect(m, b, cmd, n),
    ensures
        cmd_effect(a, b, cmd, n),
{
}

/// A command's effect stated in `d` holds in `f` when the two differ only in what
/// `surface_eq` leaves out and in the fields no effect speaks of.
proof fn lemma_effect_to(a: Editor, d: Editor, f: Editor, cmd: Cmd, n: usize)
    requires
        d.current == f.current,
        d.current < d.buffers@.len(),
        surfaces_eq(d.buffers@, f.buffers@),
        d.echo == f.echo,
        d.mode == f.mode,
        d.quit == f.quit,
        d.yank == f.yank,
        d.request == f.request,
        d.kills == f.kills,
        d.kill_idx == f.kill_idx,
        (cmd == Cmd::Next || cmd == Cmd::Prev || cmd == Cmd::PageDown || cmd == Cmd::PageUp) ==> d.cur().goal == f.cur().goal,
        cmd == Cmd::EvalPoint ==> d.vm == f.vm && d.cur().undo == f.cur().undo && d.cur().hist == f.cur().hist
            && d.cur().group == f.cur().group && d.cur().undo_pos == f.cur().undo_pos,
        cmd_effect(a, d, cmd, n),
    ensures
        cmd_effect(a, f, cmd, n),
{
    assert(surface_eq(d.cur(), f.cur()));
    if cmd == Cmd::KillBuffer && !a.cur().modified && a.buffers@.len() > 1 {
        let x = a.buffers@.remove(a.current as int);
        assert forall|i: int| 0 <= i < f.buffers@.len() implies surface_eq(#[trigger] f.buffers@[i], x[i]) by {
            assert(surface_eq(d.buffers@[i], f.buffers@[i]));
            assert(surface_eq(d.buffers@[i], x[i]));
        }
    }
    if cmd == Cmd::KillBuffer && !a.cur().modified && a.buffers@.len() == 1 {
        assert(surface_eq(d.buffers@[0], f.buffers@[0]));
    }
}

/// What a key does from `m` it does from `a` when the two differ only in fields that
/// neither the key's command nor its effect reads.
proof fn lemma_edit_effect_from(a: Editor, m: Editor, b: Editor, key: Key)
    requires
        a.current == m.current,
        a.current < a.buffers@.len(),
        a.buffers == m.buffers,
        a.kills == m.kills,
        a.quit == m.quit,
        a.mg == m.mg,
        a.cx == m.cx,
        a.arg == m.arg,
        a.arg_digits == m.arg_digits,
        a.last == m.last,
        a.rows == m.rows,
        a.vm == m.vm,
        a.yank == m.yank,
        a.kill_idx == m.kill_idx,
        edit_effect(m, b, key),
    ensures
        edit_effect(a, b, key),
{
    let prefix = key == Key::Ctrl('g') || m.mg || (!m.cx && (key == Key::Ctrl('u') || (m.arg is Some && (key matches Key::Char(
    d) && '0' <= d <= '9')) || key == Key::Ctrl('x') || key == Key::Meta('g')));
    if !prefix {
        if let Some(cmd) = keymap_spec(m.cx, key) {
            lemma_effect_same(a, m, b, cmd, count_of(m.arg));
        }
    }
}

/// The kill ring `b` has after kills that together removed the bytes `removed` from
/// `a`'s buffer: unchanged when nothing was removed; otherwise `a`'s ring after
/// killing the text those bytes encode.
pub open spec fn killed_into(a: Editor, b: Editor, removed: Seq<u8>, forward: bool) -> bool {
    if removed.len() == 0 {
        b.kills == a.kills
    } else {
        exists|r: Seq<char>| #[trigger] encode_utf8(r) == removed && b.kills@.map_values(|k: String| k@) == a.kills_after(r, forward)
    }
}

/// A kill right after a kill joins the text it removes to the text already killed.
proof fn lemma_kills_chain(a: Editor, p: Editor, big: Seq<char>, r: Seq<char>, forward: bool, ks: Seq<Seq<char>>)
    requires
        p.kills@.map_values(|k: String| k@) == a.kills_after(big, forward),
        p.last == Last::Kill,
        ks == p.kills_after(r, forward),
    ensures
        ks == a.kills_after(if forward { big + r } else { r + big }, forward),
{
    let k0 = a.kills@.map_values(|k: String| k@);
    if a.last == Last::Kill && k0.len() > 0 {
        if forward {
            assert(k0[0] + big + r =~= k0[0] + (big + r));
        } else {
            assert(r + (big + k0[0]) =~= (r + big) + k0[0]);
        }
        assert(ks =~= a.kills_after(if forward { big + r } else { r + big }, forward));
    } else {
        assert(ks =~= a.kills_after(if forward { big + r } else { r + big }, forward));
    }
}

/// `b` shows `n` undo steps of `a` (fewer where the history runs out): each step
/// goes back over the latest group of edits not yet undone, and `b` has the text as
/// it was before the last group undone, with the cursor where that group's first
/// edit found it; `a`'s text and cursor when there is nothing to undo.
pub open spec fn undone_times(a: Buffer, b: Buffer, n: nat) -> bool {
    let p = crate::editor::undo_steps(a.undo@, a.undo_pos as int, n);
    &&& b.text@ == a.hist@[p]
    &&& p < a.undo_pos ==> b.cursor == a.undo@[p].cursor
    &&& p == a.undo_pos ==> b.cursor == a.cursor
}

/// How many lines `n` pages move on a screen of `rows` rows: the text area (two rows
/// fewer) less two lines, at least one, times `n`, capped at the largest `usize`.
pub open spec fn page_lines(rows: usize, n: usize) -> nat {
    let r4 = if rows >= 4 { rows - 4 } else { 0int };
    let step = if r4 > 1 { r4 } else { 1int };
    sat_mul_spec(step, n as int) as nat
}

/// `b`'s current buffer has `a`'s text and its cursor at `to`.
pub open spec fn moved_to(a: Editor, b: Editor, to: int) -> bool {
    &&& b.current == a.current
    &&& b.cur().text@ == a.cur().text@
    &&& b.cur().cursor == to
}

/// What running `cmd` with count `n` in `a` leaves in `b`: stated for typing, moving
/// by characters, words and (with no count) lines, deleting characters, killing
/// lines and words, moves to the start or end of the line or the buffer,
/// recentring, setting and exchanging the mark, killing and copying the region,
/// yanking and yank-pop, moving by lines and by pages, undo, starting a search,
/// opening a prompt, saving, killing a buffer, listing buffers, quitting and
/// evaluating the form at point.
pub open spec fn cmd_effect(a: Editor, b: Editor, cmd: Cmd, n: usize) -> bool {
    let t = a.cur().text@;
    let at = a.cur().cursor;
    match cmd {
        Cmd::Insert(c) => typed(a, b, c, n),
        Cmd::Newline => typed(a, b, '\n', n),
        Cmd::Forward => moved_to(a, b, walked(t, at as int, Motion::Forward, n as nat)),
        Cmd::Backward => moved_to(a, b, walked(t, at as int, Motion::Backward, n as nat)),
        Cmd::WordForward => moved_to(a, b, walked(t, at as int, Motion::WordEnd, n as nat)),
        Cmd::WordBackward => moved_to(a, b, walked(t, at as int, Motion::WordStart, n as nat)),
        Cmd::Next => b.current == a.current && b.cur().text@ == t && (n >= 1 ==> b.cur().lines_moved(a.cur(), true, n as nat)),
        Cmd::Prev => b.current == a.current && b.cur().text@ == t && (n >= 1 ==> b.cur().lines_moved(a.cur(), false, n as nat)),
        Cmd::PageDown => b.current == a.current && b.cur().text@ == t && (n >= 1 ==> b.cur().lines_moved(
            a.cur(),
            true,
            page_lines(a.rows, n),
        )),
        Cmd::PageUp => b.current == a.current && b.cur().text@ == t && (n >= 1 ==> b.cur().lines_moved(
            a.cur(),
            false,
            page_lines(a.rows, n),
        )),
        Cmd::DeleteForward => b.current == a.current && (b.cur().text@, b.cur().cursor as int) == erased(
            t,
            at as int,
            Motion::DeleteForward,
            n as nat,
        ),
        Cmd::DeleteBackward => b.current == a.current && (b.cur().text@, b.cur().cursor as int) == erased(
            t,
            at as int,
            Motion::DeleteBackward,
            n as nat,
        ),
        Cmd::KillLine => b.current == a.current && b.cur().text@ == lines_killed(t, at as int, n > 1, n as nat)
            && b.cur().cursor == at && killed_into(a, b, t.subrange(at as int, at + t.len() - b.cur().text@.len()), true),
        Cmd::KillWordForward => b.current == a.current && (b.cur().text@, b.cur().cursor as int) == words_killed(
            t,
            at as int,
            true,
            n as nat,
        ) && killed_into(a, b, t.subrange(at as int, at + t.len() - b.cur().text@.len()), true),
        Cmd::KillWordBackward => b.current == a.current && (b.cur().text@, b.cur().cursor as int) == words_killed(
            t,
            at as int,
            false,
            n as nat,
        ) && killed_into(a, b, t.subrange(b.cur().cursor as int, at as int), false),
        Cmd::Recenter => {
            let half = (if a.rows >= 2 { a.rows - 2 } else { 0int }) / 2;
            let line = crate::encoding::count_nl(t.take(at as int)) as int;
            &&& moved_to(a, b, at as int)
            &&& b.cur().top == (if line >= half { line - half } else { 0 })
        },
        Cmd::Undo => b.current == a.current && undone_times(a.cur(), b.cur(), n as nat),
        Cmd::LineStart => b.current == a.current && b.cur().text@ == t && is_line_start(
            t,
            crate::encoding::count_nl(t.take(at as int)) as int,
            b.cur().cursor as int,
        ),
        Cmd::LineEnd => b.current == a.current && b.cur().text@ == t && is_next_newline(t, at as int, b.cur().cursor as int),
        Cmd::BufStart => moved_to(a, b, 0),
        Cmd::BufEnd => moved_to(a, b, t.len() as int),
        Cmd::SetMark => moved_to(a, b, at as int) && b.cur().mark == Some(at) && b.cur().mark_active && b.echo@ == "Mark set"@,
        Cmd::KillRegion => match a.cur().mark {
            None => moved_to(a, b, at as int) && b.echo@ == "The mark is not set now"@,
            Some(m) => {
                let lo = if m < at { m as int } else { at as int };
                let hi = if m < at { at as int } else { m as int };
                &&& b.current == a.current
                &&& b.cur().text@ == crate::text::cut(t, lo, hi)
                &&& b.cur().cursor == lo
                &&& lo < hi ==> exists|r: Seq<char>|
                    #![trigger encode_utf8(r)]
                    encode_utf8(r) == t.subrange(lo, hi) && b.kills@.map_values(|k: String| k@) == a.kills_after(r, true)
                &&& lo == hi ==> b.kills == a.kills
            },
        },
        Cmd::ExchangeMark => match a.cur().mark {
            None => moved_to(a, b, at as int) && b.echo@ == "No mark set in this buffer"@,
            Some(m) => moved_to(a, b, m as int) && b.cur().mark == Some(at) && b.cur().mark_active,
        },
        Cmd::CopyRegion => match a.cur().mark {
            None => moved_to(a, b, at as int) && b.echo@ == "The mark is not set now"@,
            Some(m) => {
                let lo = if m < at { m as int } else { at as int };
                let hi = if m < at { at as int } else { m as int };
                &&& moved_to(a, b, at as int)
                &&& b.cur().mark == Some(m)
                &&& !b.cur().mark_active
                &&& exists|r: Seq<char>|
                    #![trigger encode_utf8(r)]
                    encode_utf8(r) == t.subrange(lo, hi) && b.kills@.map_values(|k: String| k@) == a.kills_after(r, true)
            },
        },
        Cmd::KillBuffer => {
            &&& a.cur().modified ==> prompting_yes_no(a, b, PromptAction::KillBufferConfirm)
            &&& !a.cur().modified && a.buffers@.len() > 1 ==> surfaces_eq(b.buffers@, a.buffers@.remove(a.current as int))
            &&& !a.cur().modified && a.buffers@.len() == 1 ==> b.buffers@.len() == 1 && b.buffers@[0].name@ == "*scratch*"@
        },
        Cmd::Yank => {
            &&& b.current == a.current
            &&& a.kills@.len() == 0 ==> b.echo@ == "Kill ring is empty"@ && b.cur().text@ == t && b.cur().cursor == at
            &&& a.kills@.len() > 0 && t.len() + encode_utf8(a.kills@[0]@).len() <= TEXT_MAX ==> ({
                let s = encode_utf8(a.kills@[0]@);
                &&& b.cur().text@ == crate::text::spliced(t, at as int, s)
                &&& b.cur().cursor == at + s.len()
                &&& b.cur().mark == Some(at)
                &&& b.yank == Some((at, (at + s.len()) as usize))
            })
        },
        Cmd::SearchForward => b.current == a.current && b.cur().text@ == t && b.mode == (Mode::Search(
            Search { forward: true, needle: b.mode->Search_0.needle, found: true, origin: at, at: at },
        )) && b.mode->Search_0.needle@.len() == 0,
        Cmd::SearchBackward => b.current == a.current && b.cur().text@ == t && b.mode == (Mode::Search(
            Search { forward: false, needle: b.mode->Search_0.needle, found: true, origin: at, at: at },
        )) && b.mode->Search_0.needle@.len() == 0,
        Cmd::QueryReplace => prompting(a, b, PromptAction::ReplaceFrom),
        Cmd::WriteAs => prompting(a, b, PromptAction::WriteAs),
        Cmd::FindFile => prompting(a, b, PromptAction::FindFile),
        Cmd::SwitchBuffer => prompting(a, b, PromptAction::SwitchBuffer),
        Cmd::Repl => prompting(a, b, PromptAction::Eval),
        Cmd::Save => {
            &&& b.current == a.current
            &&& b.cur().text@ == t
            &&& a.cur().path is None ==> (b.mode matches Mode::Prompt(p) && p.action is WriteAs)
            &&& a.cur().path is Some && !a.cur().modified ==> b.echo@ == "(No changes need to be saved)"@ && b.mode is Edit
            &&& a.cur().path is Some && a.cur().modified ==> b.mode is Edit && (b.request matches Some(
                Request::Save { path, content, mode },
            ) && path == a.cur().path->0 && encode_utf8(content@) == t && mode == a.cur().mode_bits)
        },
        Cmd::YankPop => yank_popped(a, b),
        Cmd::ListBuffers => b.echo@ == buffer_list_spec(a.buffers@) && b.current == a.current && b.cur().text@ == t,
        Cmd::EvalPoint => b.current == a.current && match form_at_spec(decode_utf8(t), at as int) {
            None => b.echo@ == "Nothing to evaluate here"@ && b.cur().text@ == t && b.vm == a.vm,
            Some(src) => forth_outcome(a.vm, b.vm, src) && (a.cur().group + 1 < u64::MAX ==> crate::editor::edits_grouped(
                a.cur(),
                b.cur(),
            )),
        },
        Cmd::QuitEditor => {
            &&& any_modified(a.buffers@) ==> (b.mode matches Mode::Prompt(p) && p.action is QuitConfirm && p.yes_no) && b.quit == a.quit
            &&& !any_modified(a.buffers@) ==> b.quit
        },
    }
}

/// `b` has a fresh prompt for `action` open and `a`'s current buffer unchanged.
pub open spec fn prompting(a: Editor, b: Editor, action: PromptAction) -> bool {
    &&& b.current == a.current
    &&& b.cur().text@ == a.cur().text@
    &&& b.cur().cursor == a.cur().cursor
    &&& (b.mode matches Mode::Prompt(p) && p.action == action && p.input@.len() == 0 && p.cur == 0 && !p.yes_no)
}

/// `b` asks a yes-or-no question for `action` and has `a`'s current buffer unchanged.
pub open spec fn prompting_yes_no(a: Editor, b: Editor, action: PromptAction) -> bool {
    &&& b.current == a.current
    &&& b.cur().text@ == a.cur().text@
    &&& b.cur().cursor == a.cur().cursor
    &&& (b.mode matches Mode::Prompt(p) && p.action == action && p.input@.len() == 0 && p.yes_no)
}

/// The count a command runs with: the numeric argument, at least one.
pub open spec fn count_of(arg: Option<usize>) -> usize {
    match arg {
        Some(k) => if k < 1 { 1 } else { k },
        None => 1,
    }
}

/// What `key` does when `a` is editing, leaving `b`. `C-g` cancels prefixes and the
/// selection; after `M-g` only `g` (goto line) is bound; `C-u` multiplies the
/// argument by four and digits after it set it; `C-x` and `M-g` are prefixes; any
/// other key runs the command it is bound to, with the argument as count, or is
/// reported as undefined.
pub open spec fn edit_effect(a: Editor, b: Editor, key: Key) -> bool {
    if key == Key::Ctrl('g') {
        &&& b.echo@ == "Quit"@ && !b.cx && !b.mg && b.arg is None && b.last == Last::Other
        &&& b.current == a.current && b.cur().text@ == a.cur().text@ && b.cur().cursor == a.cur().cursor
        &&& b.cur().mark == a.cur().mark
        &&& !b.cur().mark_active
    } else if a.mg {
        &&& !b.mg
        &&& key == Key::Char('g') || key == Key::Meta('g') ==> prompting(a, b, PromptAction::GotoLine)
        &&& !(key == Key::Char('g') || key == Key::Meta('g')) ==> b.echo@ == "M-g is undefined here"@ && b.buffers == a.buffers
    } else if !a.cx && key == Key::Ctrl('u') {
        b.buffers == a.buffers && !b.cx && !b.mg && !b.arg_digits && b.arg == Some(
            match a.arg {
                Some(k) => sat_mul_spec(k as int, 4),
                None => 4usize,
            },
        )
    } else if !a.cx && a.arg is Some && (key matches Key::Char(d) && '0' <= d <= '9') {
        let d = key->Char_0 as int - '0' as int;
        b.buffers == a.buffers && !b.cx && !b.mg && b.arg_digits && b.arg == Some(
            if a.arg_digits { sat_add_spec(sat_mul_spec(a.arg->0 as int, 10) as int, d) } else { d as usize },
        )
    } else if !a.cx && key == Key::Ctrl('x') {
        b.cx && b.buffers == a.buffers
    } else if !a.cx && key == Key::Meta('g') {
        b.mg && b.buffers == a.buffers
    } else {
        match keymap_spec(a.cx, key) {
            Some(cmd) => cmd_effect(a, b, cmd, count_of(a.arg)) && undo_effect(a, b, cmd, count_of(a.arg)) && b.last == last_of(cmd),
            None => b.echo@ == key_text_spec(key) + " is undefined"@ && b.buffers == a.buffers && !b.cx,
        }
    }
}

/// No key prefix (`C-x`, `M-g`) and no numeric argument is pending in `a`.
pub open spec fn plain_state(a: Editor) -> bool {
    !a.cx && !a.mg && a.arg is None
}

/// The character keys, with nothing pending: `C-f` and Right move one character
/// forward, `C-b` and Left one back; `C-d` and Delete delete the character after
/// the cursor, Backspace the one before it. The text and the cursor after the key
/// are stated from the text and the cursor before it.
pub proof fn lemma_char_keys(a: Editor, b: Editor, key: Key)
    requires
        plain_state(a),
        edit_effect(a, b, key),
    ensures
        ({
            let t = a.cur().text@;
            let at = a.cur().cursor as int;
            &&& (key == Key::Ctrl('f') || key == Key::Right) ==> b.current == a.current && b.cur().text@ == t
                && b.cur().cursor == next_pos(t, at)
            &&& (key == Key::Ctrl('b') || key == Key::Left) ==> b.current == a.current && b.cur().text@ == t
                && b.cur().cursor == prev_pos(t, at)
            &&& (key == Key::Ctrl('d') || key == Key::Delete) ==> b.current == a.current && b.cur().text@
                == t.take(at) + t.skip(next_pos(t, at)) && b.cur().cursor == at
            &&& key == Key::Backspace ==> b.current == a.current && b.cur().text@ == t.take(prev_pos(t, at)) + t.skip(at)
                && b.cur().cursor == prev_pos(t, at)
        }),
{
    let t = a.cur().text@;
    let at = a.cur().cursor as int;
    assert(t.take(at) == t.subrange(0, at));
    assert(t.skip(next_pos(t, at)) == t.subrange(next_pos(t, at), t.len() as int));
    assert(t.take(prev_pos(t, at)) == t.subrange(0, prev_pos(t, at)));
    assert(t.skip(at) == t.subrange(at, t.len() as int));
    assert(walked(t, at, Motion::Forward, 0) == at);
    assert(walked(t, at, Motion::Backward, 0) == at);
    assert(erased(t, at, Motion::DeleteForward, 0) == (t, at));
    assert(erased(t, at, Motion::DeleteBackward, 0) == (t, at));
}

/// The line and buffer keys, with nothing pending: `C-a` and Home go to the start
/// of the cursor's line, `C-e` and End to the end of it, `M-<` to the start of the
/// buffer and `M->` to its end; `C-n` and Down, `C-p` and Up move one line down
/// or up, `C-v` and Page Down, `M-v` and Page Up one screen; none of them changes
/// the text.
pub proof fn lemma_line_keys(a: Editor, b: Editor, key: Key)
    requires
        plain_state(a),
        edit_effect(a, b, key),
    ensures
        ({
            let t = a.cur().text@;
            let at = a.cur().cursor as int;
            &&& (key == Key::Ctrl('a') || key == Key::Home) ==> b.current == a.current && b.cur().text@ == t
                && is_line_start(t, crate::encoding::count_nl(t.take(at)) as int, b.cur().cursor as int)
            &&& (key == Key::Ctrl('e') || key == Key::End) ==> b.current == a.current && b.cur().text@ == t
                && is_next_newline(t, at, b.cur().cursor as int)
            &&& key == Key::Meta('<') ==> b.current == a.current && b.cur().text@ == t && b.cur().cursor == 0
            &&& key == Key::Meta('>') ==> b.current == a.current && b.cur().text@ == t && b.cur().cursor == t.len()
            &&& (key == Key::Ctrl('n') || key == Key::Down) ==> b.current == a.current && b.cur().text@ == t
                && b.cur().lines_moved(a.cur(), true, 1)
            &&& (key == Key::Ctrl('p') || key == Key::Up) ==> b.current == a.current && b.cur().text@ == t
                && b.cur().lines_moved(a.cur(), false, 1)
            &&& (key == Key::Ctrl('v') || key == Key::PageDown) ==> b.current == a.current && b.cur().text@ == t
                && b.cur().lines_moved(a.cur(), true, page_lines(a.rows, 1))
            &&& (key == Key::Meta('v') || key == Key::PageUp) ==> b.current == a.current && b.cur().text@ == t
                && b.cur().lines_moved(a.cur(), false, page_lines(a.rows, 1))
        }),
{
}

/// The word and kill keys, with nothing pending: `M-f` and `M-b` move to the end of
/// the word ahead and the start of the word behind; `M-d` and `M-DEL` delete up to
/// there; `C-k` deletes to the end of the line, or the line break itself when the
/// cursor is already at the end of the line.
pub proof fn lemma_word_and_kill_keys(a: Editor, b: Editor, key: Key)
    requires
        plain_state(a),
        a.cur().cursor <= a.cur().text@.len(),
        edit_effect(a, b, key),
    ensures
        ({
            let t = a.cur().text@;
            let at = a.cur().cursor as int;
            let we = crate::editor::word_end_spec(t, at);
            let ws = crate::editor::word_start_spec(t, at);
            &&& key == Key::Meta('f') ==> b.current == a.current && b.cur().text@ == t && b.cur().cursor == we
            &&& key == Key::Meta('b') ==> b.current == a.current && b.cur().text@ == t && b.cur().cursor == ws
            &&& key == Key::Meta('d') ==> b.current == a.current && b.cur().text@ == t.take(at) + t.skip(we)
                && b.cur().cursor == at
            &&& key == Key::MetaBackspace ==> b.current == a.current && b.cur().text@ == t.take(ws) + t.skip(at)
                && b.cur().cursor == ws
            &&& key == Key::Ctrl('k') ==> b.current == a.current && b.cur().cursor == at && forall|le: int|
                #[trigger] crate::text::is_next_newline(t, at, le) ==> b.cur().text@ == t.take(at) + t.skip(
                    if le > at { le } else if le < t.len() { le + 1 } else { le },
                )
        }),
{
    let t = a.cur().text@;
    let at = a.cur().cursor as int;
    let we = crate::editor::word_end_spec(t, at);
    let ws = crate::editor::word_start_spec(t, at);
    assert(walked(t, at, Motion::WordEnd, 0) == at);
    assert(walked(t, at, Motion::WordStart, 0) == at);
    assert(words_killed(t, at, true, 0) == (t, at));
    assert(words_killed(t, at, false, 0) == (t, at));
    assert(t.take(at) == t.subrange(0, at));
    assert(t.skip(at) == t.subrange(at, t.len() as int));
    assert(t.take(ws) == t.subrange(0, ws));
    assert(t.skip(we) == t.subrange(we, t.len() as int));
    if key == Key::Ctrl('k') {
        assert(lines_killed(t, at, false, 0) == t);
        assert forall|le: int| #[trigger] crate::text::is_next_newline(t, at, le) implies b.cur().text@ == t.take(at) + t.skip(
            if le > at { le } else if le < t.len() { le + 1 } else { le },
        ) by {
            crate::text::lemma_newline_is(t, at, le);
            let e = if le > at { le } else if le < t.len() { le + 1 } else { le };
            assert(t.skip(e) == t.subrange(e, t.len() as int));
            if e <= at {
                assert(t =~= t.take(at) + t.skip(at));
            }
        }
    }
}

/// The command keys, with nothing pending: `C-s` and `C-r` start a search forward
/// and backward from the cursor, `M-%` asks what to replace, `M-x` asks for a Forth
/// command; `C-SPC` sets an active mark at the cursor; `C-y` puts the newest kill at
/// the cursor and leaves the mark before it.
pub proof fn lemma_command_keys(a: Editor, b: Editor, key: Key)
    requires
        plain_state(a),
        edit_effect(a, b, key),
    ensures
        ({
            let t = a.cur().text@;
            let at = a.cur().cursor;
            &&& key == Key::Ctrl('s') ==> b.cur().text@ == t && (b.mode matches Mode::Search(sr) && sr.forward
                && sr.origin == at && sr.needle@.len() == 0)
            &&& key == Key::Ctrl('r') ==> b.cur().text@ == t && (b.mode matches Mode::Search(sr) && !sr.forward
                && sr.origin == at && sr.needle@.len() == 0)
            &&& key == Key::Meta('%') ==> b.cur().text@ == t && (b.mode matches Mode::Prompt(p) && p.action
                == PromptAction::ReplaceFrom)
            &&& key == Key::Meta('x') ==> b.cur().text@ == t && (b.mode matches Mode::Prompt(p) && p.action
                == PromptAction::Eval)
            &&& key == Key::Ctrl(' ') ==> b.cur().text@ == t && b.cur().cursor == at && b.cur().mark == Some(at)
                && b.cur().mark_active
            &&& (key == Key::Ctrl('y') && a.kills@.len() > 0 && t.len() + encode_utf8(a.kills@[0]@).len() <= TEXT_MAX)
                ==> b.cur().text@ == crate::text::spliced(t, at as int, encode_utf8(a.kills@[0]@)) && b.cur().mark == Some(at)
        }),
{
}

/// The `C-x` keys: `C-x C-f` asks for a file to visit, `C-x C-w` for a file to
/// write, `C-x b` for a buffer to switch to; `C-x C-s` asks to save a modified
/// buffer's text to its file; `C-x C-c` quits when no buffer is modified;
/// `C-x C-x` swaps the cursor and the mark.
pub proof fn lemma_prefix_keys(a: Editor, b: Editor, key: Key)
    requires
        a.cx,
        !a.mg,
        a.arg is None,
        edit_effect(a, b, key),
    ensures
        ({
            let t = a.cur().text@;
            let at = a.cur().cursor;
            &&& key == Key::Ctrl('f') ==> b.cur().text@ == t && (b.mode matches Mode::Prompt(p) && p.action
                == PromptAction::FindFile)
            &&& key == Key::Ctrl('w') ==> b.cur().text@ == t && (b.mode matches Mode::Prompt(p) && p.action
                == PromptAction::WriteAs)
            &&& key == Key::Char('b') ==> b.cur().text@ == t && (b.mode matches Mode::Prompt(p) && p.action
                == PromptAction::SwitchBuffer)
            &&& (key == Key::Ctrl('s') && a.cur().path is Some && a.cur().modified) ==> (b.request matches Some(
                Request::Save { path, content, mode },
            ) && path == a.cur().path->0 && encode_utf8(content@) == t)
            &&& (key == Key::Ctrl('c') && !any_modified(a.buffers@)) ==> b.quit
            &&& (key == Key::Ctrl('x') && a.cur().mark is Some) ==> b.cur().text@ == t && b.cur().cursor
                == a.cur().mark->0 && b.cur().mark == Some(at)
        }),
{
}

/// The numeric argument: `C-u` alone asks for 4, `C-u C-u` for 16, and digits typed
/// after `C-u` replace it with the number they spell, most significant first.
pub proof fn lemma_numeric_argument(a: Editor, b: Editor, c: Editor, d: Editor, k1: Key, k2: Key)
    requires
        plain_state(a),
        edit_effect(a, b, Key::Ctrl('u')),
        edit_effect(b, c, k1),
        edit_effect(c, d, k2),
    ensures
        b.arg == Some(4usize),
        k1 == Key::Ctrl('u') ==> c.arg == Some(16usize),
        (k1 matches Key::Char(x) && '0' <= x <= '9') ==> c.arg == Some((k1->Char_0 as u32 - '0' as u32) as usize),
        ((k1 matches Key::Char(x) && '0' <= x <= '9') && (k2 matches Key::Char(y) && '0' <= y <= '9')) ==> d.arg == Some(
            (10 * (k1->Char_0 as u32 - '0' as u32) + (k2->Char_0 as u32 - '0' as u32)) as usize,
        ),
{
}

/// The region keys, with nothing pending and a mark set: `C-w` deletes the text
/// between the mark and the cursor, leaving the cursor where the region began, and
/// `M-w` leaves the text as it is; both put the region's text on the kill ring.
/// `C-g` cancels whatever is pending and turns the region off.
pub proof fn lemma_region_keys(a: Editor, b: Editor, key: Key)
    requires
        plain_state(a),
        edit_effect(a, b, key),
    ensures
        ({
            let t = a.cur().text@;
            let at = a.cur().cursor as int;
            let m = a.cur().mark->0 as int;
            let lo = if m < at { m } else { at };
            let hi = if m < at { at } else { m };
            &&& (key == Key::Ctrl('w') && a.cur().mark is Some) ==> b.cur().text@ == t.take(lo) + t.skip(hi)
                && b.cur().cursor == lo && (lo < hi ==> exists|r: Seq<char>|
                #![trigger encode_utf8(r)]
                encode_utf8(r) == t.subrange(lo, hi) && b.kills@.map_values(|k: String| k@) == a.kills_after(r, true))
            &&& (key == Key::Meta('w') && a.cur().mark is Some) ==> b.cur().text@ == t && b.cur().cursor == at && exists|
                r: Seq<char>,
            |
                #![trigger encode_utf8(r)]
                encode_utf8(r) == t.subrange(lo, hi) && b.kills@.map_values(|k: String| k@) == a.kills_after(r, true)
            &&& key == Key::Ctrl('g') ==> b.echo@ == "Quit"@ && !b.cx && !b.mg && b.arg is None && b.cur().text@ == t
                && !b.cur().mark_active
        }),
{
    let t = a.cur().text@;
    let at = a.cur().cursor as int;
    let m = a.cur().mark->0 as int;
    let lo = if m < at { m } else { at };
    let hi = if m < at { at } else { m };
    assert(t.take(lo) == t.subrange(0, lo));
    assert(t.skip(hi) == t.subrange(hi, t.len() as int));
}

/// Typing, with nothing pending: a character key puts that character at the cursor
/// and Enter a newline, the cursor just after it (when the text has room); `C-/`
/// undoes one group.
pub proof fn lemma_typing_keys(a: Editor, b: Editor, key: Key)
    requires
        plain_state(a),
        edit_effect(a, b, key),
    ensures
        ({
            let t = a.cur().text@;
            let at = a.cur().cursor as int;
            &&& (key matches Key::Char(c) && t.len() + 4 <= TEXT_MAX) ==> b.current == a.current && b.cur().text@
                == crate::text::spliced(t, at, encode_utf8(seq![key->Char_0])) && b.cur().cursor == at + encode_utf8(
                seq![key->Char_0],
            ).len()
            &&& (key == Key::Enter && t.len() + 4 <= TEXT_MAX) ==> b.current == a.current && b.cur().text@
                == crate::text::spliced(t, at, seq![0x0au8]) && b.cur().cursor == at + 1
            &&& key == Key::Ctrl('_') ==> b.current == a.current && undone_times(a.cur(), b.cur(), 1)
        }),
{
    if key is Char {
        assert(copies(key->Char_0, 1) =~= seq![key->Char_0]);
    }
    if key == Key::Enter {
        assert(copies('\n', 1) =~= seq!['\n']);
        crate::encoding::lemma_encode_single('\n');
        crate::encoding::lemma_char_bytes_len('\n');
        assert(encode_utf8(seq!['\n']) =~= seq![0x0au8]);
    }
}

impl Editor {
    /// Applies `m` to the current buffer `n` times.
    fn repeat(&mut self, n: usize, m: Motion)
        requires
            old(self).wf(),
            old(self).mode is Edit,
        ensures
            final(self).wf(),
            final(self).mode is Edit,
            final(self).current == old(self).current,
            final(self).buffers@.len() == old(self).buffers@.len(),
            final(self).kills == old(self).kills,
            final(self).kill_idx == old(self).kill_idx,
            final(self).last == old(self).last,
            final(self).yank == old(self).yank,
            final(self).echo == old(self).echo,
            final(self).quit == old(self).quit,
            only_moves(m) ==> final(self).cur().moved(old(self).cur()) && final(self).cur().cursor == walked(
                old(self).cur().text@,
                old(self).cur().cursor as int,
                m,
                n as nat,
            ),
            deletes(m) ==> (final(self).cur().text@, final(self).cur().cursor as int) == erased(
                old(self).cur().text@,
                old(self).cur().cursor as int,
                m,
                n as nat,
            ),
            (m == Motion::Down || m == Motion::Up) && n >= 1 ==> final(self).cur().lines_moved(
                old(self).cur(),
                m == Motion::Down,
                n as nat,
            ),
            (m == Motion::Down || m == Motion::Up) ==> final(self).cur().text == old(self).cur().text,
            !deletes(m) ==> final(self).cur().undo == old(self).cur().undo && final(self).cur().undo_pos == old(self).cur().undo_pos
                && final(self).cur().hist == old(self).cur().hist,
            deletes(m) ==> crate::editor::appended_in_group(old(self).cur(), final(self).cur()),
    {
        let c = self.current;
        proof {
            assert(view_ok(old(self).buffers@[c as int]));
            crate::editor::lemma_appended_refl(old(self).cur());
        }
        let mut i: usize = 0;
        while i < n
            invariant
                self.wf(),
                self.mode is Edit,
                self.current == c,
                c == old(self).current,
                view_ok(old(self).buffers@[c as int]),
                self.buffers@.len() == old(self).buffers@.len(),
                self.kills == old(self).kills,
                self.kill_idx == old(self).kill_idx,
                self.last == old(self).last,
                self.yank == old(self).yank,
                self.echo == old(self).echo,
                self.quit == old(self).quit,
                i <= n,
                only_moves(m) ==> self.cur().moved(old(self).cur()) && self.cur().cursor == walked(
                    old(self).cur().text@,
                    old(self).cur().cursor as int,
                    m,
                    i as nat,
                ),
                deletes(m) ==> (self.cur().text@, self.cur().cursor as int) == erased(
                    old(self).cur().text@,
                    old(self).cur().cursor as int,
                    m,
                    i as nat,
                ),
                i == 0 ==> self.buffers == old(self).buffers,
                (m == Motion::Down || m == Motion::Up) && i >= 1 ==> self.cur().lines_moved(
                    old(self).cur(),
                    m == Motion::Down,
                    i as nat,
                ),
                (m == Motion::Down || m == Motion::Up) ==> self.cur().text == old(self).cur().text,
                !deletes(m) ==> self.cur().undo == old(self).cur().undo && self.cur().undo_pos == old(self).cur().undo_pos
                    && self.cur().hist == old(self).cur().hist,
                deletes(m) ==> crate::editor::appended_in_group(old(self).cur(), self.cur()),
            decreases n - i,
        {
            let ghost before = self.buffers@;
            proof {
                assert(view_ok(self.buffers@[c as int]));
            }
            let ghost bk = self.cur();
            apply(&mut self.buffers[c], m);
            proof {
                lemma_bufs_update(before, c as int, self.buffers@[c as int]);
                assert(self.buffers@ == before.update(c as int, self.buffers@[c as int]));
                if m == Motion::Down || m == Motion::Up {
                    if i == 0 {
                        crate::editor::lemma_lines_moved_one(old(self).cur(), self.cur(), m == Motion::Down);
                    } else {
                        crate::editor::lemma_lines_moved_step(old(self).cur(), bk, self.cur(), m == Motion::Down, i as nat);
                    }
                }
                if deletes(m) {
                    crate::editor::lemma_appended_trans(old(self).cur(), bk, self.cur());
                }
            }
            i = i + 1;
        }
    }
}


/// How a buffer shows in the buffer list: its name, starred when modified.
pub open spec fn list_item(b: Buffer) -> Seq<char> {
    if b.modified {
        b.name@ + "*"@
    } else {
        b.name@
    }
}

/// The buffer list: the items separated by two spaces.
pub open spec fn buffer_list_spec(bs: Seq<Buffer>) -> Seq<char>
    decreases bs.len(),
{
    if bs.len() == 0 {
        Seq::empty()
    } else if bs.len() == 1 {
        list_item(bs[0])
    } else {
        buffer_list_spec(bs.drop_last()) + "  "@ + list_item(bs.last())
    }
}

/// Whether some buffer of `bs` is modified.
pub open spec fn any_modified(bs: Seq<Buffer>) -> bool {
    exists|i: int| 0 <= i < bs.len() && (#[trigger] bs[i]).modified
}

impl Editor {
    /// The kill ring's text after killing `s` (appended to the latest kill when the
    /// previous command killed too).
    pub open spec fn kills_after(self, s: Seq<char>, forward: bool) -> Seq<Seq<char>> {
        let ks = self.kills@.map_values(|k: String| k@);
        if self.last == Last::Kill && ks.len() > 0 {
            ks.update(0, if forward { ks[0] + s } else { s + ks[0] })
        } else {
            let n = seq![s] + ks;
            if n.len() > KILL_MAX { n.take(KILL_MAX as int) } else { n }
        }
    }

    /// Puts `s` on the kill ring.
    fn push_kill(&mut self, s: String, forward: bool)
        requires
            old(self).wf(),
        ensures
            final(self).wf(),
            final(self).kills@.map_values(|k: String| k@) == old(self).kills_after(s@, forward),
            final(self).kill_idx == 0,
            final(self).buffers == old(self).buffers,
            final(self).current == old(self).current,
            final(self).mode == old(self).mode,
            final(self).last == old(self).last,
            final(self).echo == old(self).echo,
            final(self).yank == old(self).yank,
            final(self).quit == old(self).quit,
    {
        if self.last == Last::Kill && self.kills.len() > 0 {
            let k0 = self.kills[0].clone();
            let joined = if forward { forth::join2(k0.as_str(), s.as_str()) } else { forth::join2(s.as_str(), k0.as_str()) };
            self.kills.set(0, joined);
            proof {
                assert(self.kills@.map_values(|k: String| k@) =~= old(self).kills_after(s@, forward));
            }
        } else {
            self.kills.insert(0, s);
            if self.kills.len() > KILL_MAX {
                self.kills.truncate(KILL_MAX);
            }
            proof {
                assert(self.kills@.map_values(|k: String| k@) =~= old(self).kills_after(s@, forward));
            }
        }
        self.kill_idx = 0;
    }

    /// Deletes `[start, end)` of the current buffer and puts what went on the kill ring.
    fn kill(&mut self, start: usize, end: usize, forward: bool)
        requires
            old(self).wf(),
            old(self).mode is Edit,
            start <= end <= old(self).cur().text@.len(),
            is_char_boundary(old(self).cur().text@, start as int),
            is_char_boundary(old(self).cur().text@, end as int),
        ensures
            final(self).wf(),
            final(self).mode is Edit,
            final(self).current == old(self).current,
            final(self).buffers@.len() == old(self).buffers@.len(),
            final(self).last == old(self).last,
            final(self).yank == old(self).yank,
            final(self).quit == old(self).quit,
            final(self).echo == old(self).echo,
            exists|r: Seq<char>| final(self).cur().deleted(old(self).cur(), start as int, end as int, r)
                && (r.len() > 0 ==> final(self).kills@.map_values(|k: String| k@) == old(self).kills_after(r, forward))
                && (r.len() == 0 ==> final(self).kills == old(self).kills),
            crate::editor::appended_in_group(old(self).cur(), final(self).cur()),
    {
        let c = self.current;
        let ghost before = self.buffers@;
        proof {
            assert(view_ok(self.buffers@[c as int]));
            self.buffers@[c as int].lemma_wf();
        }
        let s = self.buffers[c].delete(start, end);
        proof {
            lemma_bufs_update(before, c as int, self.buffers@[c as int]);
            assert(self.buffers@ == before.update(c as int, self.buffers@[c as int]));
            crate::editor::lemma_deleted_appended(old(self).cur(), self.cur(), start as int, end as int, s@);
        }
        if !s.as_str().is_empty() {
            self.push_kill(s, forward);
        }
    }

    /// Inserts `n` copies of `c` at the cursor (nothing when they would not fit).
    fn insert_char(&mut self, c: char, n: usize)
        requires
            old(self).wf(),
            old(self).mode is Edit,
        ensures
            final(self).wf(),
            final(self).mode is Edit,
            final(self).current == old(self).current,
            final(self).buffers@.len() == old(self).buffers@.len(),
            final(self).kills == old(self).kills,
            final(self).kill_idx == old(self).kill_idx,
            final(self).last == old(self).last,
            final(self).yank == old(self).yank,
            final(self).quit == old(self).quit,
            final(self).echo == old(self).echo,
            old(self).cur().text@.len() + 4 * n <= TEXT_MAX ==> final(self).cur().inserted_at_cursor(
                old(self).cur(),
                encode_utf8(Seq::new(n as nat, |i: int| c)),
            ),
    {
        let cidx = self.current;
        proof {
            assert(view_ok(self.buffers@[cidx as int]));
            self.buffers@[cidx as int].lemma_wf();
        }
        let len = self.buffers[cidx].text.len();
        if n > (TEXT_MAX - len) / 4 {
            return;
        }
        let mut cs: Vec<char> = Vec::new();
        let mut i: usize = 0;
        while i < n
            invariant
                i <= n,
                cs@ == Seq::new(i as nat, |j: int| c),
            decreases n - i,
        {
            cs.push(c);
            i = i + 1;
            proof {
                assert(cs@ =~= Seq::new(i as nat, |j: int| c));
            }
        }
        let st = string_of(&cs);
        let ss = st.as_str();
        proof {
            crate::encoding::lemma_encode_len(cs@);
            assert(ss.spec_bytes() == encode_utf8(cs@));
        }
        let ghost before = self.buffers@;
        self.buffers[cidx].insert_at_cursor(ss);
        proof {
            lemma_bufs_update(before, cidx as int, self.buffers@[cidx as int]);
            assert(self.buffers@ == before.update(cidx as int, self.buffers@[cidx as int]));
        }
    }

    /// The span between the mark (clamped to the text) and the cursor, when there is
    /// a mark.
    fn region(&self) -> (r: Option<(usize, usize)>)
        requires
            self.wf(),
        ensures
            match self.cur().mark {
                None => r is None,
                Some(m) => r == Some((
                    if m < self.cur().cursor { m } else { self.cur().cursor },
                    if m < self.cur().cursor { self.cur().cursor } else { m },
                )),
            },
    {
        let b = &self.buffers[self.current];
        proof {
            assert(view_ok(self.buffers@[self.current as int]));
            b.lemma_wf();
        }
        match b.mark {
            None => None,
            Some(m) => {
                let len = b.text.len();
                let m = if m < len { m } else { len };
                Some((if m < b.cursor { m } else { b.cursor }, if m < b.cursor { b.cursor } else { m }))
            },
        }
    }

    /// `C-k`: kills to the end of the line, or the newline itself at a line's end;
    /// with an argument above one, whole lines including their newlines.
    #[verifier::rlimit(100)]
    #[verifier::spinoff_prover]
    fn kill_line(&mut self, n: usize)
        requires
            old(self).wf(),
            old(self).mode is Edit,
        ensures
            final(self).wf(),
            final(self).mode is Edit,
            final(self).current == old(self).current,
            final(self).buffers@.len() == old(self).buffers@.len(),
            final(self).yank == old(self).yank,
            final(self).quit == old(self).quit,
            final(self).echo == old(self).echo,
            final(self).cur().text@ == lines_killed(old(self).cur().text@, old(self).cur().cursor as int, n > 1, n as nat),
            final(self).cur().cursor == old(self).cur().cursor,
            killed_into(
                *old(self),
                *final(self),
                old(self).cur().text@.subrange(
                    old(self).cur().cursor as int,
                    old(self).cur().cursor + old(self).cur().text@.len() - final(self).cur().text@.len(),
                ),
                true,
            ),
            crate::editor::appended_in_group(old(self).cur(), final(self).cur()),
    {
        let ghost t0 = self.cur().text@;
        let ghost c0 = self.cur().cursor as int;
        let ghost mut d: int = 0;
        let ghost mut big: Seq<char> = Seq::empty();
        proof {
            assert(view_ok(self.buffers@[self.current as int]));
            self.buffers@[self.current as int].lemma_wf();
            assert(t0 =~= t0.take(c0) + t0.skip(c0));
            assert(encode_utf8(big) =~= t0.subrange(c0, c0));
            crate::editor::lemma_appended_refl(old(self).cur());
        }
        let mut i: usize = 0;
        while i < n
            invariant_except_break
                self.cur().text@ == lines_killed(t0, c0, n > 1, i as nat),
            invariant
                crate::editor::appended_in_group(old(self).cur(), self.cur()),
                view_ok(old(self).cur()),
                0 <= c0 <= c0 + d <= t0.len(),
                self.cur().text@ == t0.take(c0) + t0.skip(c0 + d),
                encode_utf8(big) == t0.subrange(c0, c0 + d),
                big.len() == 0 ==> self.kills == old(self).kills,
                big.len() > 0 ==> self.kills@.map_values(|k: String| k@) == old(self).kills_after(big, true)
                    && self.last == Last::Kill,
                big.len() == 0 ==> self.last == old(self).last,
                self.wf(),
                self.mode is Edit,
                self.current == old(self).current,
                self.buffers@.len() == old(self).buffers@.len(),
                self.yank == old(self).yank,
                self.quit == old(self).quit,
                self.echo == old(self).echo,
                t0 == old(self).cur().text@,
                c0 == old(self).cur().cursor,
                self.cur().cursor == c0,
                i <= n,
            ensures
                self.cur().text@ == lines_killed(t0, c0, n > 1, n as nat),
                crate::editor::appended_in_group(old(self).cur(), self.cur()),
                0 <= c0 <= c0 + d <= t0.len(),
                self.cur().text@ == t0.take(c0) + t0.skip(c0 + d),
                encode_utf8(big) == t0.subrange(c0, c0 + d),
                big.len() == 0 ==> self.kills == old(self).kills,
                big.len() > 0 ==> self.kills@.map_values(|k: String| k@) == old(self).kills_after(big, true),
            decreases n - i,
        {
            let c = self.current;
            proof {
                assert(view_ok(self.buffers@[c as int]));
                self.buffers@[c as int].lemma_wf();
            }
            let cur = self.buffers[c].cursor;
            let le = self.buffers[c].text.next_newline(cur);
            let len = self.buffers[c].text.len();
            proof {
                crate::editor::lemma_newline_bound(self.buffers@[c as int].text@, cur as int, le as int);
                crate::text::lemma_newline_is(self.buffers@[c as int].text@, cur as int, le as int);
            }
            let end = if n > 1 || cur == le {
                if le + 1 < len { le + 1 } else { len }
            } else {
                le
            };
            if end <= cur {
                proof {
                    lemma_lines_killed_stop(t0, c0, n > 1, i as nat, n as nat);
                }
                break;
            }
            proof {
                let t = self.buffers@[c as int].text@;
                is_char_boundary_start_end_of_seq(t);
                if end == le + 1 {
                    crate::encoding::lemma_after_ascii(t, le as int);
                }
            }
            let ghost pre = *self;
            self.kill(cur, end, true);
            proof {
                assert(view_ok(self.buffers@[c as int]));
                crate::editor::lemma_appended_trans(old(self).cur(), pre.cur(), self.cur());
                let r = choose|r: Seq<char>| self.cur().deleted(pre.cur(), cur as int, end as int, r)
                    && (r.len() > 0 ==> self.kills@.map_values(|k: String| k@) == pre.kills_after(r, true))
                    && (r.len() == 0 ==> self.kills == pre.kills);
                let tt = pre.cur().text@;
                let d2 = d + (end - cur);
                assert(tt.subrange(cur as int, end as int) =~= t0.subrange(c0 + d, c0 + d2));
                assert(self.cur().text@ =~= t0.take(c0) + t0.skip(c0 + d2));
                crate::encoding::lemma_encode_concat(big, r);
                assert(t0.subrange(c0, c0 + d2) =~= t0.subrange(c0, c0 + d) + t0.subrange(c0 + d, c0 + d2));
                assert(r.len() > 0) by {
                    if r.len() == 0 {
                        assert(encode_utf8(r) =~= Seq::<u8>::empty());
                    }
                }
                if big.len() > 0 {
                    lemma_kills_chain(*old(self), pre, big, r, true, self.kills@.map_values(|k: String| k@));
                }
                if big.len() == 0 {
                    assert(big + r =~= r);
                }
                big = big + r;
                d = d2;
            }
            self.last = Last::Kill;
            i = i + 1;
        }
        proof {
            let t1 = self.cur().text@;
            assert(c0 + t0.len() - t1.len() == c0 + d);
            if big.len() > 0 {
                assert(encode_utf8(big) == t0.subrange(c0, c0 + d));
                assert(self.kills@.map_values(|k: String| k@) == old(self).kills_after(big, true));
            } else {
                assert(encode_utf8(big) =~= Seq::<u8>::empty());
            }
        }
    }

    /// `M-d` / `M-DEL`: kills `n` words forward or back.
    #[verifier::rlimit(100)]
    #[verifier::spinoff_prover]
    fn kill_words(&mut self, n: usize, forward: bool)
        requires
            old(self).wf(),
            old(self).mode is Edit,
        ensures
            final(self).wf(),
            final(self).mode is Edit,
            final(self).current == old(self).current,
            final(self).buffers@.len() == old(self).buffers@.len(),
            final(self).yank == old(self).yank,
            final(self).quit == old(self).quit,
            final(self).echo == old(self).echo,
            (final(self).cur().text@, final(self).cur().cursor as int) == words_killed(
                old(self).cur().text@,
                old(self).cur().cursor as int,
                forward,
                n as nat,
            ),
            forward ==> killed_into(
                *old(self),
                *final(self),
                old(self).cur().text@.subrange(
                    old(self).cur().cursor as int,
                    old(self).cur().cursor + old(self).cur().text@.len() - final(self).cur().text@.len(),
                ),
                true,
            ),
            !forward ==> killed_into(
                *old(self),
                *final(self),
                old(self).cur().text@.subrange(final(self).cur().cursor as int, old(self).cur().cursor as int),
                false,
            ),
            crate::editor::appended_in_group(old(self).cur(), final(self).cur()),
    {
        let ghost t0 = self.cur().text@;
        let ghost c0 = self.cur().cursor as int;
        let ghost mut lo: int = c0;
        let ghost mut hi: int = c0;
        let ghost mut big: Seq<char> = Seq::empty();
        proof {
            assert(view_ok(self.buffers@[self.current as int]));
            self.buffers@[self.current as int].lemma_wf();
            assert(t0 =~= t0.take(c0) + t0.skip(c0));
            assert(encode_utf8(big) =~= t0.subrange(c0, c0));
            crate::editor::lemma_appended_refl(old(self).cur());
        }
        let mut i: usize = 0;
        while i < n
            invariant_except_break
                (self.cur().text@, self.cur().cursor as int) == words_killed(t0, c0, forward, i as nat),
            invariant
                crate::editor::appended_in_group(old(self).cur(), self.cur()),
                view_ok(old(self).cur()),
                0 <= lo <= c0 <= hi <= t0.len(),
                forward ==> lo == c0,
                !forward ==> hi == c0,
                self.cur().cursor == lo,
                self.cur().text@ == t0.take(lo) + t0.skip(hi),
                encode_utf8(big) == t0.subrange(lo, hi),
                big.len() == 0 ==> self.kills == old(self).kills,
                big.len() > 0 ==> self.kills@.map_values(|k: String| k@) == old(self).kills_after(big, forward)
                    && self.last == Last::Kill,
                big.len() == 0 ==> self.last == old(self).last,
                self.wf(),
                self.mode is Edit,
                self.current == old(self).current,
                self.buffers@.len() == old(self).buffers@.len(),
                self.yank == old(self).yank,
                self.quit == old(self).quit,
                self.echo == old(self).echo,
                t0 == old(self).cur().text@,
                c0 == old(self).cur().cursor,
                i <= n,
            ensures
                (self.cur().text@, self.cur().cursor as int) == words_killed(t0, c0, forward, n as nat),
                crate::editor::appended_in_group(old(self).cur(), self.cur()),
                0 <= lo <= c0 <= hi <= t0.len(),
                forward ==> lo == c0,
                !forward ==> hi == c0,
                self.cur().cursor == lo,
                self.cur().text@ == t0.take(lo) + t0.skip(hi),
                encode_utf8(big) == t0.subrange(lo, hi),
                big.len() == 0 ==> self.kills == old(self).kills,
                big.len() > 0 ==> self.kills@.map_values(|k: String| k@) == old(self).kills_after(big, forward),
            decreases n - i,
        {
            let c = self.current;
            proof {
                assert(view_ok(self.buffers@[c as int]));
                self.buffers@[c as int].lemma_wf();
            }
            let cur = self.buffers[c].cursor;
            let (start, end) = if forward {
                (cur, self.buffers[c].word_end())
            } else {
                (self.buffers[c].word_start(), cur)
            };
            if start == end {
                proof {
                    let t1 = self.cur().text@;
                    assert(crate::text::cut(t1, cur as int, cur as int) =~= t1);
                    lemma_words_killed_stop(t0, c0, forward, i as nat, n as nat);
                }
                break;
            }
            proof {
                crate::editor::lemma_word_end_after(self.buffers@[c as int], forward);
            }
            let ghost pre = *self;
            self.kill(start, end, forward);
            proof {
                assert(view_ok(self.buffers@[c as int]));
                crate::editor::lemma_appended_trans(old(self).cur(), pre.cur(), self.cur());
                let r = choose|r: Seq<char>| self.cur().deleted(pre.cur(), start as int, end as int, r)
                    && (r.len() > 0 ==> self.kills@.map_values(|k: String| k@) == pre.kills_after(r, forward))
                    && (r.len() == 0 ==> self.kills == pre.kills);
                let tt = pre.cur().text@;
                let (lo2, hi2) = if forward { (lo, hi + (end - start)) } else { (lo - (end - start), hi) };
                if forward {
                    assert(tt.subrange(start as int, end as int) =~= t0.subrange(hi, hi2));
                    assert(t0.subrange(lo2, hi2) =~= t0.subrange(lo, hi) + t0.subrange(hi, hi2));
                    crate::encoding::lemma_encode_concat(big, r);
                } else {
                    assert(tt.subrange(start as int, end as int) =~= t0.subrange(lo2, lo));
                    assert(t0.subrange(lo2, hi2) =~= t0.subrange(lo2, lo) + t0.subrange(lo, hi));
                    crate::encoding::lemma_encode_concat(r, big);
                }
                assert(self.cur().text@ =~= t0.take(lo2) + t0.skip(hi2));
                assert(r.len() > 0) by {
                    if r.len() == 0 {
                        assert(encode_utf8(r) =~= Seq::<u8>::empty());
                    }
                }
                if big.len() > 0 {
                    lemma_kills_chain(*old(self), pre, big, r, forward, self.kills@.map_values(|k: String| k@));
                }
                if big.len() == 0 {
                    assert(big + r =~= r);
                    assert(r + big =~= r);
                }
                big = if forward { big + r } else { r + big };
                lo = lo2;
                hi = hi2;
            }
            self.last = Last::Kill;
            i = i + 1;
        }
        proof {
            if big.len() == 0 {
                assert(encode_utf8(big) =~= Seq::<u8>::empty());
            }
        }
    }
}


impl Editor {
    /// `C-y`: inserts the latest kill at the cursor, with the mark before it.
    fn yank_cmd(&mut self)
        requires
            old(self).wf(),
            old(self).mode is Edit,
        ensures
            final(self).wf(),
            final(self).mode is Edit,
            final(self).current == old(self).current,
            final(self).buffers@.len() == old(self).buffers@.len(),
            final(self).kills == old(self).kills,
            final(self).quit == old(self).quit,
            old(self).kills@.len() == 0 ==> final(self).echo@ == "Kill ring is empty"@ && final(self).buffers == old(self).buffers,
            old(self).kills@.len() > 0 && old(self).cur().text@.len() + encode_utf8(old(self).kills@[0]@).len() <= TEXT_MAX ==> ({
                let at = old(self).cur().cursor;
                let s = encode_utf8(old(self).kills@[0]@);
                &&& final(self).cur().text@ == crate::text::spliced(old(self).cur().text@, at as int, s)
                &&& final(self).cur().cursor == at + s.len()
                &&& final(self).cur().mark == Some(at)
                &&& final(self).yank == Some((at, (at + s.len()) as usize))
                &&& final(self).kill_idx == 0
            }),
            crate::editor::appended_in_group(old(self).cur(), final(self).cur()),
    {
        let c = self.current;
        proof {
            assert(view_ok(self.buffers@[c as int]));
            self.buffers@[c as int].lemma_wf();
            crate::editor::lemma_appended_refl(self.cur());
        }
        if self.kills.len() == 0 {
            self.echo = "Kill ring is empty".to_string();
            return;
        }
        self.kill_idx = 0;
        let s = self.kills[0].clone();
        let ss = s.as_str();
        let sl = str_bytes(ss).len();
        let len = self.buffers[c].text.len();
        if sl > TEXT_MAX - len {
            return;
        }
        let at = self.buffers[c].cursor;
        let ghost before = self.buffers@;
        self.buffers[c].put_mark(Some(at), false);
        let ghost marked = self.buffers@[c as int];
        self.buffers[c].insert_at_cursor(ss);
        proof {
            lemma_bufs_update(before, c as int, self.buffers@[c as int]);
            assert(self.buffers@ == before.update(c as int, self.buffers@[c as int]));
            crate::editor::lemma_same_history_appended(old(self).cur(), marked);
            crate::editor::lemma_inserted_at_cursor_appended(marked, self.buffers@[c as int], ss.spec_bytes());
            crate::editor::lemma_appended_trans(old(self).cur(), marked, self.buffers@[c as int]);
        }
        self.yank = Some((at, at + sl));
    }

    /// `M-y`: replaces the text the previous yank inserted with the next older kill.
    #[verifier::spinoff_prover]
    #[verifier::rlimit(40)]
    fn yank_pop(&mut self)
        requires
            old(self).wf(),
            old(self).mode is Edit,
        ensures
            final(self).wf(),
            final(self).mode is Edit,
            final(self).current == old(self).current,
            final(self).buffers@.len() == old(self).buffers@.len(),
            final(self).kills == old(self).kills,
            final(self).quit == old(self).quit,
            !(old(self).yank is Some && old(self).last == Last::Yank && old(self).kills@.len() > 0) ==> final(self).echo@
                == "Previous command was not a yank"@ && final(self).buffers == old(self).buffers,
            yank_popped(*old(self), *final(self)),
            crate::editor::appended_in_group(old(self).cur(), final(self).cur()),
    {
        proof {
            assert(view_ok(self.buffers@[self.current as int]));
            crate::editor::lemma_appended_refl(self.cur());
        }
        let (a, e) = match self.yank {
            Some((a, e)) => {
                if self.last == Last::Yank && self.kills.len() > 0 {
                    (a, e)
                } else {
                    self.echo = "Previous command was not a yank".to_string();
                    return;
                }
            },
            None => {
                self.echo = "Previous command was not a yank".to_string();
                return;
            },
        };
        let c = self.current;
        proof {
            assert(view_ok(self.buffers@[c as int]));
            self.buffers@[c as int].lemma_wf();
        }
        let len = self.buffers[c].text.len();
        let ok = a <= e && e <= len && self.buffers[c].text.snap(a) == a && self.buffers[c].text.snap(e) == e;
        proof {
            let t = self.buffers@[c as int].text@;
            if a <= e && e <= len && is_char_boundary(t, a as int) && is_char_boundary(t, e as int) {
                assert(ok);
            }
        }
        if !ok {
            return;
        }
        self.kill_idx = (self.kill_idx + 1) % self.kills.len();
        let s = self.kills[self.kill_idx].clone();
        let ss = s.as_str();
        let sl = str_bytes(ss).len();
        if sl > TEXT_MAX - (len - (e - a)) {
            return;
        }
        let ghost before = self.buffers@;
        let ghost t0 = self.buffers@[c as int].text@;
        let removed = self.buffers[c].delete(a, e);
        proof {
            crate::encoding::lemma_cut_boundary(t0, a as int, e as int, a as int);
            self.buffers@[c as int].lemma_wf();
            crate::editor::lemma_deleted_appended(before[c as int], self.buffers@[c as int], a as int, e as int, removed@);
        }
        let ghost cut_buf = self.buffers@[c as int];
        let ghost t1 = self.buffers@[c as int].text@;
        proof {
            assert(t1 == crate::text::cut(t0, a as int, e as int));
        }
        self.buffers[c].goto(a);
        let ghost moved_buf = self.buffers@[c as int];
        self.buffers[c].insert_at_cursor(ss);
        proof {
            lemma_bufs_update(before, c as int, self.buffers@[c as int]);
            assert(self.buffers@ == before.update(c as int, self.buffers@[c as int]));
            assert(self.buffers@[c as int].text@ == crate::text::spliced(t1, a as int, ss.spec_bytes()));
            crate::editor::lemma_same_history_appended(cut_buf, moved_buf);
            crate::editor::lemma_inserted_at_cursor_appended(moved_buf, self.buffers@[c as int], ss.spec_bytes());
            crate::editor::lemma_appended_trans(cut_buf, moved_buf, self.buffers@[c as int]);
            crate::editor::lemma_appended_trans(before[c as int], cut_buf, self.buffers@[c as int]);
        }
        self.yank = Some((a, a + sl));
    }

    /// Starts an incremental search from the cursor.
    fn start_search(&mut self, forward: bool)
        requires
            old(self).wf(),
        ensures
            final(self).wf(),
            final(self).mode == (Mode::Search(Search {
                forward,
                needle: final(self).mode->Search_0.needle,
                found: true,
                origin: old(self).cur().cursor,
                at: old(self).cur().cursor,
            })),
            final(self).mode->Search_0.needle@.len() == 0,
            final(self).buffers == old(self).buffers,
            final(self).current == old(self).current,
            final(self).echo == old(self).echo,
            final(self).quit == old(self).quit,
    {
        proof {
            assert(view_ok(self.buffers@[self.current as int]));
            self.buffers@[self.current as int].lemma_wf();
        }
        let cursor = self.buffers[self.current].cursor;
        self.mode = Mode::Search(Search { forward, needle: String::new(), found: true, origin: cursor, at: cursor });
    }

    /// Opens a prompt labelled `label` for `action`.
    fn start_prompt(&mut self, action: PromptAction, label: String)
        requires
            old(self).wf(),
        ensures
            final(self).wf(),
            (final(self).mode matches Mode::Prompt(p) && p.label == label && p.input@.len() == 0 && p.cur == 0
                && p.matches@.len() == 0 && !p.yes_no && p.action == action),
            final(self).buffers == old(self).buffers,
            final(self).current == old(self).current,
            final(self).echo == old(self).echo,
            final(self).quit == old(self).quit,
            final(self).kills == old(self).kills,
            final(self).mg == old(self).mg,
            final(self).cx == old(self).cx,
            final(self).arg == old(self).arg,
    {
        self.mode = Mode::Prompt(Prompt { label, input: String::new(), cur: 0, matches: String::new(), yes_no: false, action });
        proof {
            assert(encode_utf8(Seq::<char>::empty()) =~= Seq::<u8>::empty());
            is_char_boundary_start_end_of_seq(Seq::<u8>::empty());
        }
    }

    /// Opens a yes-or-no question labelled `label` for `action`.
    fn start_yes_no(&mut self, action: PromptAction, label: String)
        requires
            old(self).wf(),
        ensures
            final(self).wf(),
            (final(self).mode matches Mode::Prompt(p) && p.label == label && p.input@.len() == 0 && p.cur == 0
                && p.matches@.len() == 0 && p.yes_no && p.action == action),
            final(self).buffers == old(self).buffers,
            final(self).current == old(self).current,
            final(self).echo == old(self).echo,
            final(self).quit == old(self).quit,
            final(self).kills == old(self).kills,
            final(self).mg == old(self).mg,
            final(self).cx == old(self).cx,
            final(self).arg == old(self).arg,
    {
        self.mode = Mode::Prompt(Prompt { label, input: String::new(), cur: 0, matches: String::new(), yes_no: true, action });
        proof {
            assert(encode_utf8(Seq::<char>::empty()) =~= Seq::<u8>::empty());
            is_char_boundary_start_end_of_seq(Seq::<u8>::empty());
        }
    }

    /// Removes the current buffer (leaving a scratch buffer when it was the last) and
    /// makes the previously visited one current.
    fn kill_current_buffer(&mut self)
        requires
            old(self).wf(),
            old(self).mode is Edit,
        ensures
            final(self).wf(),
            final(self).mode is Edit,
            old(self).buffers@.len() > 1 ==> final(self).buffers@ == old(self).buffers@.remove(old(self).current as int),
            old(self).buffers@.len() == 1 ==> final(self).buffers@.len() == 1 && final(self).buffers@[0].name@ == "*scratch*"@,
            final(self).current == final(self).last_buffer,
            final(self).quit == old(self).quit,
            final(self).echo == old(self).echo,
    {
        let idx = self.current;
        let ghost bs = self.buffers@;
        self.buffers.remove(idx);
        proof {
            assert forall|i: int| 0 <= i < self.buffers@.len() implies view_ok(#[trigger] self.buffers@[i]) by {
                if i < idx {
                    assert(self.buffers@[i] == bs[i]);
                } else {
                    assert(self.buffers@[i] == bs[i + 1]);
                }
            }
        }
        if self.last_buffer > idx {
            self.last_buffer = self.last_buffer - 1;
        }
        self.ensure_buffer();
        if self.last_buffer >= self.buffers.len() {
            self.last_buffer = 0;
        }
        self.current = self.last_buffer;
    }

    /// `C-x C-s`: asks for the current buffer to be written to its file (or for a
    /// file name when it has none).
    fn save(&mut self)
        requires
            old(self).wf(),
            old(self).mode is Edit,
        ensures
            final(self).wf(),
            final(self).buffers == old(self).buffers,
            final(self).current == old(self).current,
            final(self).quit == old(self).quit,
            old(self).cur().path is None ==> (final(self).mode matches Mode::Prompt(p) && p.action is WriteAs),
            old(self).cur().path is Some && !old(self).cur().modified ==> final(self).echo@ == "(No changes need to be saved)"@
                && final(self).mode is Edit && final(self).request == old(self).request,
            old(self).cur().path is Some && old(self).cur().modified ==> final(self).mode is Edit && (final(self).request matches Some(
                Request::Save { path, content, mode },
            ) && path == old(self).cur().path->0 && encode_utf8(content@) == old(self).cur().text@ && mode == old(self).cur().mode_bits),
    {
        let c = self.current;
        proof {
            assert(view_ok(self.buffers@[c as int]));
            self.buffers@[c as int].lemma_wf();
        }
        match &self.buffers[c].path {
            None => self.start_prompt(PromptAction::WriteAs, "Write file: ".to_string()),
            Some(p) => {
                if !self.buffers[c].modified {
                    self.echo = "(No changes need to be saved)".to_string();
                    return;
                }
                let path = p.clone();
                let content = self.buffers[c].text.all();
                let mode = self.buffers[c].mode_bits;
                self.request = Some(Request::Save { path, content, mode });
            },
        }
    }

    /// The buffer list as `C-x C-b` shows it.
    fn buffer_list(&self) -> (r: String)
        ensures
            r@ == buffer_list_spec(self.buffers@),
    {
        let mut out: Vec<char> = Vec::new();
        let mut i: usize = 0;
        while i < self.buffers.len()
            invariant
                i <= self.buffers@.len(),
                out@ == buffer_list_spec(self.buffers@.take(i as int)),
            decreases self.buffers@.len() - i,
        {
            let ghost prev = out@;
            if i > 0 {
                let sep = str_chars("  ");
                out.append(&mut sep.clone());
            }
            let name = str_chars(self.buffers[i].name.as_str());
            out.append(&mut name.clone());
            if self.buffers[i].modified {
                let star = str_chars("*");
                out.append(&mut star.clone());
            }
            proof {
                let t = self.buffers@.take(i + 1);
                assert(t.drop_last() =~= self.buffers@.take(i as int));
                assert(t.last() == self.buffers@[i as int]);
                if i == 0 {
                    assert(prev =~= Seq::<char>::empty());
                    assert(out@ =~= list_item(self.buffers@[0]));
                } else {
                    assert(out@ =~= prev + "  "@ + list_item(self.buffers@[i as int]));
                }
            }
            i = i + 1;
        }
        proof {
            assert(self.buffers@.take(self.buffers@.len() as int) =~= self.buffers@);
        }
        string_of(&out)
    }

    /// Whether some buffer has unsaved changes.
    fn any_modified(&self) -> (r: bool)
        ensures
            r == any_modified(self.buffers@),
    {
        let mut i: usize = 0;
        while i < self.buffers.len()
            invariant
                i <= self.buffers@.len(),
                forall|j: int| 0 <= j < i ==> !(#[trigger] self.buffers@[j]).modified,
            decreases self.buffers@.len() - i,
        {
            if self.buffers[i].modified {
                return true;
            }
            i = i + 1;
        }
        false
    }
}


impl Editor {
    /// Applies `f` to the current buffer through one of its own methods; used by the
    /// commands below through small wrappers.
    proof fn lemma_cur_updated(self, before: Seq<Buffer>, c: int)
        requires
            bufs_ok(before),
            0 <= c < before.len(),
            self.buffers@ == before.update(c, self.buffers@[c]),
            view_ok(self.buffers@[c]),
        ensures
            bufs_ok(self.buffers@),
    {
        lemma_bufs_update(before, c, self.buffers@[c]);
    }

    /// `C-v` / `M-v`: moves `n` screens (the text area less two lines) down or up.
    fn page(&mut self, n: usize, down: bool)
        requires
            old(self).wf(),
            old(self).mode is Edit,
        ensures
            final(self).wf(),
            final(self).mode is Edit,
            final(self).current == old(self).current,
            final(self).buffers@.len() == old(self).buffers@.len(),
            final(self).kills == old(self).kills,
            final(self).quit == old(self).quit,
            final(self).echo == old(self).echo,
            final(self).cur().text == old(self).cur().text,
            n >= 1 ==> final(self).cur().lines_moved(old(self).cur(), down, page_lines(old(self).rows, n)),
            final(self).cur().undo == old(self).cur().undo && final(self).cur().undo_pos == old(self).cur().undo_pos
                && final(self).cur().hist == old(self).cur().hist,
    {
        let r4 = if self.rows >= 4 { self.rows - 4 } else { 0 };
        let step = if r4 > 1 { r4 } else { 1 };
        let count = sat_mul(step, n);
        proof {
            if n >= 1 {
                assert(step * n >= 1) by (nonlinear_arith)
                    requires
                        step >= 1,
                        n >= 1,
                ;
            }
        }
        self.repeat(count, if down { Motion::Down } else { Motion::Up });
    }

    /// `C-/`: undoes `n` groups, or as many as there are.
    fn undo_cmd(&mut self, n: usize)
        requires
            old(self).wf(),
            old(self).mode is Edit,
        ensures
            final(self).wf(),
            final(self).mode is Edit,
            final(self).current == old(self).current,
            final(self).buffers@.len() == old(self).buffers@.len(),
            final(self).kills == old(self).kills,
            final(self).quit == old(self).quit,
            undone_times(old(self).cur(), final(self).cur(), n as nat),
    {
        let c = self.current;
        let ghost b0 = self.cur();
        proof {
            assert(view_ok(self.buffers@[c as int]));
            crate::editor::lemma_undo_position(b0);
            assert(b0.undo@.take(b0.undo@.len() as int) =~= b0.undo@);
            assert(b0.hist@.take(b0.hist@.len() as int) =~= b0.hist@);
        }
        let mut k: usize = 0;
        let mut more = true;
        while k < n && more
            invariant
                self.wf(),
                self.mode is Edit,
                self.current == c,
                c == old(self).current,
                b0 == old(self).cur(),
                b0.wf(),
                b0.undo_pos <= b0.undo@.len(),
                self.buffers@.len() == old(self).buffers@.len(),
                self.kills == old(self).kills,
                self.quit == old(self).quit,
                k <= n,
                b0.undo@.len() <= self.cur().undo@.len(),
                b0.hist@.len() <= self.cur().hist@.len(),
                self.cur().undo@.take(b0.undo@.len() as int) == b0.undo@,
                self.cur().hist@.take(b0.hist@.len() as int) == b0.hist@,
                self.cur().undo_pos == crate::editor::undo_steps(b0.undo@, b0.undo_pos as int, k as nat),
                undone_times(b0, self.cur(), k as nat),
                !more ==> self.cur().undo_pos == 0,
            decreases n - k,
        {
            let ghost before = self.buffers@;
            let ghost bk = self.cur();
            proof {
                assert(view_ok(self.buffers@[c as int]));
            }
            let done = self.buffers[c].undo();
            proof {
                self.lemma_cur_updated(before, c as int);
                if done {
                    crate::editor::lemma_undo_step(b0, bk, self.cur(), k as nat);
                }
            }
            if !done {
                self.echo = "No further undo information".to_string();
                more = false;
            }
            k = k + 1;
            proof {
                if !done {
                    crate::editor::lemma_undo_steps_stay(b0.undo@, b0.undo_pos as int, (k - 1) as nat, k as nat);
                }
            }
        }
        proof {
            if !more {
                crate::editor::lemma_undo_steps_stay(b0.undo@, b0.undo_pos as int, k as nat, n as nat);
            }
        }
        if self.echo.as_str().is_empty() {
            self.echo = "Undo".to_string();
        }
    }

    /// Carries out `cmd` `n` times (for the commands that repeat).
    #[verifier::rlimit(100)]
    #[verifier::spinoff_prover]
    fn dispatch(&mut self, cmd: Cmd, n: usize)
        requires
            old(self).wf(),
            old(self).mode is Edit,
        ensures
            final(self).wf(),
            cmd_effect(*old(self), *final(self), cmd, n),
            cmd == Cmd::EvalPoint ==> evaluated_at_point(*old(self), *final(self)),
            cmd matches Cmd::Insert(ch) ==> old(self).cur().text@.len() + 4 * n <= TEXT_MAX ==> final(self).cur().inserted_at_cursor(
                old(self).cur(),
                encode_utf8(Seq::new(n as nat, |i: int| ch)),
            ),
            cmd == Cmd::Newline ==> old(self).cur().text@.len() + 4 * n <= TEXT_MAX ==> final(self).cur().inserted_at_cursor(
                old(self).cur(),
                encode_utf8(Seq::new(n as nat, |i: int| '\n')),
            ),
            (cmd == Cmd::DeleteForward || cmd == Cmd::DeleteBackward || cmd == Cmd::KillLine || cmd == Cmd::KillWordForward
                || cmd == Cmd::KillWordBackward || cmd == Cmd::KillRegion || cmd == Cmd::Yank || cmd == Cmd::YankPop)
                ==> final(self).current == old(self).current
                && crate::editor::appended_in_group(old(self).cur(), final(self).cur()),
            keeps_history(cmd) ==> final(self).current == old(self).current && final(self).cur().undo@ == old(self).cur().undo@
                && final(self).cur().hist@ == old(self).cur().hist@ && final(self).cur().undo_pos == old(self).cur().undo_pos,
    {
        let c = self.current;
        proof {
            assert(view_ok(self.buffers@[c as int]));
            self.buffers@[c as int].lemma_wf();
        }
        let ghost before = self.buffers@;
        match cmd {
            Cmd::Insert(ch) => {
                self.insert_char(ch, n);
                proof {
                    lemma_typed(*old(self), *self, ch, n);
                }
            },
            Cmd::Newline => {
                self.insert_char('\n', n);
                proof {
                    lemma_typed(*old(self), *self, '\n', n);
                }
            },
            Cmd::Forward => self.repeat(n, Motion::Forward),
            Cmd::Backward => self.repeat(n, Motion::Backward),
            Cmd::Next => self.repeat(n, Motion::Down),
            Cmd::Prev => self.repeat(n, Motion::Up),
            Cmd::WordForward => self.repeat(n, Motion::WordEnd),
            Cmd::WordBackward => self.repeat(n, Motion::WordStart),
            Cmd::LineStart => {
                let line = self.buffers[c].line();
                let ls = self.buffers[c].text.line_start(line);
                proof {
                    crate::editor::lemma_line_start_boundary(self.buffers@[c as int].text@, line as int, ls as int);
                }
                self.buffers[c].goto(ls);
                proof {
                    assert(self.buffers@ =~= before.update(c as int, self.buffers@[c as int]));
                    self.lemma_cur_updated(before, c as int);
                }
            },
            Cmd::LineEnd => {
                let cur = self.buffers[c].cursor;
                let le = self.buffers[c].text.next_newline(cur);
                proof {
                    crate::editor::lemma_newline_bound(self.buffers@[c as int].text@, cur as int, le as int);
                }
                self.buffers[c].goto(le);
                proof {
                    assert(self.buffers@ =~= before.update(c as int, self.buffers@[c as int]));
                    self.lemma_cur_updated(before, c as int);
                }
            },
            Cmd::BufStart => {
                proof {
                    is_char_boundary_start_end_of_seq(self.buffers@[c as int].text@);
                }
                self.buffers[c].goto(0);
                proof {
                    assert(self.buffers@ =~= before.update(c as int, self.buffers@[c as int]));
                    self.lemma_cur_updated(before, c as int);
                }
            },
            Cmd::BufEnd => {
                let len = self.buffers[c].text.len();
                proof {
                    is_char_boundary_start_end_of_seq(self.buffers@[c as int].text@);
                }
                self.buffers[c].goto(len);
                proof {
                    assert(self.buffers@ =~= before.update(c as int, self.buffers@[c as int]));
                    self.lemma_cur_updated(before, c as int);
                }
            },
            Cmd::PageDown => self.page(n, true),
            Cmd::PageUp => self.page(n, false),
            Cmd::Recenter => {
                let r2 = if self.rows >= 2 { self.rows - 2 } else { 0 };
                let half = r2 / 2;
                let line = self.buffers[c].line();
                let top = if line >= half { line - half } else { 0 };
                proof {
                    crate::encoding::lemma_count_nl_bound(self.buffers@[c as int].text@.take(self.buffers@[c as int].cursor as int));
                }
                self.buffers[c].set_top(top);
                proof {
                    assert(self.buffers@ =~= before.update(c as int, self.buffers@[c as int]));
                    self.lemma_cur_updated(before, c as int);
                }
            },
            Cmd::DeleteForward => self.repeat(n, Motion::DeleteForward),
            Cmd::DeleteBackward => self.repeat(n, Motion::DeleteBackward),
            Cmd::KillLine => self.kill_line(n),
            Cmd::KillWordForward => self.kill_words(n, true),
            Cmd::KillWordBackward => self.kill_words(n, false),
            Cmd::SetMark => {
                let cur = self.buffers[c].cursor;
                self.buffers[c].put_mark(Some(cur), true);
                proof {
                    assert(self.buffers@ =~= before.update(c as int, self.buffers@[c as int]));
                    self.lemma_cur_updated(before, c as int);
                }
                self.echo = "Mark set".to_string();
            },
            Cmd::ExchangeMark => {
                match self.buffers[c].mark {
                    Some(m) => {
                        let cur = self.buffers[c].cursor;
                        let len = self.buffers[c].text.len();
                        let to = if m < len { m } else { len };
                        self.buffers[c].put_mark(Some(cur), true);
                        self.buffers[c].goto(to);
                        proof {
                            assert(self.buffers@ =~= before.update(c as int, self.buffers@[c as int]));
                            self.lemma_cur_updated(before, c as int);
                        }
                    },
                    None => {
                        self.echo = "No mark set in this buffer".to_string();
                    },
                }
            },
            Cmd::KillRegion => match self.region() {
                Some((a, b)) => {
                    proof {
                        assert(crate::text::cut(self.cur().text@, a as int, a as int) =~= self.cur().text@);
                    }
                    self.kill(a, b, true);
                    proof {
                        if a < b {
                            let r = choose|r: Seq<char>|
                                self.cur().deleted(old(self).cur(), a as int, b as int, r) && (r.len() > 0 ==> self.kills@.map_values(
                                    |k: String| k@,
                                ) == old(self).kills_after(r, true)) && (r.len() == 0 ==> self.kills == old(self).kills);
                            crate::encoding::lemma_encode_len(r);
                            assert(encode_utf8(r) == old(self).cur().text@.subrange(a as int, b as int));
                        }
                    }
                },
                None => {
                    self.echo = "The mark is not set now".to_string();
                    proof {
                        crate::editor::lemma_appended_refl(self.cur());
                    }
                },
            },
            Cmd::CopyRegion => match self.region() {
                Some((a, b)) => {
                    let s = self.buffers[c].text.slice(a, b);
                    proof {
                        assert(encode_utf8(s@) == self.cur().text@.subrange(a as int, b as int));
                    }
                    self.push_kill(s, true);
                    let m = self.buffers[c].mark;
                    self.buffers[c].put_mark(m, false);
                    proof {
                        assert(self.buffers@ =~= before.update(c as int, self.buffers@[c as int]));
                        self.lemma_cur_updated(before, c as int);
                    }
                },
                None => {
                    self.echo = "The mark is not set now".to_string();
                },
            },
            Cmd::Yank => self.yank_cmd(),
            Cmd::YankPop => self.yank_pop(),
            Cmd::SearchForward => self.start_search(true),
            Cmd::SearchBackward => self.start_search(false),
            Cmd::QueryReplace => self.start_prompt(PromptAction::ReplaceFrom, "Query replace: ".to_string()),
            Cmd::Undo => self.undo_cmd(n),
            Cmd::Save => self.save(),
            Cmd::WriteAs => self.start_prompt(PromptAction::WriteAs, "Write file: ".to_string()),
            Cmd::FindFile => self.start_prompt(PromptAction::FindFile, "Find file: ".to_string()),
            Cmd::SwitchBuffer => {
                let last = if self.last_buffer < self.buffers.len() - 1 { self.last_buffer } else { self.buffers.len() - 1 };
                let default = self.buffers[last].name.clone();
                let label = forth::join3("Switch to buffer (default ", default.as_str(), "): ");
                self.start_prompt(PromptAction::SwitchBuffer, label);
            },
            Cmd::KillBuffer => {
                if self.buffers[c].modified {
                    let name = self.buffers[c].name.clone();
                    let label = forth::join3("Buffer ", name.as_str(), " modified; kill anyway? (y or n) ");
                    self.start_yes_no(PromptAction::KillBufferConfirm, label);
                } else {
                    self.kill_current_buffer();
                }
            },
            Cmd::Repl => self.start_prompt(PromptAction::Eval, "cmd: ".to_string()),
            Cmd::EvalPoint => self.eval_at_point(),
            Cmd::ListBuffers => {
                self.echo = self.buffer_list();
            },
            Cmd::QuitEditor => {
                if self.any_modified() {
                    self.start_yes_no(PromptAction::QuitConfirm, "Modified buffers exist; really exit? (y or n) ".to_string());
                } else {
                    self.quit = true;
                }
            },
        }
    }

    /// Runs `cmd` with the pending numeric argument (one when none): starts a new undo
    /// group unless it continues typing, and remembers what kind of command it was.
    #[verifier::spinoff_prover]
    #[verifier::rlimit(40)]
    fn run(&mut self, cmd: Cmd)
        requires
            old(self).wf(),
            old(self).mode is Edit,
        ensures
            final(self).wf(),
            final(self).last == last_of(cmd),
            final(self).arg is None,
            !final(self).arg_digits,
            cmd_effect(*old(self), *final(self), cmd, count_of(old(self).arg)),
            undo_effect(*old(self), *final(self), cmd, count_of(old(self).arg)),
    {
        let n0 = match self.arg {
            Some(a) => a,
            None => 1,
        };
        self.arg = None;
        let n = if n0 < 1 { 1 } else { n0 };
        self.arg_digits = false;
        let coalesce = matches!(cmd, Cmd::Insert(_)) && self.last == Last::Insert;
        let c = self.current;
        let ghost before = self.buffers@;
        proof {
            assert(view_ok(self.buffers@[c as int]));
        }
        if !coalesce {
            self.buffers[c].new_group();
        }
        if cmd != Cmd::Undo {
            self.buffers[c].break_undo_chain();
        }
        proof {
            assert(self.buffers@ =~= before.update(c as int, self.buffers@[c as int]));
            self.lemma_cur_updated(before, c as int);
            assert(surface_eq(before[c as int], self.buffers@[c as int]));
            assert(surfaces_eq(old(self).buffers@, self.buffers@));
        }
        let ghost mid = *self;
        self.dispatch(cmd, n);
        let ghost done = *self;
        proof {
            lemma_effect_from(*old(self), mid, done, cmd, n);
        }
        let last = match cmd {
            Cmd::Insert(_) | Cmd::Newline => Last::Insert,
            Cmd::KillLine | Cmd::KillRegion | Cmd::KillWordForward | Cmd::KillWordBackward => Last::Kill,
            Cmd::Yank | Cmd::YankPop => Last::Yank,
            Cmd::Next | Cmd::Prev | Cmd::PageDown | Cmd::PageUp => Last::LineMove,
            _ => Last::Other,
        };
        self.last = last;
        self.arg = None;
        self.arg_digits = false;
        if last != Last::LineMove {
            let c2 = self.current;
            let ghost before2 = self.buffers@;
            proof {
                assert(view_ok(self.buffers@[c2 as int]));
            }
            self.buffers[c2].clear_goal();
            proof {
                self.lemma_cur_updated(before2, c2 as int);
                assert(surface_eq(before2[c2 as int], self.buffers@[c2 as int]));
            }
        }
        proof {
            assert(surfaces_eq(done.buffers@, self.buffers@));
            lemma_effect_to(*old(self), done, *self, cmd, n);
            if cmd == Cmd::DeleteForward || cmd == Cmd::DeleteBackward || cmd == Cmd::KillLine || cmd == Cmd::KillWordForward
                || cmd == Cmd::KillWordBackward || cmd == Cmd::KillRegion || cmd == Cmd::Yank || cmd == Cmd::YankPop {
                assert(view_ok(old(self).buffers@[c as int]));
                lemma_grouped_from_appended(old(self).cur(), mid.cur(), done.cur());
                assert(self.cur().undo == done.cur().undo);
                assert(self.cur().hist == done.cur().hist);
                assert(self.cur().undo_pos == done.cur().undo_pos);
                assert(self.cur().group == done.cur().group);
            }
            if keeps_history(cmd) {
                assert(view_ok(mid.buffers@[c as int]));
                assert(self.cur().undo == done.cur().undo);
                assert(self.cur().hist == done.cur().hist);
                assert(self.cur().undo_pos == done.cur().undo_pos);
            }
            if cmd is Insert || cmd == Cmd::Newline {
                let ch = match cmd {
                    Cmd::Insert(x) => x,
                    _ => '\n',
                };
                assert(view_ok(mid.buffers@[c as int]));
                assert(view_ok(old(self).buffers@[c as int]));
                lemma_typing_undo(old(self).cur(), mid.cur(), done.cur(), ch, n, coalesce);
                assert(self.cur().undo == done.cur().undo);
                assert(self.cur().hist == done.cur().hist);
                assert(self.cur().undo_pos == done.cur().undo_pos);
                assert(self.cur().group == done.cur().group);
            }
        }
    }
}


/// `a * b`, or the largest `usize` when that is too large.
pub fn sat_mul(a: usize, b: usize) -> (r: usize)
    ensures
        r == (if a * b > usize::MAX { usize::MAX as int } else { a * b }),
{
    if b != 0 && a > usize::MAX / b {
        proof {
            assert(a * b > usize::MAX) by (nonlinear_arith)
                requires
                    b > 0,
                    a > usize::MAX / b,
            ;
        }
        usize::MAX
    } else {
        proof {
            assert(a * b <= usize::MAX) by (nonlinear_arith)
                requires
                    b == 0 || a <= usize::MAX / b,
            ;
        }
        a * b
    }
}


/// `s` with `c` appended.
fn push_char_string(s: &String, c: char) -> (r: String)
    ensures
        r@ == s@.push(c),
{
    let mut cs = str_chars(s.as_str());
    cs.push(c);
    string_of(&cs)
}

/// `s` without its last character.
fn pop_char_string(s: &String) -> (r: String)
    ensures
        s@.len() > 0 ==> r@ == s@.drop_last(),
        s@.len() == 0 ==> r@ == s@,
{
    let mut cs = str_chars(s.as_str());
    if cs.len() > 0 {
        cs.pop();
    }
    proof {
        if s@.len() > 0 {
            assert(cs@ =~= s@.drop_last());
        }
    }
    string_of(&cs)
}

impl Editor {
    /// Looks for the search's needle from its position (past it when `advance`) and
    /// moves the cursor to the match: after it when searching forward, onto it when
    /// backward.
    fn search_move(&mut self, s: &mut Search, advance: bool)
        requires
            old(self).wf(),
            old(self).mode is Edit,
            old(s).at <= old(self).cur().text@.len(),
        ensures
            final(self).wf(),
            final(self).mode is Edit,
            final(self).current == old(self).current,
            final(self).buffers@.len() == old(self).buffers@.len(),
            final(self).cur().text == old(self).cur().text,
            final(self).kills == old(self).kills,
            final(self).quit == old(self).quit,
            final(s).needle == old(s).needle,
            final(s).forward == old(s).forward,
            final(s).origin == old(s).origin,
            final(s).at <= final(self).cur().text@.len(),
            old(s).needle@.len() == 0 ==> *final(s) == *old(s) && final(self).buffers == old(self).buffers,
            old(s).needle@.len() > 0 && final(s).found ==> occurs_at(final(self).cur().text@, encode_utf8(old(s).needle@), final(s).at as int)
                && final(self).cur().cursor == (if old(s).forward { final(s).at + encode_utf8(old(s).needle@).len() } else { final(s).at as int }),
            !final(s).found ==> final(self).buffers == old(self).buffers && final(s).at == old(s).at,
            old(s).needle@.len() > 0 && old(s).forward ==> ({
                let t = old(self).cur().text@;
                let nd = encode_utf8(old(s).needle@);
                let st = if advance { ceil_pos(t, old(s).at + 1) } else { old(s).at as int };
                &&& (!advance ==> is_char_boundary(t, old(s).at as int)) && final(s).found ==> first_match(t, nd, st, final(s).at as int)
                &&& (!advance ==> is_char_boundary(t, old(s).at as int)) && !final(s).found ==> no_match_from(t, nd, st)
            }),
            old(s).needle@.len() > 0 && !old(s).forward && advance ==> ({
                let t = old(self).cur().text@;
                let nd = encode_utf8(old(s).needle@);
                let lim = back_limit(t, old(s).at as int, nd.len() as int);
                &&& final(s).found ==> final(s).at < old(s).at && last_match(t, nd, lim, final(s).at as int)
                &&& !final(s).found ==> old(s).at == 0 || forall|j: int| 0 <= j && last_match(t, nd, lim, j) ==> j >= old(s).at
            }),
            old(s).needle@.len() > 0 && !old(s).forward && !advance ==> ({
                let t = old(self).cur().text@;
                let nd = encode_utf8(old(s).needle@);
                let lim = ceil_pos(t, old(s).at + nd.len());
                &&& final(s).found ==> final(s).at + nd.len() <= lim && forall|j: int|
                    final(s).at < j && j + nd.len() <= lim ==> !occurs_at(t, nd, j)
                &&& !final(s).found ==> forall|j: int| 0 <= j && j + nd.len() <= lim ==> !occurs_at(t, nd, j)
            }),
    {
        if s.needle.as_str().is_empty() {
            return;
        }
        let c = self.current;
        proof {
            assert(view_ok(self.buffers@[c as int]));
            self.buffers@[c as int].lemma_wf();
        }
        let len = self.buffers[c].text.len();
        let hay = self.buffers[c].text.slice_bytes(0, len);
        proof {
            assert(hay@ =~= self.buffers@[c as int].text@);
        }
        let nb = string_bytes(&s.needle);
        let nl = nb.len();
        let pos = locate(&hay, &nb, s.at, s.forward, advance);
        match pos {
            Some(p) => {
                proof {
                    encode_utf8_valid_utf8(s.needle@);
                    lemma_match_boundaries(hay@, nb@, p as int);
                }
                s.at = p;
                s.found = true;
                let ghost before = self.buffers@;
                let to = if s.forward { p + nl } else { p };
                self.buffers[c].goto(to);
                proof {
                    assert(self.buffers@ =~= before.update(c as int, self.buffers@[c as int]));
                    self.lemma_cur_updated(before, c as int);
                }
            },
            None => {
                s.found = false;
            },
        }
    }

    /// Ends a search, remembering its needle for the next one.
    fn finish_search(&mut self, s: Search)
        ensures
            final(self).buffers == old(self).buffers,
            final(self).current == old(self).current,
            final(self).mode == old(self).mode,
            final(self).echo == old(self).echo,
            final(self).quit == old(self).quit,
            final(self).kills == old(self).kills,
            final(self).kill_idx == old(self).kill_idx,
            final(self).vm == old(self).vm,
            final(self).rows == old(self).rows,
            final(self).cols == old(self).cols,
            final(self).mg == old(self).mg,
            final(self).cx == old(self).cx,
            final(self).arg == old(self).arg,
            final(self).arg_digits == old(self).arg_digits,
            final(self).last == old(self).last,
            final(self).yank == old(self).yank,
            s.needle@.len() > 0 ==> final(self).last_needle == s.needle,
            s.needle@.len() == 0 ==> final(self).last_needle == old(self).last_needle,
    {
        if !s.needle.as_str().is_empty() {
            self.last_needle = s.needle;
        }
    }

    /// A key during incremental search.
    fn search_key(&mut self, s: Search, key: Key)
        requires
            old(self).wf(),
            old(self).mode is Edit,
            s.origin <= old(self).cur().text@.len(),
            is_char_boundary(old(self).cur().text@, s.origin as int),
            s.at <= old(self).cur().text@.len(),
        ensures
            final(self).wf(),
            search_effect(*old(self), *final(self), s, key),
    {
        let ghost s0 = s;
        let mut s = s;
        match key {
            Key::Char(ch) => {
                s.needle = push_char_string(&s.needle, ch);
                self.search_move(&mut s, false);
                self.mode = Mode::Search(s);
            },
            Key::Ctrl('s') | Key::Ctrl('r') => {
                s.forward = key == Key::Ctrl('s');
                if s.needle.as_str().is_empty() {
                    s.needle = self.last_needle.clone();
                    self.search_move(&mut s, false);
                } else {
                    self.search_move(&mut s, true);
                }
                self.mode = Mode::Search(s);
            },
            Key::Backspace => {
                s.needle = pop_char_string(&s.needle);
                s.at = s.origin;
                let c = self.current;
                let ghost before = self.buffers@;
                proof {
                    assert(view_ok(self.buffers@[c as int]));
                }
                self.buffers[c].goto(s.origin);
                proof {
                    assert(self.buffers@ =~= before.update(c as int, self.buffers@[c as int]));
                    self.lemma_cur_updated(before, c as int);
                }
                if s.needle.as_str().is_empty() {
                    s.found = true;
                } else {
                    self.search_move(&mut s, false);
                }
                self.mode = Mode::Search(s);
            },
            Key::Ctrl('g') => {
                let c = self.current;
                let ghost before = self.buffers@;
                proof {
                    assert(view_ok(self.buffers@[c as int]));
                }
                self.buffers[c].goto(s.origin);
                proof {
                    assert(self.buffers@ =~= before.update(c as int, self.buffers@[c as int]));
                    self.lemma_cur_updated(before, c as int);
                }
                self.echo = "Quit".to_string();
            },
            Key::Enter => self.finish_search(s),
            _ => {
                self.finish_search(s);
                let ghost pre = *self;
                self.edit_key(key);
                proof {
                    lemma_edit_effect_from(*old(self), pre, *self, key);
                }
            },
        }
    }

    /// A key in edit mode: prefix keys (`C-x`, `M-g`, `C-u` and its digits), `C-g`,
    /// or a bound command.
    fn edit_key(&mut self, key: Key)
        requires
            old(self).wf(),
            old(self).mode is Edit,
        ensures
            final(self).wf(),
            edit_effect(*old(self), *final(self), key),
    {
        if key == Key::Ctrl('g') {
            self.cx = false;
            self.mg = false;
            self.arg = None;
            self.last = Last::Other;
            let c = self.current;
            let ghost before = self.buffers@;
            proof {
                assert(view_ok(self.buffers@[c as int]));
                self.buffers@[c as int].lemma_wf();
            }
            let m = self.buffers[c].mark;
            self.buffers[c].put_mark(m, false);
            proof {
                assert(self.buffers@ =~= before.update(c as int, self.buffers@[c as int]));
                self.lemma_cur_updated(before, c as int);
            }
            self.echo = "Quit".to_string();
            return;
        }
        if self.mg {
            self.mg = false;
            if key == Key::Char('g') || key == Key::Meta('g') {
                self.start_prompt(PromptAction::GotoLine, "Goto line: ".to_string());
            } else {
                self.echo = "M-g is undefined here".to_string();
            }
            return;
        }
        if !self.cx {
            if key == Key::Ctrl('u') {
                self.arg = Some(match self.arg {
                    Some(n) => sat_mul(n, 4),
                    None => 4,
                });
                self.arg_digits = false;
                return;
            }
            match (self.arg, key) {
                (Some(n), Key::Char(ch)) => {
                    if '0' <= ch && ch <= '9' {
                        let d = (ch as u32 - '0' as u32) as usize;
                        self.arg = Some(if self.arg_digits { sat_add(sat_mul(n, 10), d) } else { d });
                        self.arg_digits = true;
                        return;
                    }
                },
                _ => {},
            }
            if key == Key::Ctrl('x') {
                self.cx = true;
                return;
            }
            if key == Key::Meta('g') {
                self.mg = true;
                return;
            }
        }
        let cx = self.cx;
        self.cx = false;
        let ghost pre = *self;
        match keymap(cx, key) {
            Some(cmd) => {
                self.run(cmd);
                proof {
                    lemma_effect_same(*old(self), pre, *self, cmd, count_of(pre.arg));
                }
            },
            None => {
                self.arg = None;
                self.last = Last::Other;
                let kt = key_text(key);
                self.echo = forth::join2(kt.as_str(), " is undefined");
            },
        }
    }
}

/// `a * b` capped at the largest `usize`.
pub open spec fn sat_mul_spec(a: int, b: int) -> usize {
    if a * b > usize::MAX { usize::MAX } else { (a * b) as usize }
}

/// `a + b` capped at the largest `usize`.
pub open spec fn sat_add_spec(a: int, b: int) -> usize {
    if a + b > usize::MAX { usize::MAX } else { (a + b) as usize }
}

/// `a + b`, or the largest `usize` when that is too large.
pub fn sat_add(a: usize, b: usize) -> (r: usize)
    ensures
        r == (if a + b > usize::MAX { usize::MAX as int } else { a + b }),
{
    if a > usize::MAX - b { usize::MAX } else { a + b }
}


/// The bytes of "Replaced N occurrences".
pub open spec fn replaced_text(count: usize) -> Seq<u8> {
    encode_utf8("Replaced "@) + crate::encoding::digits_spec(count as nat) + encode_utf8(" occurrences"@)
}

/// `at` is the first place at or after `st` where `nd` occurs in `t`.
pub open spec fn first_match(t: Seq<u8>, nd: Seq<u8>, st: int, at: int) -> bool {
    &&& st <= at
    &&& occurs_at(t, nd, at)
    &&& forall|j: int| st <= j < at ==> !occurs_at(t, nd, j)
}

/// `nd` does not occur in `t` at or after `st`.
pub open spec fn no_match_from(t: Seq<u8>, nd: Seq<u8>, st: int) -> bool {
    forall|j: int| st <= j ==> !occurs_at(t, nd, j)
}

/// Two first matches from the same place are the same.
proof fn lemma_first_match_unique(t: Seq<u8>, nd: Seq<u8>, st: int, i: int, j: int)
    requires
        first_match(t, nd, st, i),
        first_match(t, nd, st, j),
    ensures
        i == j,
{
    if i < j {
        assert(!occurs_at(t, nd, i));
    }
    if j < i {
        assert(!occurs_at(t, nd, j));
    }
}

/// One step of replacing all the rest: from the text, the place to search from and
/// the count so far, replace the first occurrence of `nd` at or after the boundary
/// at or after that place by `to` (when the result fits) and go on after it.
pub open spec fn rep_step(nd: Seq<u8>, to: Seq<u8>, s: (Seq<u8>, int, usize)) -> (Seq<u8>, int, usize) {
    let (t, pos, c) = s;
    let st = ceil_pos(t, pos);
    if exists|j: int| first_match(t, nd, st, j) {
        let i = choose|j: int| first_match(t, nd, st, j);
        if t.len() - nd.len() + to.len() <= TEXT_MAX {
            (
                t.subrange(0, i) + to + t.subrange(i + nd.len(), t.len() as int),
                i + to.len(),
                if c < usize::MAX { (c + 1) as usize } else { c },
            )
        } else {
            (t, i + nd.len(), c)
        }
    } else {
        s
    }
}

/// `k` steps of replacing all the rest from `s`.
pub open spec fn rep_iter(nd: Seq<u8>, to: Seq<u8>, s: (Seq<u8>, int, usize), k: nat) -> (Seq<u8>, int, usize)
    decreases k,
{
    if k == 0 {
        s
    } else {
        rep_step(nd, to, rep_iter(nd, to, s, (k - 1) as nat))
    }
}

/// `b` shows what replacing all the rest leaves, starting from query-replace `r` in
/// the text `t`: the steps from `r`'s occurrence on reach a state where no
/// occurrence is left, whose text `b` shows and whose count it reports.
pub open spec fn replaced_all(t: Seq<u8>, r: Replace, b: Editor) -> bool {
    let nd = encode_utf8(r.from@);
    let to = encode_utf8(r.to@);
    exists|k: nat, p: int, c: usize|
        #![trigger rep_iter(nd, to, (t, r.at as int, r.count), k), rep_step(nd, to, (b.cur().text@, p, c))]
        rep_iter(nd, to, (t, r.at as int, r.count), k) == (b.cur().text@, p, c) && rep_step(nd, to, (b.cur().text@, p, c))
            == (b.cur().text@, p, c) && encode_utf8(b.echo@) == replaced_text(c)
}

/// How query-replace `r` goes on in `b` from `st` in the text `t`, which `b`'s current
/// buffer shows: at the next occurrence, with the cursor after it; or, when there is
/// none, back in editing with the count reported.
pub open spec fn continued(t: Seq<u8>, st: int, r: Replace, b: Editor) -> bool {
    let nd = encode_utf8(r.from@);
    &&& b.cur().text@ == t
    &&& b.mode is Replace ==> (b.mode matches Mode::Replace(q) && q.from == r.from && q.to == r.to && q.count == r.count
        && first_match(t, nd, st, q.at as int) && b.cur().cursor == q.at + nd.len())
    &&& b.mode is Edit ==> no_match_from(t, nd, st) && encode_utf8(b.echo@) == replaced_text(r.count)
    &&& (b.mode is Replace || b.mode is Edit)
}

/// What `key` does to query-replace `r` in `a`, leaving `b`: `y` or space replaces
/// this occurrence (when the result fits) and moves to the next, `n` moves to the
/// next, RET, `q` and `C-g` stop and report the count, `!` replaces all the rest
/// (see `replaced_all`) and returns to editing, and any other key changes nothing.
pub open spec fn replace_effect(a: Editor, b: Editor, r: Replace, key: Key) -> bool {
    let t = a.cur().text@;
    let nd = encode_utf8(r.from@);
    let to = encode_utf8(r.to@);
    let e = r.at + nd.len();
    &&& b.current == a.current
    &&& match key {
        Key::Char('y') | Key::Char(' ') => if t.len() - nd.len() + to.len() <= TEXT_MAX {
            let t2 = t.subrange(0, r.at as int) + to + t.subrange(e, t.len() as int);
            let r2 = Replace { count: if r.count < usize::MAX { (r.count + 1) as usize } else { r.count }, ..r };
            continued(t2, ceil_pos(t2, r.at + to.len()), r2, b)
        } else {
            continued(t, ceil_pos(t, e), r, b)
        },
        Key::Char('n') => continued(t, ceil_pos(t, e), r, b),
        Key::Enter | Key::Char('q') | Key::Ctrl('g') => b.mode is Edit && encode_utf8(b.echo@) == replaced_text(r.count)
            && b.buffers == a.buffers,
        Key::Char('!') => b.mode is Edit && replaced_all(t, r, b),
        _ => b.mode == Mode::Replace(r) && b.buffers == a.buffers,
    }
}

/// `b` searches on for `nd` from `at` in `t` in the direction of `s`: it has found an
/// occurrence and put the cursor past it (before it, backward), or found none and
/// left the cursor at `cur`. Forward from a character boundary the occurrence is the
/// first one; backward it is the last that ends by the boundary at or after `at`
/// plus the needle's length.
pub open spec fn searched(t: Seq<u8>, s: Search, at: usize, cur: usize, nd: Seq<char>, b: Editor) -> bool {
    let nb = encode_utf8(nd);
    &&& b.cur().text@ == t
    &&& (b.mode matches Mode::Search(q) && q.needle@ == nd && q.forward == s.forward && q.origin == s.origin
        && (q.found ==> occurs_at(t, nb, q.at as int) && b.cur().cursor == (if s.forward { q.at + nb.len() } else { q.at as int }))
        && (!q.found ==> q.at == at && b.cur().cursor == cur)
        && (s.forward && nd.len() > 0 && is_char_boundary(t, at as int) ==> (q.found ==> first_match(t, nb, at as int, q.at as int))
            && (!q.found ==> no_match_from(t, nb, at as int)))
        && (!s.forward && nd.len() > 0 ==> (q.found ==> forall|j: int|
            q.at < j && j + nb.len() <= ceil_pos(t, at + nb.len()) ==> !occurs_at(t, nb, j)) && (!q.found ==> forall|j: int|
            0 <= j && j + nb.len() <= ceil_pos(t, at + nb.len()) ==> !occurs_at(t, nb, j))))
}

/// What `key` does to the search `s` in `a`, leaving `b`: a character extends the
/// needle and searches on from where the search is, DEL shortens it and searches
/// again from the origin, `C-s` / `C-r` search again in that direction (for the
/// previous search's needle when none is typed yet), `C-g` puts
/// the cursor back at the origin, RET ends the search where it is, and any other
/// key ends it and then acts as in editing.
pub open spec fn search_effect(a: Editor, b: Editor, s: Search, key: Key) -> bool {
    let t = a.cur().text@;
    match key {
        Key::Char(ch) => b.current == a.current && searched(t, s, s.at, a.cur().cursor, s.needle@.push(ch), b),
        Key::Backspace => {
            let nd = if s.needle@.len() > 0 { s.needle@.drop_last() } else { s.needle@ };
            &&& b.current == a.current
            &&& if nd.len() == 0 {
                b.cur().text@ == t && b.cur().cursor == s.origin && (b.mode matches Mode::Search(q) && q.needle@.len() == 0
                    && q.found && q.at == s.origin && q.forward == s.forward && q.origin == s.origin)
            } else {
                searched(t, s, s.origin, s.origin, nd, b)
            }
        },
        Key::Ctrl('s') | Key::Ctrl('r') => {
            let nb = encode_utf8(s.needle@);
            let st = ceil_pos(t, s.at + 1);
            &&& b.current == a.current
            &&& b.cur().text@ == t
            &&& (b.mode matches Mode::Search(q) && q.forward == (key == Key::Ctrl('s')) && q.origin == s.origin)
            &&& key == Key::Ctrl('s') && s.needle@.len() > 0 ==> (b.mode matches Mode::Search(q) && q.needle == s.needle
                && (q.found ==> first_match(t, nb, st, q.at as int) && b.cur().cursor == q.at + nb.len()) && (!q.found
                ==> no_match_from(t, nb, st) && q.at == s.at))
            &&& key == Key::Ctrl('s') && s.needle@.len() == 0 && a.last_needle@.len() > 0 && is_char_boundary(t, s.at as int)
                ==> searched(t, Search { forward: true, ..s }, s.at, a.cur().cursor, a.last_needle@, b)
            &&& key == Key::Ctrl('r') && s.needle@.len() > 0 ==> ({
                let lim = back_limit(t, s.at as int, nb.len() as int);
                b.mode matches Mode::Search(q) && q.needle == s.needle && (q.found ==> q.at < s.at && last_match(
                    t,
                    nb,
                    lim,
                    q.at as int,
                ) && b.cur().cursor == q.at) && (!q.found ==> q.at == s.at && (s.at == 0 || forall|j: int|
                    0 <= j && last_match(t, nb, lim, j) ==> j >= s.at))
            })
        },
        Key::Ctrl('g') => b.current == a.current && b.mode is Edit && b.echo@ == "Quit"@ && b.cur().text@ == t
            && b.cur().cursor == s.origin,
        Key::Enter => b.current == a.current && b.mode is Edit && b.buffers == a.buffers && (s.needle@.len() > 0
            ==> b.last_needle == s.needle),
        _ => edit_effect(a, b, key),
    }
}

/// After evaluating `src`, the VM `w` (from `v`) either is what a successful
/// evaluation leaves (`Vm::evaluates_to`, every evaluation that reads nothing from
/// the editor ending alike), with the definitions of `src` added to the dictionary;
/// or the evaluation failed: the data stack rolled back to `v`'s, which happens only
/// where `src` has no evaluation that reads nothing from the editor
/// (`Vm::evaluates_without_reads`).
pub open spec fn forth_outcome(v: Vm, w: Vm, src: Seq<char>) -> bool {
    ||| forth_succeeded(v, w, src)
    ||| w.stack_spec() == v.stack_spec() && !v.evaluates_without_reads(src)
}

/// Evaluating `src` from `v` succeeded and left `w`.
pub open spec fn forth_succeeded(v: Vm, w: Vm, src: Seq<char>) -> bool {
    &&& w.dict() == v.dict() + forth::defined_names(src)
    &&& v.evaluates_to(src, w)
    &&& v.ends_like(src, w)
}

/// The line `Goto line:` goes to for `input`: its number, white space trimmed.
pub open spec fn goto_number(input: Seq<char>) -> Option<usize> {
    crate::encoding::parse_uint_spec(encode_utf8(forth::trimmed(input)))
}

/// What submitting `input` to a prompt for `action` in `a` leaves in `b`; all but the
/// query-replace prompts return to editing.
pub open spec fn submit_effect(a: Editor, b: Editor, action: PromptAction, input: String) -> bool {
    &&& submit_result(a, b, action, input)
    &&& match action {
        PromptAction::FindFile | PromptAction::WriteAs | PromptAction::GotoLine | PromptAction::SwitchBuffer
        | PromptAction::KillBufferConfirm | PromptAction::QuitConfirm | PromptAction::Eval => b.mode is Edit,
        _ => true,
    }
}

/// What submitting `input` to a prompt for `action` in `a` does, beside the mode it
/// leaves.
pub open spec fn submit_result(a: Editor, b: Editor, action: PromptAction, input: String) -> bool {
    let t = a.cur().text@;
    match action {
        PromptAction::FindFile => b.buffers == a.buffers && if input@.len() == 0 {
            b.echo@ == "Quit"@
        } else {
            b.request == Some(Request::Open(input))
        },
        PromptAction::WriteAs => b.buffers == a.buffers && if input@.len() == 0 {
            b.echo@ == "Quit"@
        } else {
            b.request matches Some(Request::WriteAs { path, content, mode }) && path == input && encode_utf8(content@) == t
                && mode == a.cur().mode_bits
        },
        PromptAction::GotoLine => {
            &&& b.current == a.current
            &&& b.cur().text@ == t
            &&& match goto_number(input@) {
                Some(l) => if l >= 1 {
                    let last = crate::encoding::count_nl(t) as int;
                    is_line_start(t, if l - 1 < last { l - 1 } else { last }, b.cur().cursor as int)
                } else {
                    b.echo@ == "Invalid line number"@ && b.cur().cursor == a.cur().cursor
                },
                None => b.echo@ == "Invalid line number"@ && b.cur().cursor == a.cur().cursor,
            }
        },
        PromptAction::SwitchBuffer => {
            let n = a.buffers@.len();
            &&& b.buffers == a.buffers
            &&& if input@.len() == 0 {
                b.current == (if a.last_buffer < n - 1 { a.last_buffer as int } else { n - 1 }) && b.last_buffer == a.current
            } else if exists|i: int| 0 <= i < n && (#[trigger] a.buffers@[i]).name@ == input@ {
                &&& b.current < n
                &&& a.buffers@[b.current as int].name@ == input@
                &&& forall|j: int| 0 <= j < b.current ==> (#[trigger] a.buffers@[j]).name@ != input@
                &&& b.last_buffer == a.current
            } else {
                b.current == a.current && b.echo@ == "No buffer named "@ + input@
            }
        },
        PromptAction::KillBufferConfirm => {
            &&& a.buffers@.len() > 1 ==> b.buffers@ == a.buffers@.remove(a.current as int)
            &&& a.buffers@.len() == 1 ==> b.buffers@.len() == 1 && b.buffers@[0].name@ == "*scratch*"@
        },
        PromptAction::QuitConfirm => b.quit,
        PromptAction::ReplaceFrom => b.buffers == a.buffers && if input@.len() == 0 {
            b.echo@ == "Quit"@
        } else {
            b.mode matches Mode::Prompt(p) && p.action == (PromptAction::ReplaceTo { from: input }) && p.input@.len() == 0
        },
        PromptAction::ReplaceTo { from } => b.current == a.current && if from@.len() == 0 {
            b.echo@ == "Empty search string"@ && b.buffers == a.buffers && b.mode is Edit
        } else {
            continued(t, ceil_pos(t, a.cur().cursor as int), Replace { from, to: input, at: a.cur().cursor, count: 0 }, b)
        },
        PromptAction::Eval => b.current == a.current && if input@.len() == 0 {
            b.buffers == a.buffers && b.vm == a.vm
        } else {
            &&& forth_outcome(a.vm, b.vm, input@)
            &&& b.mode is Edit
            &&& a.cur().group < u64::MAX ==> crate::editor::edits_grouped(a.cur(), b.cur())
        },
    }
}

/// What `edit_input` does to a prompt's line for `key`: a character goes in at the
/// cursor, `C-a`/Home and `C-e`/End move to the ends, `C-k` cuts the rest; label,
/// kind and action stay.
pub open spec fn input_edited(p: Prompt, q: Prompt, key: Key) -> bool {
    &&& prompt_ok(q)
    &&& q.label == p.label
    &&& q.yes_no == p.yes_no
    &&& q.action == p.action
    &&& key matches Key::Char(c) ==> encode_utf8(q.input@) == crate::text::spliced(
        encode_utf8(p.input@),
        p.cur as int,
        crate::encoding::char_bytes(c),
    ) && q.cur == p.cur + crate::encoding::char_bytes(c).len()
    &&& (key == Key::Ctrl('a') || key == Key::Home) ==> q.input == p.input && q.cur == 0
    &&& (key == Key::Ctrl('e') || key == Key::End) ==> q.input == p.input && q.cur == encode_utf8(p.input@).len()
    &&& key == Key::Ctrl('k') ==> encode_utf8(q.input@) == encode_utf8(p.input@).take(p.cur as int)
}

/// What `key` does to the open prompt `p` in `a`, leaving `b`. A yes-or-no question
/// takes `y` as the answer and `n` or `C-g` as a refusal, and ignores other keys.
/// Otherwise RET submits the line, `C-g` cancels, TAB completes, and other keys edit
/// the line.
pub open spec fn prompt_effect(a: Editor, b: Editor, p: Prompt, key: Key) -> bool {
    if p.yes_no {
        match key {
            Key::Char('y') => exists|y: String| y@ == "y"@ && #[trigger] submit_effect(a, b, p.action, y),
            Key::Char('n') | Key::Ctrl('g') => b.echo@ == "Quit"@ && b.mode is Edit && b.buffers == a.buffers,
            _ => b.mode == Mode::Prompt(p) && b.buffers == a.buffers,
        }
    } else {
        match key {
            Key::Enter => submit_effect(a, b, p.action, p.input),
            Key::Ctrl('g') => b.echo@ == "Quit"@ && b.mode is Edit && b.buffers == a.buffers,
            Key::Tab => {
                &&& b.buffers == a.buffers
                &&& (b.mode matches Mode::Prompt(q) && q.label == p.label && q.action == p.action && !q.yes_no)
                &&& (p.action is FindFile || p.action is WriteAs) ==> b.request == Some(Request::Complete(p.input))
                &&& p.action is SwitchBuffer ==> (b.mode matches Mode::Prompt(q) && completed_from(
                    p,
                    q,
                    names_with_prefix(a.buffers@, p.input@),
                    0,
                ))
                &&& p.action is Eval ==> (b.mode matches Mode::Prompt(q) && word_completed(p, q, a.vm.dict()))
            },
            _ => b.buffers == a.buffers && (b.mode matches Mode::Prompt(q) && input_edited(p, q, key) && q.matches@.len() == 0),
        }
    }
}

/// A Forth command line is undone in one step: submitting it at the `M-x` prompt in
/// `e0` gives `e1`; when that evaluation edited the buffer, `C-/` in `e1` (with no
/// prefix or argument pending) gives `e2`, whose text is the one from before the
/// evaluation.
pub proof fn lemma_eval_undone(e0: Editor, e1: Editor, e2: Editor)
    requires
        e0.mode matches Mode::Prompt(p) && !p.yes_no && p.action == PromptAction::Eval && p.input@.len() > 0,
        e0.cur().group < u64::MAX,
        prompt_effect(e0, e1, e0.mode->Prompt_0, Key::Enter),
        e1.cur().undo@.len() > e0.cur().undo@.len(),
        !e1.cx,
        !e1.mg,
        e1.arg is None,
        edit_effect(e1, e2, Key::Ctrl('_')),
    ensures
        e2.cur().text@ == e0.cur().text@,
{
    let b1 = e1.cur();
    crate::editor::lemma_grouped_start(e0.cur(), b1);
    let gs = crate::editor::group_start(b1.undo@, b1.undo_pos as int, b1.undo@[b1.undo_pos - 1].group);
    assert(crate::editor::undo_steps(b1.undo@, b1.undo_pos as int, 1) == crate::editor::undo_steps(b1.undo@, gs, 0));
}

/// What `M-;` in `a` leaves in `b`: the form at the cursor (see `form_at_spec`) is
/// evaluated, its edits going into one new undo group; with no form there, a
/// message says so.
pub open spec fn evaluated_at_point(a: Editor, b: Editor) -> bool {
    let t = a.cur().text@;
    match form_at_spec(decode_utf8(t), a.cur().cursor as int) {
        None => b.echo@ == "Nothing to evaluate here"@ && b.buffers == a.buffers && b.vm == a.vm,
        Some(src) => {
            &&& forth_outcome(a.vm, b.vm, src)
            &&& a.cur().group < u64::MAX ==> crate::editor::edits_grouped(a.cur(), b.cur())
        },
    }
}

/// What `M-y` in `a` leaves in `b`: right after a yank, the yanked text (still where
/// the yank put it) is replaced by the next older kill, which the ring then points
/// at; otherwise a message says the previous command was not a yank.
pub open spec fn yank_popped(a: Editor, b: Editor) -> bool {
    let t = a.cur().text@;
    &&& b.current == a.current
    &&& match a.yank {
        Some((ya, ye)) if a.last == Last::Yank && a.kills@.len() > 0 => {
            if ya <= ye <= t.len() && is_char_boundary(t, ya as int) && is_char_boundary(t, ye as int) {
                let k = ((a.kill_idx + 1) as nat % a.kills@.len()) as int;
                let s = encode_utf8(a.kills@[k]@);
                &&& b.kill_idx as int == k
                &&& t.len() - (ye - ya) + s.len() <= TEXT_MAX ==> {
                    &&& b.cur().text@ == crate::text::spliced(crate::text::cut(t, ya as int, ye as int), ya as int, s)
                    &&& b.cur().cursor == ya + s.len()
                    &&& b.yank == Some((ya, (ya + s.len()) as usize))
                }
            } else {
                b.cur().text@ == t
            }
        },
        _ => b.echo@ == "Previous command was not a yank"@ && b.cur().text@ == t,
    }
}

/// "Replaced N occurrences".
fn replaced_message(count: usize) -> (r: String)
    ensures
        encode_utf8(r@) == encode_utf8("Replaced "@) + crate::encoding::digits_spec(count as nat) + encode_utf8(" occurrences"@),
{
    let n = crate::encoding::uint_string(count);
    let r = forth::join3("Replaced ", n.as_str(), " occurrences");
    proof {
        crate::encoding::lemma_encode_concat("Replaced "@, n@);
        crate::encoding::lemma_encode_concat("Replaced "@ + n@, " occurrences"@);
    }
    r
}

impl Editor {
    /// Finds the next occurrence of the replacement's pattern at or after `from`:
    /// asks about it, or reports how many were replaced when there is none.
    fn replace_next(&mut self, r: Replace, from: usize)
        requires
            old(self).wf(),
            old(self).mode is Edit,
            encode_utf8(r.from@).len() > 0,
        ensures
            final(self).wf(),
            final(self).current == old(self).current,
            final(self).buffers@.len() == old(self).buffers@.len(),
            final(self).cur().text == old(self).cur().text,
            final(self).quit == old(self).quit,
            continued(old(self).cur().text@, ceil_pos(old(self).cur().text@, from as int), r, *final(self)),
    {
        let c = self.current;
        proof {
            assert(view_ok(self.buffers@[c as int]));
            self.buffers@[c as int].lemma_wf();
        }
        let len = self.buffers[c].text.len();
        let hay = self.buffers[c].text.slice_bytes(0, len);
        proof {
            assert(hay@ =~= self.buffers@[c as int].text@);
        }
        let fb = string_bytes(&r.from);
        let start = ceil_boundary(&hay, from);
        proof {
            lemma_ceil_pos(hay@, from as int, start as int);
        }
        match find_from(&hay, &fb, start) {
            Some(i) => {
                proof {
                    encode_utf8_valid_utf8(r.from@);
                    lemma_match_boundaries(hay@, fb@, i as int);
                }
                let mut r = r;
                r.at = i;
                let ghost before = self.buffers@;
                self.buffers[c].goto(i + fb.len());
                proof {
                    assert(self.buffers@ =~= before.update(c as int, self.buffers@[c as int]));
                    self.lemma_cur_updated(before, c as int);
                }
                self.mode = Mode::Replace(r);
            },
            None => {
                self.echo = replaced_message(r.count);
            },
        }
    }

    /// Replaces the occurrence `r` is at, as an undo group of its own, and returns
    /// where searching goes on.
    fn do_replace(&mut self, r: &mut Replace) -> (next: usize)
        requires
            old(self).wf(),
            old(self).mode is Edit,
            encode_utf8(old(r).from@).len() > 0,
            occurs_at(old(self).cur().text@, encode_utf8(old(r).from@), old(r).at as int),
        ensures
            final(self).wf(),
            final(self).mode is Edit,
            final(self).current == old(self).current,
            final(self).buffers@.len() == old(self).buffers@.len(),
            final(self).quit == old(self).quit,
            final(r).from == old(r).from,
            final(r).to == old(r).to,
            final(r).at == old(r).at,
            next <= final(self).cur().text@.len(),
            final(self).cur().text@.len() - next == old(self).cur().text@.len() - (old(r).at + encode_utf8(old(r).from@).len()),
            old(self).cur().text@.len() - encode_utf8(old(r).from@).len() + encode_utf8(old(r).to@).len() <= TEXT_MAX ==> ({
                let t = old(self).cur().text@;
                let a = old(r).at as int;
                let e = a + encode_utf8(old(r).from@).len();
                &&& final(self).cur().text@ == t.subrange(0, a) + encode_utf8(old(r).to@) + t.subrange(e, t.len() as int)
                &&& final(self).cur().cursor == a + encode_utf8(old(r).to@).len()
                &&& final(r).count == (if old(r).count < usize::MAX { old(r).count + 1 } else { old(r).count as int })
                &&& next == a + encode_utf8(old(r).to@).len()
            }),
            !(old(self).cur().text@.len() - encode_utf8(old(r).from@).len() + encode_utf8(old(r).to@).len() <= TEXT_MAX) ==> ({
                &&& *final(r) == *old(r)
                &&& final(self).cur().text@ == old(self).cur().text@
                &&& next == old(r).at + encode_utf8(old(r).from@).len()
            }),
    {
        let c = self.current;
        proof {
            assert(view_ok(self.buffers@[c as int]));
            self.buffers@[c as int].lemma_wf();
        }
        let ghost before = self.buffers@;
        let ghost t0 = self.buffers@[c as int].text@;
        let fl = string_bytes(&r.from).len();
        let tl = string_bytes(&r.to).len();
        let len = self.buffers[c].text.len();
        let at = r.at;
        if tl > TEXT_MAX - (len - fl) {
            return at + fl;
        }
        proof {
            encode_utf8_valid_utf8(r.from@);
            lemma_match_boundaries(t0, encode_utf8(r.from@), at as int);
        }
        self.buffers[c].new_group();
        proof {
            self.buffers@[c as int].lemma_wf();
        }
        self.buffers[c].delete(at, at + fl);
        let ghost t1 = self.buffers@[c as int].text@;
        proof {
            crate::encoding::lemma_cut_boundary(t0, at as int, at + fl, at as int);
            self.buffers@[c as int].lemma_wf();
        }
        let to = r.to.clone();
        let ts = to.as_str();
        self.buffers[c].insert(at, ts);
        proof {
            encode_utf8_valid_utf8(r.to@);
            lemma_splice_boundary(t1, at as int, encode_utf8(r.to@), at as int);
            self.buffers@[c as int].lemma_wf();
            assert(self.buffers@[c as int].text@ =~= t0.subrange(0, at as int) + encode_utf8(r.to@) + t0.subrange(at + fl, t0.len() as int));
        }
        self.buffers[c].goto(at + tl);
        proof {
            assert(self.buffers@ =~= before.update(c as int, self.buffers@[c as int]));
            self.lemma_cur_updated(before, c as int);
        }
        if r.count < usize::MAX {
            r.count = r.count + 1;
        }
        at + tl
    }

    /// Starts query-replacing `from` with `to` from the cursor.
    fn start_replace(&mut self, from: String, to: String)
        requires
            old(self).wf(),
            old(self).mode is Edit,
        ensures
            final(self).wf(),
            final(self).current == old(self).current,
            final(self).buffers@.len() == old(self).buffers@.len(),
            final(self).quit == old(self).quit,
            from@.len() == 0 ==> final(self).echo@ == "Empty search string"@ && final(self).buffers == old(self).buffers
                && final(self).mode is Edit,
            from@.len() > 0 ==> continued(
                old(self).cur().text@,
                ceil_pos(old(self).cur().text@, old(self).cur().cursor as int),
                Replace { from, to, at: old(self).cur().cursor, count: 0 },
                *final(self),
            ),
    {
        if from.as_str().is_empty() {
            self.echo = "Empty search string".to_string();
            return;
        }
        proof {
            crate::encoding::lemma_encode_len(from@);
            assert(view_ok(self.buffers@[self.current as int]));
        }
        let cur = self.buffers[self.current].cursor;
        let r = Replace { from, to, at: cur, count: 0 };
        self.replace_next(r, cur);
    }

    /// A key while query-replacing: `y` or space replaces, `n` skips, `!` replaces
    /// all the rest, `q`, RET or `C-g` stop.
    fn replace_key(&mut self, r: Replace, key: Key)
        requires
            old(self).wf(),
            old(self).mode is Edit,
            encode_utf8(r.from@).len() > 0,
            occurs_at(old(self).cur().text@, encode_utf8(r.from@), r.at as int),
        ensures
            final(self).wf(),
            replace_effect(*old(self), *final(self), r, key),
    {
        let mut r = r;
        match key {
            Key::Char('y') | Key::Char(' ') => {
                let next = self.do_replace(&mut r);
                self.replace_next(r, next);
            },
            Key::Char('n') => {
                proof {
                    assert(view_ok(self.buffers@[self.current as int]));
                    self.buffers@[self.current as int].lemma_wf();
                }
                let fl = string_bytes(&r.from).len();
                let next = r.at + fl;
                self.replace_next(r, next);
            },
            Key::Char('!') => {
                let ghost t0 = self.cur().text@;
                let ghost r0 = r;
                let ghost nd = encode_utf8(r.from@);
                let ghost to = encode_utf8(r.to@);
                let ghost init = (t0, r0.at as int, r0.count);
                proof {
                    encode_utf8_valid_utf8(r.from@);
                    assert(view_ok(self.buffers@[self.current as int]));
                    self.buffers@[self.current as int].lemma_wf();
                    lemma_match_boundaries(t0, nd, r0.at as int);
                    assert(first_match(t0, nd, r0.at as int, r0.at as int));
                    assert(is_char_boundary(t0, r0.at as int));
                    lemma_ceil_pos(t0, r0.at as int, r0.at as int);
                    let i = choose|j: int| first_match(t0, nd, r0.at as int, j);
                    lemma_first_match_unique(t0, nd, r0.at as int, i, r0.at as int);
                }
                let mut next = self.do_replace(&mut r);
                let ghost mut k: nat = 1;
                proof {
                    assert(rep_iter(nd, to, init, 0) == init);
                }
                let c = self.current;
                let fl = string_bytes(&r.from).len();
                loop
                    invariant
                        self.wf(),
                        self.mode is Edit,
                        self.current == c,
                        encode_utf8(r.from@).len() > 0,
                        fl == encode_utf8(r.from@).len(),
                        next <= self.cur().text@.len(),
                        r.from == r0.from,
                        r.to == r0.to,
                        nd == encode_utf8(r0.from@),
                        to == encode_utf8(r0.to@),
                        (self.cur().text@, next as int, r.count) == rep_iter(nd, to, init, k),
                    ensures
                        rep_step(nd, to, (self.cur().text@, next as int, r.count)) == (self.cur().text@, next as int, r.count),
                    decreases self.cur().text@.len() - next,
                {
                    proof {
                        assert(view_ok(self.buffers@[c as int]));
                        self.buffers@[c as int].lemma_wf();
                    }
                    let len = self.buffers[c].text.len();
                    let hay = self.buffers[c].text.slice_bytes(0, len);
                    proof {
                        assert(hay@ =~= self.buffers@[c as int].text@);
                    }
                    let fb = string_bytes(&r.from);
                    let start = ceil_boundary(&hay, next);
                    let ghost st = (hay@, next as int, r.count);
                    proof {
                        lemma_ceil_pos(hay@, next as int, start as int);
                    }
                    match find_from(&hay, &fb, start) {
                        Some(i) => {
                            proof {
                                assert(first_match(hay@, fb@, start as int, i as int));
                                let j = choose|j: int| first_match(hay@, nd, start as int, j);
                                lemma_first_match_unique(hay@, nd, start as int, i as int, j);
                            }
                            r.at = i;
                            next = self.do_replace(&mut r);
                            proof {
                                assert(rep_iter(nd, to, init, k + 1) == rep_step(nd, to, st));
                                k = k + 1;
                            }
                        },
                        None => {
                            proof {
                                assert(!exists|j: int| first_match(hay@, nd, start as int, j));
                                assert(rep_step(nd, to, st) == st);
                            }
                            break;
                        },
                    }
                }
                self.echo = replaced_message(r.count);
                proof {
                    let fin = (self.cur().text@, next as int, r.count);
                    assert(rep_iter(nd, to, init, k) == fin && rep_step(nd, to, fin) == fin && encode_utf8(self.echo@)
                        == replaced_text(r.count));
                }
            },
            Key::Enter | Key::Char('q') | Key::Ctrl('g') => {
                self.echo = replaced_message(r.count);
            },
            _ => {
                self.mode = Mode::Replace(r);
            },
        }
    }
}


/// `a` sorts before `b`, comparing bytes from the start (a proper prefix sorts first).
pub open spec fn lex_lt(a: Seq<u8>, b: Seq<u8>) -> bool
    decreases a.len(),
{
    if a.len() == 0 {
        b.len() > 0
    } else if b.len() == 0 {
        false
    } else if a[0] != b[0] {
        a[0] < b[0]
    } else {
        lex_lt(a.drop_first(), b.drop_first())
    }
}

proof fn lemma_lex_trans(a: Seq<u8>, b: Seq<u8>, c: Seq<u8>)
    requires
        lex_lt(a, b),
        lex_lt(b, c),
    ensures
        lex_lt(a, c),
    decreases a.len(),
{
    if a.len() > 0 && b.len() > 0 && c.len() > 0 && a[0] == b[0] && b[0] == c[0] {
        lemma_lex_trans(a.drop_first(), b.drop_first(), c.drop_first());
    }
}

proof fn lemma_lex_total(a: Seq<u8>, b: Seq<u8>)
    ensures
        lex_lt(a, b) || a == b || lex_lt(b, a),
        !(lex_lt(a, b) && lex_lt(b, a)),
        !lex_lt(a, a),
    decreases a.len(),
{
    lemma_lex_irrefl(a);
    if a.len() > 0 && b.len() > 0 {
        lemma_lex_total(a.drop_first(), b.drop_first());
        if a[0] == b[0] && a.drop_first() == b.drop_first() {
            assert(a =~= seq![a[0]] + a.drop_first());
            assert(b =~= seq![b[0]] + b.drop_first());
        }
    } else if a.len() == 0 && b.len() == 0 {
        assert(a =~= b);
    }
}

proof fn lemma_lex_irrefl(a: Seq<u8>)
    ensures
        !lex_lt(a, a),
    decreases a.len(),
{
    if a.len() > 0 {
        lemma_lex_irrefl(a.drop_first());
    }
}

/// Whether `a` sorts before `b`.
fn lex_less(a: &Vec<u8>, b: &Vec<u8>) -> (r: bool)
    ensures
        r == lex_lt(a@, b@),
{
    let mut i: usize = 0;
    proof {
        assert(a@.skip(0) =~= a@);
        assert(b@.skip(0) =~= b@);
    }
    while i < a.len() && i < b.len() && a[i] == b[i]
        invariant
            i <= a@.len(),
            i <= b@.len(),
            lex_lt(a@, b@) == lex_lt(a@.skip(i as int), b@.skip(i as int)),
        decreases a@.len() - i,
    {
        proof {
            assert(a@.skip(i as int).drop_first() =~= a@.skip(i + 1));
            assert(b@.skip(i as int).drop_first() =~= b@.skip(i + 1));
        }
        i = i + 1;
    }
    if i == a.len() {
        i < b.len()
    } else if i == b.len() {
        false
    } else {
        a[i] < b[i]
    }
}

/// The texts of `v` are distinct and in byte order.
pub open spec fn sorted_texts(v: Seq<String>) -> bool {
    forall|i: int, j: int| 0 <= i < j < v.len() ==> lex_lt(encode_utf8(#[trigger] v[i]@), encode_utf8(#[trigger] v[j]@))
}

/// The texts `v` holds.
pub open spec fn text_set(v: Seq<String>) -> Set<Seq<char>> {
    Set::new(|t: Seq<char>| exists|i: int| 0 <= i < v.len() && #[trigger] v[i]@ == t)
}

proof fn lemma_encode_injective(a: Seq<char>, b: Seq<char>)
    requires
        encode_utf8(a) == encode_utf8(b),
    ensures
        a == b,
{
    encode_utf8_decode_utf8(a);
    encode_utf8_decode_utf8(b);
}

/// Adds `s` to the sorted, duplicate-free `v`.
fn insert_sorted(v: &mut Vec<String>, s: String)
    requires
        sorted_texts(old(v)@),
    ensures
        sorted_texts(final(v)@),
        text_set(final(v)@) == text_set(old(v)@).insert(s@),
{
    let sb = string_bytes(&s);
    let mut k: usize = 0;
    while k < v.len() && lex_less(&string_bytes(&v[k]), &sb)
        invariant
            k <= v@.len(),
            sb@ == encode_utf8(s@),
            forall|i: int| 0 <= i < k ==> lex_lt(encode_utf8(#[trigger] v@[i]@), sb@),
        decreases v@.len() - k,
    {
        k = k + 1;
    }
    let ghost v0 = v@;
    if k < v.len() {
        let vb = string_bytes(&v[k]);
        if bytes_eq_vec(&vb, &sb) {
            proof {
                lemma_encode_injective(v@[k as int]@, s@);
                assert(text_set(v@) =~= text_set(v0).insert(s@)) by {
                    assert(text_set(v0).contains(s@)) by {
                        assert(0 <= k < v0.len() && v0[k as int]@ == s@);
                    }
                }
            }
            return;
        }
        proof {
            lemma_lex_total(vb@, sb@);
        }
    }
    v.insert(k, s);
    proof {
        let v1 = v@;
        assert forall|i: int, j: int| 0 <= i < j < v1.len() implies lex_lt(encode_utf8(#[trigger] v1[i]@), encode_utf8(#[trigger] v1[j]@)) by {
            if j < k {
                assert(v1[i] == v0[i] && v1[j] == v0[j]);
            } else if j == k {
                assert(v1[i] == v0[i]);
            } else if i == k {
                assert(v1[j] == v0[j - 1]);
                if j - 1 > k {
                    assert(lex_lt(encode_utf8(v0[k as int]@), encode_utf8(v0[j - 1]@)));
                    lemma_lex_trans(sb@, encode_utf8(v0[k as int]@), encode_utf8(v0[j - 1]@));
                }
            } else if i < k {
                assert(v1[i] == v0[i] && v1[j] == v0[j - 1]);
                if j - 1 > k {
                    assert(lex_lt(encode_utf8(v0[k as int]@), encode_utf8(v0[j - 1]@)));
                    lemma_lex_trans(sb@, encode_utf8(v0[k as int]@), encode_utf8(v0[j - 1]@));
                }
                lemma_lex_trans(encode_utf8(v0[i]@), sb@, encode_utf8(v0[j - 1]@));
            } else {
                assert(v1[i] == v0[i - 1] && v1[j] == v0[j - 1]);
            }
        }
        assert(text_set(v1) =~= text_set(v0).insert(s@)) by {
            assert forall|t: Seq<char>| text_set(v1).contains(t) implies text_set(v0).insert(s@).contains(t) by {
                let i = choose|i: int| 0 <= i < v1.len() && #[trigger] v1[i]@ == t;
                if i < k {
                    assert(v1[i] == v0[i]);
                } else if i > k {
                    assert(v1[i] == v0[i - 1]);
                }
            }
            assert forall|t: Seq<char>| text_set(v0).insert(s@).contains(t) implies text_set(v1).contains(t) by {
                if t == s@ {
                    assert(v1[k as int]@ == t);
                } else {
                    let i = choose|i: int| 0 <= i < v0.len() && #[trigger] v0[i]@ == t;
                    if i < k {
                        assert(v1[i] == v0[i]);
                    } else {
                        assert(v1[i + 1] == v0[i]);
                    }
                }
            }
        }
    }
}

/// Whether two byte vectors are equal.
fn bytes_eq_vec(a: &Vec<u8>, b: &Vec<u8>) -> (r: bool)
    ensures
        r == (a@ == b@),
{
    crate::encoding::bytes_eq(a.as_slice(), b.as_slice())
}


/// `b` visits the file at `path`.
pub open spec fn visits(b: Buffer, path: Seq<char>) -> bool {
    match b.path {
        Some(p) => p@ == path,
        None => false,
    }
}

/// The cursor of prompt `p` is a boundary of its input.
pub open spec fn prompt_ok(p: Prompt) -> bool {
    p.cur <= encode_utf8(p.input@).len() && is_char_boundary(encode_utf8(p.input@), p.cur as int)
}

/// `v[a..b]` as a vector.
fn bytes_sub(v: &Vec<u8>, a: usize, b: usize) -> (r: Vec<u8>)
    requires
        a <= b <= v@.len(),
    ensures
        r@ == v@.subrange(a as int, b as int),
{
    vstd::slice::slice_to_vec(vstd::slice::slice_subrange(v.as_slice(), a, b))
}

/// Line editing in a prompt: typing, deleting and moving over characters.
fn edit_input(p: &mut Prompt, key: Key)
    requires
        prompt_ok(*old(p)),
    ensures
        prompt_ok(*final(p)),
        final(p).label == old(p).label,
        final(p).yes_no == old(p).yes_no,
        final(p).action == old(p).action,
        final(p).matches == old(p).matches,
        key matches Key::Char(c) ==> encode_utf8(final(p).input@) == crate::text::spliced(
            encode_utf8(old(p).input@),
            old(p).cur as int,
            crate::encoding::char_bytes(c),
        ) && final(p).cur == old(p).cur + crate::encoding::char_bytes(c).len(),
        (key == Key::Ctrl('a') || key == Key::Home) ==> final(p).input == old(p).input && final(p).cur == 0,
        (key == Key::Ctrl('e') || key == Key::End) ==> final(p).input == old(p).input && final(p).cur == encode_utf8(old(p).input@).len(),
        key == Key::Ctrl('k') ==> encode_utf8(final(p).input@) == encode_utf8(old(p).input@).take(old(p).cur as int),
{
    let ib = string_bytes(&p.input);
    let len = ib.len();
    let cur = p.cur;
    proof {
        is_char_boundary_start_end_of_seq(ib@);
        lemma_boundary_byte(ib@, 0);
    }
    match key {
        Key::Char(c) => {
            let mut v = bytes_sub(&ib, 0, cur);
            crate::encoding::push_char(&mut v, c);
            let rest = bytes_sub(&ib, cur, len);
            v.extend_from_slice(rest.as_slice());
            let vl = v.len();
            proof {
                crate::encoding::lemma_encode_single(c);
                encode_utf8_valid_utf8(seq![c]);
                lemma_splice_boundary(ib@, cur as int, crate::encoding::char_bytes(c), cur as int);
                assert(v@ =~= crate::text::spliced(ib@, cur as int, crate::encoding::char_bytes(c)));
            }
            p.input = bytes_to_string(v);
            p.cur = cur + crate::encoding::char_len(c);
        },
        Key::Backspace => {
            if cur > 0 {
                let pb = floor_boundary(&ib, cur - 1);
                let mut v = bytes_sub(&ib, 0, pb);
                let rest = bytes_sub(&ib, cur, len);
                v.extend_from_slice(rest.as_slice());
                proof {
                    crate::encoding::lemma_cut_boundary(ib@, pb as int, cur as int, pb as int);
                    assert(v@ =~= crate::text::cut(ib@, pb as int, cur as int));
                }
                p.input = bytes_to_string(v);
                p.cur = pb;
            }
        },
        Key::Ctrl('d') | Key::Delete => {
            if cur < len {
                let nb = ceil_boundary(&ib, cur + 1);
                let mut v = bytes_sub(&ib, 0, cur);
                let rest = bytes_sub(&ib, nb, len);
                v.extend_from_slice(rest.as_slice());
                proof {
                    crate::encoding::lemma_cut_boundary(ib@, cur as int, nb as int, cur as int);
                    assert(v@ =~= crate::text::cut(ib@, cur as int, nb as int));
                }
                p.input = bytes_to_string(v);
            }
        },
        Key::Ctrl('a') | Key::Home => {
            p.cur = 0;
        },
        Key::Ctrl('e') | Key::End => {
            p.cur = len;
        },
        Key::Ctrl('f') | Key::Right => {
            if cur < len {
                p.cur = ceil_boundary(&ib, cur + 1);
            }
        },
        Key::Ctrl('b') | Key::Left => {
            if cur > 0 {
                p.cur = floor_boundary(&ib, cur - 1);
            }
        },
        Key::Ctrl('k') => {
            let v = bytes_sub(&ib, 0, cur);
            proof {
                crate::encoding::lemma_sub_boundary(ib@, 0, cur as int, cur as int);
                assert(v@ =~= ib@.take(cur as int));
            }
            p.input = bytes_to_string(v);
        },
        _ => {},
    }
}

/// `c` without its first `strip` bytes, when they end at a boundary of it.
fn tail_from(c: &String, strip: usize) -> (r: String)
    ensures
        ({
            let b = encode_utf8(c@);
            if strip <= b.len() && is_char_boundary(b, strip as int) {
                encode_utf8(r@) == b.subrange(strip as int, b.len() as int)
            } else {
                r@ == c@
            }
        }),
{
    let cb = string_bytes(c);
    let n = cb.len();
    if strip <= n && ceil_boundary(&cb, strip) == strip {
        let v = bytes_sub(&cb, strip, n);
        proof {
            is_char_boundary_start_end_of_seq(cb@);
            crate::encoding::lemma_sub_boundary(cb@, strip as int, n as int, strip as int);
        }
        bytes_to_string(v)
    } else {
        c.clone()
    }
}

/// The bytes of candidate `c` without its first `strip` bytes (all of it when that
/// would split a character).
pub open spec fn tail_bytes(c: Seq<char>, strip: int) -> Seq<u8> {
    let b = encode_utf8(c);
    if 0 <= strip <= b.len() && is_char_boundary(b, strip) {
        b.subrange(strip, b.len() as int)
    } else {
        b
    }
}

/// The bytes of the candidates' tails side by side, two spaces apart.
pub open spec fn tails_bytes(cs: Seq<Seq<char>>, strip: int) -> Seq<u8>
    decreases cs.len(),
{
    if cs.len() == 0 {
        Seq::empty()
    } else if cs.len() == 1 {
        tail_bytes(cs[0], strip)
    } else {
        tails_bytes(cs.drop_last(), strip) + encode_utf8("  "@) + tail_bytes(cs.last(), strip)
    }
}

/// The texts of `v`.
pub open spec fn texts(v: Seq<String>) -> Seq<Seq<char>> {
    v.map_values(|s: String| s@)
}

/// The completion candidates shown side by side, each without its first `strip`
/// bytes.
fn join_tails(cands: &Vec<String>, strip: usize) -> (r: String)
    ensures
        encode_utf8(r@) == tails_bytes(texts(cands@), strip as int),
{
    let mut v: Vec<u8> = Vec::new();
    let mut i: usize = 0;
    while i < cands.len()
        invariant
            valid_utf8(v@),
            i <= cands@.len(),
            v@ == tails_bytes(texts(cands@).take(i as int), strip as int),
        decreases cands@.len() - i,
    {
        let ghost v00 = v@;
        if i > 0 {
            let ghost vs = v@;
            push_str(&mut v, "  ");
            proof {
                encode_utf8_valid_utf8("  "@);
                valid_utf8_concat(vs, encode_utf8("  "@));
            }
        }
        let t = tail_from(&cands[i], strip);
        let ghost v0 = v@;
        push_str(&mut v, t.as_str());
        proof {
            encode_utf8_valid_utf8(t@);
            valid_utf8_concat(v0, encode_utf8(t@));
            let cs = texts(cands@);
            assert(cs.take(i + 1).drop_last() =~= cs.take(i as int));
            assert(cs.take(i + 1).last() == cands@[i as int]@);
            assert(encode_utf8(t@) == tail_bytes(cands@[i as int]@, strip as int));
            if i == 0 {
                assert(v@ =~= tails_bytes(cs.take(1), strip as int));
            } else {
                assert(v@ =~= v00 + encode_utf8("  "@) + tail_bytes(cands@[i as int]@, strip as int));
            }
        }
        i = i + 1;
    }
    proof {
        assert(texts(cands@).take(cands@.len() as int) =~= texts(cands@));
    }
    bytes_to_string(v)
}

/// `l` is the longest common prefix of `items`.
pub open spec fn is_lcp(l: Seq<char>, items: Seq<Seq<char>>) -> bool {
    &&& forall|j: int| 0 <= j < items.len() ==> is_prefix(l, #[trigger] items[j])
    &&& forall|k: int|
        #![trigger items[0].take(k)]
        l.len() < k <= items[0].len() ==> exists|j: int| 0 <= j < items.len() && !is_prefix(items[0].take(k), #[trigger] items[j])
}

/// What completing `p` from the candidates `cs`, whose longest common prefix is `l`,
/// leaves in `q`: the line becomes `l` when that is longer; otherwise a sole candidate
/// is reported as such, and several are listed (each `strip` bytes shorter).
pub open spec fn completion_done(p: Prompt, q: Prompt, l: Seq<char>, cs: Seq<Seq<char>>, strip: int) -> bool {
    &&& q.label == p.label
    &&& q.yes_no == p.yes_no
    &&& q.action == p.action
    &&& if encode_utf8(l).len() > encode_utf8(p.input@).len() {
        q.input@ == l && q.cur == encode_utf8(l).len() && q.matches@.len() == 0
    } else if cs.len() == 1 {
        q.matches@ == "[Sole completion]"@ && q.input == p.input && q.cur == p.cur
    } else {
        encode_utf8(q.matches@) == tails_bytes(cs, strip) && q.input == p.input && q.cur == p.cur
    }
}

/// The names of the buffers of `bs` that start with `pre`, in order.
pub open spec fn names_with_prefix(bs: Seq<Buffer>, pre: Seq<char>) -> Seq<Seq<char>>
    decreases bs.len(),
{
    if bs.len() == 0 {
        Seq::empty()
    } else {
        let r = names_with_prefix(bs.drop_last(), pre);
        if is_prefix(pre, bs.last().name@) {
            r.push(bs.last().name@)
        } else {
            r
        }
    }
}

/// `head` followed by each primitive name among the first `i` that starts with `pre`.
pub open spec fn prim_cands(head: Seq<char>, pre: Seq<char>, i: int) -> Set<Seq<char>> {
    Set::new(
        |x: Seq<char>|
            exists|j: int|
                0 <= j < i && is_prefix(pre, #[trigger] forth::prim_name_spec(j)) && x == head + forth::prim_name_spec(j),
    )
}

/// `head` followed by each of the first `k` names of `dict` that starts with `pre`.
pub open spec fn dict_cands(head: Seq<char>, pre: Seq<char>, dict: Seq<Seq<char>>, k: int) -> Set<Seq<char>> {
    Set::new(|x: Seq<char>| exists|m: int| 0 <= m < k && is_prefix(pre, #[trigger] dict[m]) && x == head + dict[m])
}

/// The lines `M-x` completion offers for a line that is `head` then the partial word
/// `pre`: `head` followed by each primitive or defined word that starts with `pre`.
pub open spec fn word_candidates(head: Seq<char>, pre: Seq<char>, dict: Seq<Seq<char>>) -> Set<Seq<char>> {
    prim_cands(head, pre, forth::PRIM_COUNT as int).union(dict_cands(head, pre, dict, dict.len() as int))
}

proof fn lemma_prim_cands_step(head: Seq<char>, pre: Seq<char>, i: int)
    requires
        0 <= i,
    ensures
        is_prefix(pre, forth::prim_name_spec(i)) ==> prim_cands(head, pre, i + 1) == prim_cands(head, pre, i).insert(
            head + forth::prim_name_spec(i),
        ),
        !is_prefix(pre, forth::prim_name_spec(i)) ==> prim_cands(head, pre, i + 1) == prim_cands(head, pre, i),
{
    let a = prim_cands(head, pre, i + 1);
    let b = prim_cands(head, pre, i);
    if is_prefix(pre, forth::prim_name_spec(i)) {
        assert forall|x: Seq<char>| a.contains(x) <==> b.insert(head + forth::prim_name_spec(i)).contains(x) by {
            if a.contains(x) {
                let j = choose|j: int|
                    0 <= j < i + 1 && is_prefix(pre, #[trigger] forth::prim_name_spec(j)) && x == head + forth::prim_name_spec(j);
                if j < i {
                    assert(b.contains(x));
                }
            }
            if b.contains(x) {
                let j = choose|j: int|
                    0 <= j < i && is_prefix(pre, #[trigger] forth::prim_name_spec(j)) && x == head + forth::prim_name_spec(j);
                assert(a.contains(x));
            }
            if x == head + forth::prim_name_spec(i) {
                assert(a.contains(x));
            }
        }
        assert(a =~= b.insert(head + forth::prim_name_spec(i)));
    } else {
        assert forall|x: Seq<char>| a.contains(x) <==> b.contains(x) by {
            if a.contains(x) {
                let j = choose|j: int|
                    0 <= j < i + 1 && is_prefix(pre, #[trigger] forth::prim_name_spec(j)) && x == head + forth::prim_name_spec(j);
                assert(j != i);
                assert(b.contains(x));
            }
            if b.contains(x) {
                let j = choose|j: int|
                    0 <= j < i && is_prefix(pre, #[trigger] forth::prim_name_spec(j)) && x == head + forth::prim_name_spec(j);
                assert(a.contains(x));
            }
        }
        assert(a =~= b);
    }
}

proof fn lemma_dict_cands_step(head: Seq<char>, pre: Seq<char>, dict: Seq<Seq<char>>, k: int)
    requires
        0 <= k < dict.len(),
    ensures
        is_prefix(pre, dict[k]) ==> dict_cands(head, pre, dict, k + 1) == dict_cands(head, pre, dict, k).insert(head + dict[k]),
        !is_prefix(pre, dict[k]) ==> dict_cands(head, pre, dict, k + 1) == dict_cands(head, pre, dict, k),
{
    let a = dict_cands(head, pre, dict, k + 1);
    let b = dict_cands(head, pre, dict, k);
    if is_prefix(pre, dict[k]) {
        assert forall|x: Seq<char>| a.contains(x) <==> b.insert(head + dict[k]).contains(x) by {
            if a.contains(x) {
                let m = choose|m: int| 0 <= m < k + 1 && is_prefix(pre, #[trigger] dict[m]) && x == head + dict[m];
                if m < k {
                    assert(b.contains(x));
                }
            }
            if b.contains(x) {
                let m = choose|m: int| 0 <= m < k && is_prefix(pre, #[trigger] dict[m]) && x == head + dict[m];
                assert(a.contains(x));
            }
            if x == head + dict[k] {
                assert(a.contains(x));
            }
        }
        assert(a =~= b.insert(head + dict[k]));
    } else {
        assert forall|x: Seq<char>| a.contains(x) <==> b.contains(x) by {
            if a.contains(x) {
                let m = choose|m: int| 0 <= m < k + 1 && is_prefix(pre, #[trigger] dict[m]) && x == head + dict[m];
                assert(m != k);
                assert(b.contains(x));
            }
            if b.contains(x) {
                let m = choose|m: int| 0 <= m < k && is_prefix(pre, #[trigger] dict[m]) && x == head + dict[m];
                assert(a.contains(x));
            }
        }
        assert(a =~= b);
    }
}

/// What TAB on the `M-x` line `p` leaves in `q`, with `dict` the defined words: the
/// last word of the line (after its last white space) is completed from the
/// primitives and defined words; the candidates are the `word_candidates`, each
/// once, in byte order, and are listed without the part of the line before that
/// word.
pub open spec fn word_completed(p: Prompt, q: Prompt, dict: Seq<Seq<char>>) -> bool {
    let w = after_last_ws_spec(p.input@) as int;
    let head = p.input@.take(w);
    exists|cs: Seq<String>|
        #![trigger text_set(cs)]
        sorted_texts(cs) && text_set(cs) == word_candidates(head, p.input@.skip(w), dict) && completed_from(
            p,
            q,
            texts(cs),
            encode_utf8(head).len() as int,
        )
}

/// What completing `p` from the candidates `cs` leaves in `q` (see
/// `completion_done`); with no candidates the line stays and "[No match]" shows.
pub open spec fn completed_from(p: Prompt, q: Prompt, cs: Seq<Seq<char>>, strip: int) -> bool {
    if cs.len() == 0 {
        q.label == p.label && q.yes_no == p.yes_no && q.action == p.action && q.input == p.input && q.cur == p.cur
            && q.matches@ == "[No match]"@
    } else {
        exists|l: Seq<char>| #![trigger is_lcp(l, cs)] is_lcp(l, cs) && completion_done(p, q, l, cs, strip)
    }
}

/// What completing the path typed in `p` from the paths `cs` leaves in `q`; each
/// candidate is listed without the directory part the line already shows (up to its
/// last `/`).
pub open spec fn path_completed(p: Prompt, q: Prompt, cs: Seq<Seq<char>>) -> bool {
    completed_from(p, q, cs, encode_utf8(p.input@.take(after_last_slash_spec(p.input@) as int)).len() as int)
}

/// Completes the prompt's input from `cands`: to their longest common prefix when
/// that is longer, or else lists them (`strip` bytes shorter).
fn finish_completion(p: &mut Prompt, cands: Vec<String>, strip: usize)
    requires
        prompt_ok(*old(p)),
        old(p).matches@.len() == 0,
    ensures
        prompt_ok(*final(p)),
        final(p).label == old(p).label,
        final(p).yes_no == old(p).yes_no,
        final(p).action == old(p).action,
        completed_from(*old(p), *final(p), texts(cands@), strip as int),
{
    if cands.len() == 0 {
        p.matches = "[No match]".to_string();
        return;
    }
    let sl = cands.as_slice();
    let lcp = common_prefix(sl);
    proof {
        let cs = texts(cands@);
        assert(sl@ == cands@);
        assert forall|k: int|
            #![trigger cs[0].take(k)]
            lcp@.len() < k <= cs[0].len() implies exists|j: int| 0 <= j < cs.len() && !is_prefix(cs[0].take(k), #[trigger] cs[j]) by {
            assert(cs[0] == cands@[0]@);
            let j = choose|j: int| 0 <= j < cands@.len() && !is_prefix(cands@[0]@.take(k), #[trigger] cands@[j]@);
            assert(cs[j] == cands@[j]@);
        }
        assert forall|j: int| 0 <= j < cs.len() implies is_prefix(lcp@, #[trigger] cs[j]) by {
            assert(cs[j] == cands@[j]@);
        }
        assert(is_lcp(lcp@, cs));
    }
    let ll = string_bytes(&lcp).len();
    let il = string_bytes(&p.input).len();
    if ll > il {
        p.input = lcp;
        p.cur = ll;
        proof {
            is_char_boundary_start_end_of_seq(encode_utf8(p.input@));
        }
    } else if cands.len() == 1 {
        p.matches = "[Sole completion]".to_string();
    } else {
        p.matches = join_tails(&cands, strip);
    }
}

/// How many characters of `cs` come up to and including its last white-space
/// character (none: zero).
pub open spec fn after_last_ws_spec(cs: Seq<char>) -> nat
    decreases cs.len(),
{
    if cs.len() == 0 {
        0
    } else if crate::encoding::is_ws_spec(cs.last()) {
        cs.len()
    } else {
        after_last_ws_spec(cs.drop_last())
    }
}

proof fn lemma_after_last_ws_bound(cs: Seq<char>)
    ensures
        after_last_ws_spec(cs) <= cs.len(),
    decreases cs.len(),
{
    if cs.len() > 0 {
        lemma_after_last_ws_bound(cs.drop_last());
    }
}

/// How many characters of `cs` come up to and including its last `/` (none: zero).
pub open spec fn after_last_slash_spec(cs: Seq<char>) -> nat
    decreases cs.len(),
{
    if cs.len() == 0 {
        0
    } else if cs.last() == '/' {
        cs.len()
    } else {
        after_last_slash_spec(cs.drop_last())
    }
}

/// The byte just past the last white-space character of `s`, or zero.
fn after_last_ws(s: &String) -> (r: usize)
    ensures
        r <= encode_utf8(s@).len(),
        is_char_boundary(encode_utf8(s@), r as int),
        r == encode_utf8(s@.take(after_last_ws_spec(s@) as int)).len(),
{
    let cs = str_chars(s.as_str());
    let mut i = cs.len();
    proof {
        assert(cs@.take(i as int) =~= cs@);
    }
    while i > 0 && !crate::encoding::is_ws(cs[i - 1])
        invariant
            i <= cs@.len(),
            after_last_ws_spec(cs@.take(i as int)) == after_last_ws_spec(cs@),
        decreases i,
    {
        proof {
            assert(cs@.take(i as int).drop_last() =~= cs@.take(i - 1));
        }
        i = i - 1;
    }
    proof {
        if i > 0 {
            assert(cs@.take(i as int).last() == cs@[i - 1]);
        }
    }
    proof {
        encode_utf8_valid_utf8(s@);
        decode_utf8_encode_utf8(encode_utf8(s@));
        encode_utf8_decode_utf8(s@);
        crate::encoding::lemma_prefix_boundary(encode_utf8(s@), i as int);
    }
    prefix_bytes(&cs, i)
}

/// The byte just past the last `/` of `s`, or zero.
fn after_last_slash(s: &String) -> (r: usize)
    ensures
        r <= encode_utf8(s@).len(),
        is_char_boundary(encode_utf8(s@), r as int),
        r == encode_utf8(s@.take(after_last_slash_spec(s@) as int)).len(),
{
    let cs = str_chars(s.as_str());
    let mut i = cs.len();
    proof {
        assert(cs@.take(i as int) =~= cs@);
    }
    while i > 0 && cs[i - 1] != '/'
        invariant
            i <= cs@.len(),
            after_last_slash_spec(cs@.take(i as int)) == after_last_slash_spec(cs@),
        decreases i,
    {
        proof {
            assert(cs@.take(i as int).drop_last() =~= cs@.take(i - 1));
        }
        i = i - 1;
    }
    proof {
        if i > 0 {
            assert(cs@.take(i as int).last() == cs@[i - 1]);
        }
    }
    proof {
        encode_utf8_valid_utf8(s@);
        decode_utf8_encode_utf8(encode_utf8(s@));
        encode_utf8_decode_utf8(s@);
        crate::encoding::lemma_prefix_boundary(encode_utf8(s@), i as int);
    }
    prefix_bytes(&cs, i)
}

/// The number of bytes the first `n` characters of `cs` take.
fn prefix_bytes(cs: &Vec<char>, n: usize) -> (r: usize)
    requires
        n <= cs@.len(),
        encode_utf8(cs@).len() <= usize::MAX,
    ensures
        r == encode_utf8(cs@.take(n as int)).len(),
{
    let mut at: usize = 0;
    let mut j: usize = 0;
    proof {
        assert(cs@.take(0) =~= Seq::<char>::empty());
    }
    while j < n
        invariant
            j <= n <= cs@.len(),
            encode_utf8(cs@).len() <= usize::MAX,
            at == encode_utf8(cs@.take(j as int)).len(),
        decreases n - j,
    {
        proof {
            assert(cs@.take(j + 1) =~= cs@.take(j as int).push(cs@[j as int]));
            crate::encoding::lemma_encode_push(cs@.take(j as int), cs@[j as int]);
            assert(cs@ =~= cs@.take(j + 1) + cs@.skip(j + 1));
            crate::encoding::lemma_encode_concat(cs@.take(j + 1), cs@.skip(j + 1));
        }
        at = at + crate::encoding::char_len(cs[j]);
        j = j + 1;
    }
    at
}


impl Editor {
    /// TAB in a prompt: completes buffer names, Forth words, or (through the caller)
    /// file paths.
    fn complete_prompt(&mut self, p: &mut Prompt)
        requires
            old(self).wf(),
            old(self).mode is Edit,
            prompt_ok(*old(p)),
            old(p).matches@.len() == 0,
        ensures
            final(self).wf(),
            final(self).mode is Edit,
            prompt_ok(*final(p)),
            final(p).label == old(p).label,
            final(p).yes_no == old(p).yes_no,
            final(p).action == old(p).action,
            final(self).buffers == old(self).buffers,
            final(self).current == old(self).current,
            final(self).echo == old(self).echo,
            final(self).quit == old(self).quit,
            (old(p).action is FindFile || old(p).action is WriteAs) ==> (final(self).request matches Some(Request::Complete(t))
                && t == old(p).input) && *final(p) == *old(p),
            old(p).action is SwitchBuffer ==> completed_from(*old(p), *final(p), names_with_prefix(old(self).buffers@, old(p).input@), 0),
            old(p).action is Eval ==> word_completed(*old(p), *final(p), old(self).vm.dict()),
    {
        match &p.action {
            PromptAction::SwitchBuffer => {
                let input = str_chars(p.input.as_str());
                let mut cands: Vec<String> = Vec::new();
                let mut i: usize = 0;
                proof {
                    assert(texts(cands@) =~= names_with_prefix(self.buffers@.take(0), input@));
                }
                while i < self.buffers.len()
                    invariant
                        i <= self.buffers@.len(),
                        input@ == p.input@,
                        texts(cands@) == names_with_prefix(self.buffers@.take(i as int), input@),
                    decreases self.buffers@.len() - i,
                {
                    let name = str_chars(self.buffers[i].name.as_str());
                    let ghost c0 = cands@;
                    if chars_start_with(&name, &input) {
                        let nm = self.buffers[i].name.clone();
                        cands.push(nm);
                    }
                    proof {
                        let bs = self.buffers@.take(i + 1);
                        assert(bs.drop_last() =~= self.buffers@.take(i as int));
                        assert(bs.last() == self.buffers@[i as int]);
                        assert(texts(cands@) =~= names_with_prefix(bs, input@));
                    }
                    i = i + 1;
                }
                proof {
                    assert(self.buffers@.take(self.buffers@.len() as int) =~= self.buffers@);
                }
                finish_completion(p, cands, 0);
            },
            PromptAction::FindFile | PromptAction::WriteAs => {
                self.request = Some(Request::Complete(p.input.clone()));
            },
            PromptAction::Eval => {
                let strip = after_last_ws(&p.input);
                let ib = string_bytes(&p.input);
                let len = ib.len();
                proof {
                    is_char_boundary_start_end_of_seq(ib@);
                    encode_utf8_valid_utf8(p.input@);
                    crate::encoding::lemma_sub_boundary(ib@, 0, strip as int, strip as int);
                    crate::encoding::lemma_sub_boundary(ib@, strip as int, len as int, strip as int);
                }
                let head = bytes_to_string(bytes_sub(&ib, 0, strip));
                let prefix = crate::encoding::decode_all(&bytes_sub(&ib, strip, len));
                let ghost w = after_last_ws_spec(p.input@) as int;
                proof {
                    let cs = p.input@;
                    lemma_after_last_ws_bound(cs);
                    assert(cs =~= cs.take(w) + cs.skip(w));
                    crate::encoding::lemma_encode_concat(cs.take(w), cs.skip(w));
                    assert(ib@.subrange(0, strip as int) =~= encode_utf8(cs.take(w)));
                    assert(ib@.subrange(strip as int, len as int) =~= encode_utf8(cs.skip(w)));
                    encode_utf8_decode_utf8(cs.take(w));
                    encode_utf8_decode_utf8(cs.skip(w));
                    assert(prim_cands(head@, prefix@, 0) =~= Set::<Seq<char>>::empty());
                }
                let mut cands: Vec<String> = Vec::new();
                let mut i: usize = 0;
                while i < forth::PRIM_COUNT
                    invariant
                        sorted_texts(cands@),
                        i <= forth::PRIM_COUNT,
                        text_set(cands@) == prim_cands(head@, prefix@, i as int),
                    decreases forth::PRIM_COUNT - i,
                {
                    let n = forth::prim_name(i);
                    proof {
                        lemma_prim_cands_step(head@, prefix@, i as int);
                    }
                    if chars_start_with(&n, &prefix) {
                        let ns = string_of(&n);
                        insert_sorted(&mut cands, forth::join2(head.as_str(), ns.as_str()));
                    }
                    i = i + 1;
                }
                let names = self.vm.names();
                let ghost dict = self.vm.dict();
                let mut k: usize = 0;
                proof {
                    assert(dict_cands(head@, prefix@, dict, 0) =~= Set::<Seq<char>>::empty());
                    assert(prim_cands(head@, prefix@, forth::PRIM_COUNT as int).union(dict_cands(head@, prefix@, dict, 0))
                        =~= prim_cands(head@, prefix@, forth::PRIM_COUNT as int));
                }
                while k < names.len()
                    invariant
                        sorted_texts(cands@),
                        k <= names@.len(),
                        names@.len() == dict.len(),
                        forall|j: int| 0 <= j < names@.len() ==> #[trigger] names@[j]@ == dict[j],
                        text_set(cands@) == prim_cands(head@, prefix@, forth::PRIM_COUNT as int).union(
                            dict_cands(head@, prefix@, dict, k as int),
                        ),
                    decreases names@.len() - k,
                {
                    let n = str_chars(names[k].as_str());
                    proof {
                        lemma_dict_cands_step(head@, prefix@, dict, k as int);
                        assert(n@ == dict[k as int]);
                    }
                    let ghost before = text_set(cands@);
                    if chars_start_with(&n, &prefix) {
                        insert_sorted(&mut cands, forth::join2(head.as_str(), names[k].as_str()));
                    }
                    proof {
                        let pc = prim_cands(head@, prefix@, forth::PRIM_COUNT as int);
                        if is_prefix(prefix@, dict[k as int]) {
                            assert(pc.union(dict_cands(head@, prefix@, dict, k as int)).insert(head@ + dict[k as int]) =~= pc.union(
                                dict_cands(head@, prefix@, dict, k + 1),
                            ));
                        }
                    }
                    k = k + 1;
                }
                finish_completion(p, cands, strip);
            },
            _ => {
                p.matches = "[No completion]".to_string();
            },
        }
    }

    /// The paths that complete the prompt's input, as the caller found them.
    pub fn completed(&mut self, cands: Vec<String>)
        requires
            old(self).wf(),
        ensures
            final(self).wf(),
            final(self).buffers == old(self).buffers,
            final(self).current == old(self).current,
            final(self).quit == old(self).quit,
            !(old(self).mode is Prompt) ==> final(self).mode == old(self).mode,
            old(self).mode is Prompt ==> (final(self).mode matches Mode::Prompt(q) && path_completed(
                old(self).mode->Prompt_0,
                q,
                texts(cands@),
            )),
    {
        let mut m = Mode::Edit;
        std::mem::swap(&mut self.mode, &mut m);
        match m {
            Mode::Prompt(p) => {
                let mut p = p;
                let strip = after_last_slash(&p.input);
                p.matches = String::new();
                finish_completion(&mut p, cands, strip);
                self.mode = Mode::Prompt(p);
            },
            other => {
                self.mode = other;
            },
        }
    }

    /// Acts on a submitted prompt answer.
    fn prompt_submit(&mut self, action: PromptAction, input: String)
        requires
            old(self).wf(),
            old(self).mode is Edit,
        ensures
            final(self).wf(),
            submit_effect(*old(self), *final(self), action, input),
    {
        match action {
            PromptAction::FindFile => {
                if input.as_str().is_empty() {
                    self.echo = "Quit".to_string();
                } else {
                    self.request = Some(Request::Open(input));
                }
            },
            PromptAction::WriteAs => {
                if input.as_str().is_empty() {
                    self.echo = "Quit".to_string();
                } else {
                    let c = self.current;
                    proof {
                        assert(view_ok(self.buffers@[c as int]));
                        self.buffers@[c as int].lemma_wf();
                    }
                    let content = self.buffers[c].text.all();
                    let mode = self.buffers[c].mode_bits;
                    self.request = Some(Request::WriteAs { path: input, content, mode });
                }
            },
            PromptAction::GotoLine => {
                let cs = str_chars(input.as_str());
                let (a, b) = forth::trim_chars(&cs);
                proof {
                    forth::lemma_trimmed(cs@, a as int, b as int);
                }
                let t = forth::chars_sub(&cs, a, b);
                let ts = string_of(&t);
                let tb = string_bytes(&ts);
                match crate::encoding::parse_uint(tb.as_slice()) {
                    Some(line) => {
                        if line >= 1 {
                            let c = self.current;
                            proof {
                                assert(view_ok(self.buffers@[c as int]));
                                self.buffers@[c as int].lemma_wf();
                            }
                            let count = self.buffers[c].text.line_count();
                            let target = if line - 1 < count - 1 { line - 1 } else { count - 1 };
                            let ls = self.buffers[c].text.line_start(target);
                            proof {
                                crate::editor::lemma_line_start_boundary(self.buffers@[c as int].text@, target as int, ls as int);
                            }
                            let ghost before = self.buffers@;
                            self.buffers[c].goto(ls);
                            proof {
                                assert(self.buffers@ =~= before.update(c as int, self.buffers@[c as int]));
                                self.lemma_cur_updated(before, c as int);
                            }
                        } else {
                            self.echo = "Invalid line number".to_string();
                        }
                    },
                    None => {
                        self.echo = "Invalid line number".to_string();
                    },
                }
            },
            PromptAction::SwitchBuffer => {
                let n = self.buffers.len();
                let idx = if input.as_str().is_empty() {
                    Some(if self.last_buffer < n - 1 { self.last_buffer } else { n - 1 })
                } else {
                    let mut found: Option<usize> = None;
                    let mut i: usize = 0;
                    while i < n
                        invariant
                            n == self.buffers@.len(),
                            i <= n,
                            found matches Some(k) ==> k < i && self.buffers@[k as int].name@ == input@ && forall|j: int|
                                0 <= j < k ==> (#[trigger] self.buffers@[j]).name@ != input@,
                            found is None ==> forall|j: int| 0 <= j < i ==> (#[trigger] self.buffers@[j]).name@ != input@,
                        decreases n - i,
                    {
                        if found.is_none() && self.buffers[i].name == input {
                            found = Some(i);
                        }
                        i = i + 1;
                    }
                    found
                };
                match idx {
                    Some(i) => {
                        self.last_buffer = self.current;
                        self.current = i;
                    },
                    None => {
                        self.echo = forth::join2("No buffer named ", input.as_str());
                    },
                }
            },
            PromptAction::KillBufferConfirm => self.kill_current_buffer(),
            PromptAction::QuitConfirm => {
                self.quit = true;
            },
            PromptAction::ReplaceFrom => {
                if input.as_str().is_empty() {
                    self.echo = "Quit".to_string();
                } else {
                    let label = forth::join3("Query replace ", input.as_str(), " with: ");
                    self.start_prompt(PromptAction::ReplaceTo { from: input }, label);
                }
            },
            PromptAction::ReplaceTo { from } => self.start_replace(from, input),
            PromptAction::Eval => {
                if !input.as_str().is_empty() {
                    self.eval_forth(input.as_str());
                }
            },
        }
    }

    /// A key while a prompt is open.
    fn prompt_key(&mut self, p: Prompt, key: Key)
        requires
            old(self).wf(),
            old(self).mode is Edit,
            prompt_ok(p),
        ensures
            final(self).wf(),
            prompt_effect(*old(self), *final(self), p, key),
    {
        let mut p = p;
        if p.yes_no {
            match key {
                Key::Char('y') => {
                    let y = "y".to_string();
                    let ghost yv = y;
                    self.prompt_submit(p.action, y);
                    proof {
                        reveal_strlit("y");
                        assert(yv@ == "y"@);
                    }
                },
                Key::Char('n') | Key::Ctrl('g') => {
                    self.echo = "Quit".to_string();
                },
                _ => {
                    self.mode = Mode::Prompt(p);
                },
            }
            return;
        }
        p.matches = String::new();
        match key {
            Key::Enter => {
                self.prompt_submit(p.action, p.input);
                return;
            },
            Key::Ctrl('g') => {
                self.echo = "Quit".to_string();
                return;
            },
            Key::Tab => self.complete_prompt(&mut p),
            _ => edit_input(&mut p, key),
        }
        self.mode = Mode::Prompt(p);
    }

    /// Handles one key: it goes to the open prompt, search or query-replace, or else
    /// to editing.
    pub fn handle_key(&mut self, key: Key)
        requires
            old(self).wf(),
        ensures
            final(self).wf(),
            old(self).mode is Edit ==> edit_effect(*old(self), *final(self), key),
            old(self).mode is Prompt ==> prompt_effect(*old(self), *final(self), old(self).mode->Prompt_0, key),
            old(self).mode is Search ==> search_effect(*old(self), *final(self), old(self).mode->Search_0, key),
            old(self).mode is Replace ==> replace_effect(*old(self), *final(self), old(self).mode->Replace_0, key),
    {
        self.echo = String::new();
        let mut m = Mode::Edit;
        std::mem::swap(&mut self.mode, &mut m);
        let ghost pre = *self;
        match m {
            Mode::Edit => {
                self.edit_key(key);
                proof {
                    lemma_edit_effect_from(*old(self), pre, *self, key);
                }
            },
            Mode::Prompt(p) => {
                let ghost p0 = p;
                self.prompt_key(p, key);
                proof {
                    if p0.yes_no && key == Key::Char('y') {
                        let y = choose|y: String| y@ == "y"@ && submit_effect(pre, *self, p0.action, y);
                        assert(submit_effect(*old(self), *self, p0.action, y));
                    }
                }
            },
            Mode::Search(s) => {
                self.search_key(s, key);
                proof {
                    if !(key matches Key::Char(_) || key == Key::Backspace || key == Key::Ctrl('s') || key == Key::Ctrl('r')
                        || key == Key::Ctrl('g') || key == Key::Enter) {
                        lemma_edit_effect_from(*old(self), pre, *self, key);
                    }
                }
            },
            Mode::Replace(r) => self.replace_key(r, key),
        }
    }

    /// Switches to the buffer visiting `canon`, if there is one; true when it did.
    pub fn find_file(&mut self, canon: &str) -> (r: bool)
        requires
            bufs_ok(old(self).buffers@),
        ensures
            bufs_ok(final(self).buffers@),
            final(self).buffers == old(self).buffers,
            final(self).mode == old(self).mode,
            r <==> exists|i: int| 0 <= i < old(self).buffers@.len() && visits(#[trigger] old(self).buffers@[i], canon@),
            r ==> final(self).current < final(self).buffers@.len() && visits(final(self).cur(), canon@)
                && final(self).last_buffer == old(self).current,
            !r ==> final(self).current == old(self).current && final(self).last_buffer == old(self).last_buffer,
    {
        let target = canon.to_string();
        let mut i: usize = 0;
        while i < self.buffers.len()
            invariant
                i <= self.buffers@.len(),
                target@ == canon@,
                self.buffers == old(self).buffers,
                self.mode == old(self).mode,
                self.current == old(self).current,
                self.last_buffer == old(self).last_buffer,
                bufs_ok(self.buffers@),
                forall|j: int| 0 <= j < i ==> !visits(#[trigger] self.buffers@[j], canon@),
            decreases self.buffers@.len() - i,
        {
            let hit = match &self.buffers[i].path {
                Some(p) => *p == target,
                None => false,
            };
            if hit {
                self.last_buffer = self.current;
                self.current = i;
                return true;
            }
            i = i + 1;
        }
        false
    }
}


impl Editor {
    /// What reading the file at `path` (canonically `canon`) came to: a buffer for
    /// it, a buffer for a new file, or a message.
    pub fn file_loaded(&mut self, path: &str, canon: String, outcome: OpenOutcome)
        requires
            bufs_ok(old(self).buffers@),
        ensures
            bufs_ok(final(self).buffers@),
            final(self).mode == old(self).mode,
            final(self).vm == old(self).vm,
            final(self).kills == old(self).kills,
            final(self).kill_idx == old(self).kill_idx,
            final(self).rows == old(self).rows,
            final(self).cols == old(self).cols,
            final(self).quit == old(self).quit,
            (outcome matches OpenOutcome::Loaded(l) && encode_utf8(l.content@).len() <= TEXT_MAX) ==> final(self).buffers@.len()
                == old(self).buffers@.len() + 1 && final(self).current == old(self).buffers@.len() && final(self).cur().name@
                == buffer_name_spec(outcome->Loaded_0.path@) && final(self).cur().path == Some(outcome->Loaded_0.path)
                && final(self).cur().text@ == encode_utf8(outcome->Loaded_0.content@),
            outcome is NotFound ==> final(self).buffers@.len() == old(self).buffers@.len() + 1 && final(self).current
                == old(self).buffers@.len() && final(self).cur().name@ == buffer_name_spec(canon@) && final(self).cur().path
                == Some(canon) && final(self).cur().text@.len() == 0 && final(self).echo@ == "(New file)"@,
            outcome matches OpenOutcome::Failed(e) ==> final(self).buffers == old(self).buffers && final(self).echo@ == path@
                + ": "@ + e@,
    {
        match outcome {
            OpenOutcome::Loaded(l) => {
                let size = string_bytes(&l.content).len();
                if size > TEXT_MAX {
                    self.echo = forth::join2(path, ": file too large");
                    return;
                }
                let name = buffer_name(l.path.as_str());
                let b = Buffer::new(name, Some(l.path), l.content, l.mode);
                self.add_buffer(b);
            },
            OpenOutcome::NotFound => {
                let name = buffer_name(canon.as_str());
                proof {
                    assert(encode_utf8(Seq::<char>::empty()) =~= Seq::<u8>::empty());
                }
                let b = Buffer::new(name, Some(canon), String::new(), None);
                self.add_buffer(b);
                self.echo = "(New file)".to_string();
            },
            OpenOutcome::Failed(e) => {
                self.echo = forth::join3(path, ": ", e.as_str());
            },
        }
    }

    /// How writing the current buffer to its file went.
    pub fn saved(&mut self, result: Result<(), String>)
        requires
            old(self).wf(),
        ensures
            final(self).wf(),
            final(self).current == old(self).current,
            final(self).buffers@.len() == old(self).buffers@.len(),
            final(self).cur().text == old(self).cur().text,
            result is Ok ==> !final(self).cur().modified && final(self).echo@ == "Wrote "@ + match old(self).cur().path {
                Some(p) => p@,
                None => Seq::empty(),
            },
            result matches Err(e) ==> final(self).buffers == old(self).buffers && final(self).echo@ == "Save failed: "@ + e@,
    {
        match result {
            Ok(()) => {
                let c = self.current;
                proof {
                    assert(view_ok(self.buffers@[c as int]));
                }
                let p = match &self.buffers[c].path {
                    Some(p) => p.clone(),
                    None => String::new(),
                };
                let ghost before = self.buffers@;
                self.buffers[c].mark_saved();
                proof {
                    assert(self.buffers@ =~= before.update(c as int, self.buffers@[c as int]));
                    self.lemma_cur_updated(before, c as int);
                }
                self.echo = forth::join2("Wrote ", p.as_str());
            },
            Err(e) => {
                self.echo = forth::join2("Save failed: ", e.as_str());
            },
        }
    }

    /// How writing the current buffer to `canon` went; on success the buffer visits
    /// that file from now on.
    pub fn written_as(&mut self, canon: String, result: Result<(), String>)
        requires
            old(self).wf(),
        ensures
            final(self).wf(),
            final(self).current == old(self).current,
            final(self).buffers@.len() == old(self).buffers@.len(),
            final(self).cur().text == old(self).cur().text,
            result is Ok ==> !final(self).cur().modified && final(self).cur().path == Some(canon) && final(self).cur().name@
                == buffer_name_spec(canon@) && final(self).echo@ == "Wrote "@ + canon@,
            result matches Err(e) ==> final(self).buffers == old(self).buffers && final(self).echo@ == "Save failed: "@ + e@,
    {
        match result {
            Ok(()) => {
                let c = self.current;
                proof {
                    assert(view_ok(self.buffers@[c as int]));
                }
                let name = buffer_name(canon.as_str());
                let shown = canon.clone();
                let ghost before = self.buffers@;
                self.buffers[c].set_file(name, canon);
                proof {
                    assert(self.buffers@ =~= before.update(c as int, self.buffers@[c as int]));
                    self.lemma_cur_updated(before, c as int);
                }
                self.echo = forth::join2("Wrote ", shown.as_str());
            },
            Err(e) => {
                self.echo = forth::join2("Save failed: ", e.as_str());
            },
        }
    }
}


/// The first `n` bytes of `v`.
pub(crate) fn bytes_prefix(v: &Vec<u8>, n: usize) -> (r: Vec<u8>)
    requires
        n <= v@.len(),
    ensures
        r@ == v@.take(n as int),
{
    let r = bytes_sub(v, 0, n);
    assert(r@ =~= v@.take(n as int));
    r
}

} // verus!
