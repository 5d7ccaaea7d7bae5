# edy

A small Emacs-style terminal text editor with a Forth extension language. The
editing core is a Verus library (`src/`); the program around it (`app/`) does
the terminal and file I/O.

## Library (`src/`, verified)

| module     | what it holds |
|------------|---------------|
| `encoding` | UTF-8 helpers, byte search, integer parsing and printing |
| `text`     | the piece table: insert, delete, slices, line lookup |
| `width`    | display widths of characters and columns of offsets |
| `term`     | key decoding from terminal bytes; raw-mode settings |
| `sys`      | the terminal settings record |
| `forth`    | the Forth VM: lexer, compiler, interpreter, primitives |
| `editor`   | buffers: cursor, mark, undo history, motions |
| `session`  | the editor: buffer list, kill ring, key map, prompts, search, query-replace |
| `ui`       | the frame the screen shows |

The main contracts: every buffer operation keeps the buffer well formed (cursor
and mark on character boundaries, history consistent with the text); undo
reverts exactly the latest group of edits (`editor::lemma_undo_*`);
`Editor::handle_key` keeps the editor well formed and states, mode by mode, what
each key does (`session::edit_effect`, `prompt_effect`, `search_effect`,
`replace_effect`); a Forth evaluation rolls the data stack back on error; on success it
adds exactly the source's definitions and leaves what the compiler
(`forth::body_from`) and the machine's step relation (`vm_step`) give
(`Vm::evaluates_to`); `Vm::load` succeeds exactly on sources made of definitions
that compile (`forth::defs_ok`); the edits of an evaluation undo in one step
(`session::lemma_eval_undone`); typed text joins the typing just before it in
one undo group, while a newline, typing after another command, a deletion, a kill
or a yank opens a new one, and moves leave the history alone and make the next
undo start from the latest edit (`session::undo_effect`, `lemma_undo_after_typing`,
`lemma_undo_after_edit`, `lemma_undo_again_after_move`); the kill ring after C-k, M-d
and M-DEL holds the killed text, joined to the previous kill when kills follow
each other (`session::killed_into`); Forth editor words act on the current
buffer with offsets clamped and snapped to character boundaries
(`forth::host_effect`); `ui::render` produces exactly `ui::frame_spec`.

A buffer holds at most `editor::TEXT_MAX` bytes (`usize::MAX / 16`), far beyond
any real file; an insertion that would pass it leaves the buffer unchanged. The
bound keeps the offset arithmetic of the piece table free of overflow.

## Program (`app/`)

`main.rs` runs the event loop: it reads keys from the terminal, hands them to
the library, serves the library's file requests (`file.rs`) and writes the
rendered frame. `sys.rs` and `term.rs` talk to the terminal.

## Tests (`tests/`)

Ordinary Rust tests that run the library on concrete inputs.
