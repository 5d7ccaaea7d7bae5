use edy::editor::{form_at, keymap, Buffer, Cmd, Editor, Loaded, Mode, OpenOutcome, Request};
use edy::session::{completion_list, key_text, sat_add, sat_mul};
use edy::term::Key;
use edy::text::PieceTable;
use edy::ui::render;

fn editor_with(content: &str) -> Editor {
    let mut e = Editor::new();
    e.buffers.push(Buffer::new("test".into(), None, content.into(), None));
    e
}

fn press(e: &mut Editor, ks: &[Key]) {
    for &k in ks {
        e.handle_key(k);
    }
}

fn type_in(e: &mut Editor, s: &str) {
    for c in s.chars() {
        e.handle_key(if c == '\n' { Key::Enter } else { Key::Char(c) });
    }
}

#[test]
fn buffer_undo_reverts_insert() {
    let mut b = Buffer::new("b".into(), None, "abc".into(), None);
    b.new_group();
    b.insert(1, "xyz");
    assert_eq!(b.text.all(), "axyzbc");
    assert!(b.undo());
    assert_eq!(b.text.all(), "abc");
    assert_eq!(b.cursor, 0);
}

#[test]
fn buffer_undo_reverts_delete() {
    let mut b = Buffer::new("b".into(), None, "hello world".into(), None);
    b.new_group();
    let gone = b.delete(5, 11);
    assert_eq!(gone, " world");
    assert_eq!(b.text.all(), "hello");
    assert!(b.undo());
    assert_eq!(b.text.all(), "hello world");
}

#[test]
fn buffer_undo_of_undo_restores() {
    let mut b = Buffer::new("b".into(), None, "".into(), None);
    b.new_group();
    b.insert(0, "one");
    assert!(b.undo());
    assert_eq!(b.text.all(), "");
    b.break_undo_chain();
    assert!(b.undo());
    assert_eq!(b.text.all(), "one");
}

#[test]
fn buffer_nothing_to_undo() {
    let mut b = Buffer::new("b".into(), None, "x".into(), None);
    assert!(!b.undo());
    assert_eq!(b.text.all(), "x");
}

#[test]
fn buffer_delete_moves_mark_and_cursor() {
    let mut b = Buffer::new("b".into(), None, "0123456789".into(), None);
    b.cursor = 8;
    b.mark = Some(4);
    b.delete(2, 6);
    assert_eq!(b.text.all(), "016789");
    assert_eq!(b.cursor, 4);
    assert_eq!(b.mark, Some(2));
}

#[test]
fn buffer_selection_needs_active_mark() {
    let mut b = Buffer::new("b".into(), None, "abcdef".into(), None);
    b.cursor = 4;
    b.mark = Some(1);
    assert_eq!(b.selection(), None);
    b.mark_active = true;
    assert_eq!(b.selection(), Some((1, 4)));
    b.cursor = 1;
    assert_eq!(b.selection(), None);
}

#[test]
fn buffer_reframe_scrolls() {
    let mut b = Buffer::new("b".into(), None, "a\nb\nc\nd\ne\nf".into(), None);
    b.cursor = 10;
    b.reframe(3, 80);
    assert_eq!(b.top, 3);
    b.cursor = 0;
    b.reframe(3, 80);
    assert_eq!(b.top, 0);
}

#[test]
fn buffer_reframe_scrolls_sideways() {
    let mut b = Buffer::new("b".into(), None, "abcdefghijklmnop".into(), None);
    b.cursor = 12;
    b.reframe(5, 8);
    assert_eq!(b.left, 5);
}

#[test]
fn buffer_motion_over_wide_chars() {
    let mut b = Buffer::new("b".into(), None, "aδb".into(), None);
    b.forward();
    assert_eq!(b.cursor, 1);
    b.forward();
    assert_eq!(b.cursor, 3);
    b.backward();
    assert_eq!(b.cursor, 1);
    b.vertical(true);
    assert_eq!(b.cursor, 4);
    assert_eq!(b.line(), 0);
}

#[test]
fn word_motion_uses_alphanumerics() {
    let mut e = editor_with("foo, bär9 baz");
    press(&mut e, &[Key::Meta('f')]);
    assert_eq!(e.buf().cursor, 3);
    press(&mut e, &[Key::Meta('f')]);
    assert_eq!(e.buf().cursor, 10);
    press(&mut e, &[Key::Meta('b')]);
    assert_eq!(e.buf().cursor, 5);
}

#[test]
fn keymap_bindings() {
    assert_eq!(keymap(false, Key::Char('a')), Some(Cmd::Insert('a')));
    assert_eq!(keymap(false, Key::Tab), Some(Cmd::Insert('\t')));
    assert_eq!(keymap(true, Key::Ctrl('s')), Some(Cmd::Save));
    assert_eq!(keymap(true, Key::Char('a')), None);
    assert_eq!(keymap(false, Key::Esc), None);
}

#[test]
fn undefined_key_message() {
    let mut e = editor_with("");
    press(&mut e, &[Key::Ctrl('q')]);
    assert_eq!(e.echo, "Ctrl('q') is undefined");
    press(&mut e, &[Key::Ctrl('x'), Key::Esc]);
    assert_eq!(e.echo, "Esc is undefined");
    assert_eq!(key_text(Key::Meta('\n')), "Meta('\\n')");
}

#[test]
fn numeric_helpers_saturate() {
    assert_eq!(sat_mul(usize::MAX / 2, 4), usize::MAX);
    assert_eq!(sat_mul(6, 7), 42);
    assert_eq!(sat_add(usize::MAX, 1), usize::MAX);
    assert_eq!(sat_add(2, 3), 5);
}

#[test]
fn form_at_finds_definitions_and_tokens() {
    assert_eq!(form_at(": sq dup * ;\n3 sq", 4), Some(": sq dup * ;".to_string()));
    assert_eq!(form_at(": sq dup * ;\n3 sq", 14), Some("3".to_string()));
    assert_eq!(form_at("a  b", 2), Some("a".to_string()));
    assert_eq!(form_at("", 0), None);
    assert_eq!(form_at("\"open", 0), None);
}

#[test]
fn kill_ring_keeps_sixteen() {
    let mut e = editor_with("");
    for i in 0..20 {
        type_in(&mut e, &format!("w{}\n", i));
    }
    for _ in 0..20 {
        press(&mut e, &[Key::Ctrl('p'), Key::Ctrl('a'), Key::Ctrl('k'), Key::Ctrl('f')]);
    }
    assert!(e.kills.len() <= 16);
}

#[test]
fn yank_pop_without_yank_complains() {
    let mut e = editor_with("abc");
    press(&mut e, &[Key::Meta('y')]);
    assert_eq!(e.echo, "Previous command was not a yank");
    press(&mut e, &[Key::Ctrl('y')]);
    assert_eq!(e.echo, "Kill ring is empty");
}

#[test]
fn search_failing_then_backspace() {
    let mut e = editor_with("abc abd");
    press(&mut e, &[Key::Ctrl('s')]);
    type_in(&mut e, "abx");
    match &e.mode {
        Mode::Search(s) => assert!(!s.found),
        _ => panic!("expected search"),
    }
    press(&mut e, &[Key::Backspace]);
    match &e.mode {
        Mode::Search(s) => assert!(s.found),
        _ => panic!("expected search"),
    }
    assert_eq!(e.buf().cursor, 2);
}

#[test]
fn replace_with_empty_pattern() {
    let mut e = editor_with("text");
    press(&mut e, &[Key::Meta('%'), Key::Enter]);
    assert_eq!(e.echo, "Quit");
}

#[test]
fn goto_line_rejects_garbage() {
    let mut e = editor_with("a\nb");
    press(&mut e, &[Key::Meta('g'), Key::Char('g')]);
    type_in(&mut e, "x1");
    press(&mut e, &[Key::Enter]);
    assert_eq!(e.echo, "Invalid line number");
    press(&mut e, &[Key::Meta('g'), Key::Char('g')]);
    type_in(&mut e, " 99 ");
    press(&mut e, &[Key::Enter]);
    assert_eq!(e.buf().cursor, 2);
}

#[test]
fn prompt_line_editing() {
    let mut e = editor_with("");
    press(&mut e, &[Key::Meta('x')]);
    type_in(&mut e, "aδc");
    press(&mut e, &[Key::Left, Key::Backspace, Key::Char('b'), Key::Ctrl('a'), Key::Delete]);
    match &e.mode {
        Mode::Prompt(p) => {
            assert_eq!(p.input, "bc");
            assert_eq!(p.cur, 0);
        }
        _ => panic!("expected prompt"),
    }
    press(&mut e, &[Key::End, Key::Ctrl('b'), Key::Ctrl('k')]);
    match &e.mode {
        Mode::Prompt(p) => assert_eq!(p.input, "b"),
        _ => panic!("expected prompt"),
    }
}

#[test]
fn eval_completion_is_sorted() {
    let mut e = editor_with("");
    press(&mut e, &[Key::Meta('x')]);
    type_in(&mut e, "d");
    press(&mut e, &[Key::Tab]);
    match &e.mode {
        Mode::Prompt(p) => assert_eq!(p.matches, "del  drop  dup"),
        _ => panic!("expected prompt"),
    }
}

#[test]
fn file_requests_and_answers() {
    let mut e = editor_with("");
    press(&mut e, &[Key::Ctrl('x'), Key::Ctrl('f')]);
    type_in(&mut e, "notes.txt");
    press(&mut e, &[Key::Enter]);
    match e.request.take() {
        Some(Request::Open(p)) => assert_eq!(p, "notes.txt"),
        _ => panic!("expected an open request"),
    }
    assert!(!e.find_file("/tmp/notes.txt"));
    e.file_loaded("notes.txt", "/tmp/notes.txt".into(), OpenOutcome::NotFound);
    assert_eq!(e.echo, "(New file)");
    assert_eq!(e.buf().name, "notes.txt");
    assert!(e.find_file("/tmp/notes.txt"));
    e.file_loaded("x", "/x".into(), OpenOutcome::Failed("denied".into()));
    assert_eq!(e.echo, "x: denied");
    e.file_loaded(
        "y",
        "/d/y".into(),
        OpenOutcome::Loaded(Loaded { content: "hi".into(), mode: Some(0o644), path: "/d/y".into() }),
    );
    assert_eq!(e.buf().text.all(), "hi");
    assert_eq!(e.buf().name, "y");
}

#[test]
fn save_asks_and_reports() {
    let mut e = editor_with("");
    e.buffers[0].path = Some("/tmp/a.txt".into());
    press(&mut e, &[Key::Ctrl('x'), Key::Ctrl('s')]);
    assert_eq!(e.echo, "(No changes need to be saved)");
    type_in(&mut e, "z");
    press(&mut e, &[Key::Ctrl('x'), Key::Ctrl('s')]);
    match e.request.take() {
        Some(Request::Save { path, content, .. }) => {
            assert_eq!(path, "/tmp/a.txt");
            assert_eq!(content, "z");
        }
        _ => panic!("expected a save request"),
    }
    e.saved(Err("disk full".into()));
    assert_eq!(e.echo, "Save failed: disk full");
    e.saved(Ok(()));
    assert_eq!(e.echo, "Wrote /tmp/a.txt");
    assert!(!e.buf().modified);
    e.written_as("/srv/b.txt".into(), Ok(()));
    assert_eq!(e.buf().name, "b.txt");
    assert_eq!(e.echo, "Wrote /srv/b.txt");
}

#[test]
fn path_completion_answer() {
    let mut e = editor_with("");
    press(&mut e, &[Key::Ctrl('x'), Key::Ctrl('f')]);
    type_in(&mut e, "src/ma");
    press(&mut e, &[Key::Tab]);
    match e.request.take() {
        Some(Request::Complete(p)) => assert_eq!(p, "src/ma"),
        _ => panic!("expected a completion request"),
    }
    e.completed(vec!["src/main.rs".into(), "src/map.rs".into()]);
    match &e.mode {
        Mode::Prompt(p) => {
            assert_eq!(p.input, "src/ma");
            assert_eq!(p.matches, "main.rs  map.rs");
        }
        _ => panic!("expected prompt"),
    }
}

#[test]
fn render_frame_layout() {
    let mut e = editor_with("hello");
    e.rows = 4;
    e.cols = 20;
    e.buffers[0].cursor = 2;
    let f = render(&e);
    assert!(f.starts_with("\x1b[?2026h\x1b[?25l\x1b[H\x1b[Khello\r\n\x1b[K\r\n"));
    assert!(f.contains("\x1b[7m---- test   L1/1 C2 \x1b[m"));
    assert!(f.ends_with("\x1b[1;3H\x1b[?25h\x1b[?2026l"));
    e.rows = 2;
    assert_eq!(render(&e), "");
}

#[test]
fn piece_table_delete_after_insert_restores() {
    let mut pt = PieceTable::new("abcdef".into());
    pt.insert(3, "XYZ");
    pt.delete(3, 6);
    assert_eq!(pt.all(), "abcdef");
}

#[test]
fn forth_edits_undo_in_one_step() {
    let mut e = editor_with("");
    type_in(&mut e, "ab");
    press(&mut e, &[Key::Meta('x')]);
    type_in(&mut e, "\"12\" insert \"34\" insert");
    press(&mut e, &[Key::Enter]);
    assert_eq!(e.buf().text.all(), "ab1234");
    press(&mut e, &[Key::Ctrl('_')]);
    assert_eq!(e.buf().text.all(), "ab");
}

#[test]
fn isearch_finds_first_match_and_cancel_returns() {
    let mut e = editor_with("one two one two");
    press(&mut e, &[Key::Ctrl('s')]);
    type_in(&mut e, "two");
    assert_eq!(e.buf().cursor, 7);
    press(&mut e, &[Key::Ctrl('s')]);
    assert_eq!(e.buf().cursor, 15);
    press(&mut e, &[Key::Ctrl('g')]);
    assert_eq!(e.buf().cursor, 0);
    assert!(matches!(e.mode, Mode::Edit));
}

#[test]
fn kill_line_and_word_commands() {
    let mut e = editor_with("alpha beta\ngamma");
    press(&mut e, &[Key::Meta('d')]);
    assert_eq!(e.buf().text.all(), " beta\ngamma");
    press(&mut e, &[Key::Ctrl('k')]);
    assert_eq!(e.buf().text.all(), "\ngamma");
    press(&mut e, &[Key::Ctrl('k')]);
    assert_eq!(e.buf().text.all(), "gamma");
    assert_eq!(e.buf().cursor, 0);
}

#[test]
fn yank_pop_cycles_to_older_kill() {
    let mut e = editor_with("ab cd");
    press(&mut e, &[Key::Meta('d')]);
    assert_eq!(e.buf().text.all(), " cd");
    press(&mut e, &[Key::Ctrl('f'), Key::Meta('d')]);
    assert_eq!(e.buf().text.all(), " ");
    press(&mut e, &[Key::Ctrl('y')]);
    assert_eq!(e.buf().text.all(), " cd");
    press(&mut e, &[Key::Meta('y')]);
    assert_eq!(e.buf().text.all(), " ab");
    assert_eq!(e.buf().cursor, 3);
}

#[test]
fn query_replace_bang_replaces_the_rest() {
    let mut e = editor_with("a-a-a");
    press(&mut e, &[Key::Meta('%')]);
    type_in(&mut e, "a\nbb\n");
    assert!(matches!(e.mode, Mode::Replace(_)));
    press(&mut e, &[Key::Char('n'), Key::Char('!')]);
    assert_eq!(e.buf().text.all(), "a-bb-bb");
    assert_eq!(e.echo, "Replaced 2 occurrences");
    assert!(matches!(e.mode, Mode::Edit));
}

#[test]
fn isearch_backward_repeats_to_earlier_match() {
    let mut e = editor_with("ab ab ab");
    press(&mut e, &[Key::Meta('>'), Key::Ctrl('r')]);
    type_in(&mut e, "ab");
    assert_eq!(e.buf().cursor, 6);
    press(&mut e, &[Key::Ctrl('r')]);
    assert_eq!(e.buf().cursor, 3);
    press(&mut e, &[Key::Ctrl('r')]);
    assert_eq!(e.buf().cursor, 0);
    press(&mut e, &[Key::Enter]);
    assert_eq!(e.buf().cursor, 0);
    assert!(matches!(e.mode, Mode::Edit));
}

#[test]
fn undo_with_count_reverts_several_groups() {
    let mut e = editor_with("");
    type_in(&mut e, "ab");
    press(&mut e, &[Key::Ctrl('b'), Key::Ctrl('f')]);
    type_in(&mut e, "cd");
    assert_eq!(e.buf().text.all(), "abcd");
    press(&mut e, &[Key::Ctrl('u'), Key::Char('2'), Key::Ctrl('_')]);
    assert_eq!(e.buf().text.all(), "");
    assert_eq!(e.buf().cursor, 0);
    assert_eq!(e.echo, "Undo");
}

#[test]
fn undo_with_count_past_history_says_so() {
    let mut e = editor_with("");
    type_in(&mut e, "ab");
    press(&mut e, &[Key::Ctrl('b'), Key::Ctrl('f')]);
    type_in(&mut e, "cd");
    press(&mut e, &[Key::Ctrl('u'), Key::Char('3'), Key::Ctrl('_')]);
    assert_eq!(e.buf().text.all(), "");
    assert_eq!(e.echo, "No further undo information");
}

#[test]
fn line_motion_with_count_keeps_goal_column() {
    let mut e = editor_with("aaaa\nbb\ncccc\ndd");
    press(&mut e, &[Key::Ctrl('f'), Key::Ctrl('f'), Key::Ctrl('f')]);
    press(&mut e, &[Key::Ctrl('u'), Key::Char('2'), Key::Ctrl('n')]);
    assert_eq!(e.buf().cursor, 11);
    press(&mut e, &[Key::Ctrl('u'), Key::Char('5'), Key::Ctrl('n')]);
    assert_eq!(e.buf().cursor, 15);
    press(&mut e, &[Key::Ctrl('u'), Key::Char('2'), Key::Ctrl('p')]);
    assert_eq!(e.buf().cursor, 7);
    press(&mut e, &[Key::Ctrl('u'), Key::Char('9'), Key::Ctrl('p')]);
    assert_eq!(e.buf().cursor, 0);
}

#[test]
fn page_down_moves_text_area_less_two_lines() {
    let mut e = editor_with("aaaa\nbb\ncccc\ndd");
    e.rows = 6;
    press(&mut e, &[Key::Ctrl('v')]);
    assert_eq!(e.buf().cursor, 8);
    press(&mut e, &[Key::Meta('v')]);
    assert_eq!(e.buf().cursor, 0);
}

#[test]
fn completion_list_filters_hides_dotfiles_and_sorts() {
    let entries = vec![
        ("zeta.txt".to_string(), false),
        (".hidden".to_string(), false),
        ("alpha".to_string(), true),
        ("beta.rs".to_string(), false),
        ("alps".to_string(), false),
    ];
    assert_eq!(completion_list("src/al", entries.clone()), vec!["src/alpha/".to_string(), "src/alps".to_string()]);
    assert_eq!(
        completion_list("", entries.clone()),
        vec!["alpha/".to_string(), "alps".to_string(), "beta.rs".to_string(), "zeta.txt".to_string()]
    );
    assert_eq!(completion_list("./.h", entries.clone()), vec!["./.hidden".to_string()]);
    assert!(completion_list("q", entries).is_empty());
}

#[test]
fn typing_undoes_as_one_group_and_newline_starts_another() {
    let mut e = editor_with("");
    type_in(&mut e, "ab\ncd");
    assert_eq!(e.buffers[e.current].text.all(), "ab\ncd");
    press(&mut e, &[Key::Ctrl('_')]);
    assert_eq!(e.buffers[e.current].text.all(), "ab");
    press(&mut e, &[Key::Ctrl('f'), Key::Ctrl('_')]);
    assert_eq!(e.buffers[e.current].text.all(), "ab\ncd");
    let mut f = editor_with("");
    type_in(&mut f, "xy");
    press(&mut f, &[Key::Ctrl('b'), Key::Char('z'), Key::Ctrl('_')]);
    assert_eq!(f.buffers[f.current].text.all(), "xy");
}

#[test]
fn kills_and_yanks_undo_one_command_at_a_time() {
    let mut e = editor_with("one two\nthree");
    press(&mut e, &[Key::Ctrl('k')]);
    assert_eq!(e.buffers[e.current].text.all(), "\nthree");
    press(&mut e, &[Key::Ctrl('e'), Key::Ctrl('y')]);
    assert_eq!(e.buffers[e.current].text.all(), "one two\nthree");
    press(&mut e, &[Key::Ctrl('_')]);
    assert_eq!(e.buffers[e.current].text.all(), "\nthree");
    press(&mut e, &[Key::Ctrl('_')]);
    assert_eq!(e.buffers[e.current].text.all(), "one two\nthree");
}
