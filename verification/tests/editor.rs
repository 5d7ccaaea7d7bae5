use edy::editor::{common_prefix, Buffer, Editor, Mode};
use edy::term::Key;

fn ed(content: &str) -> Editor {
    let mut e = Editor::new();
    e.buffers.push(Buffer::new("test".into(), None, content.into(), None));
    e
}

fn keys(e: &mut Editor, ks: &[Key]) {
    for &k in ks {
        e.handle_key(k);
    }
}

fn typing(e: &mut Editor, s: &str) {
    for c in s.chars() {
        e.handle_key(if c == '\n' { Key::Enter } else { Key::Char(c) });
    }
}

#[test]
fn insert_and_move() {
    let mut e = ed("");
    typing(&mut e, "hello\nworld");
    assert_eq!(e.buf().text.all(), "hello\nworld");
    assert_eq!(e.buf().cursor, 11);
    keys(&mut e, &[Key::Ctrl('a')]);
    assert_eq!(e.buf().cursor, 6);
    keys(&mut e, &[Key::Ctrl('p'), Key::Ctrl('e')]);
    assert_eq!(e.buf().cursor, 5);
    keys(&mut e, &[Key::Meta('<')]);
    assert_eq!(e.buf().cursor, 0);
    keys(&mut e, &[Key::Meta('f')]);
    assert_eq!(e.buf().cursor, 5);
}

#[test]
fn kill_and_yank() {
    let mut e = ed("one two\nthree");
    keys(&mut e, &[Key::Ctrl('k')]);
    assert_eq!(e.buf().text.all(), "\nthree");
    keys(&mut e, &[Key::Ctrl('y')]);
    assert_eq!(e.buf().text.all(), "one two\nthree");
    assert_eq!(e.buf().cursor, 7);
}

#[test]
fn kill_coalesces() {
    let mut e = ed("ab\ncd\nef");
    keys(&mut e, &[Key::Ctrl('k'), Key::Ctrl('k')]);
    assert_eq!(e.buf().text.all(), "cd\nef");
    keys(&mut e, &[Key::Ctrl('y')]);
    assert_eq!(e.buf().text.all(), "ab\ncd\nef");
}

#[test]
fn region_and_yank_pop() {
    let mut e = ed("abcdef");
    keys(&mut e, &[Key::Ctrl(' ')]);
    keys(&mut e, &[Key::Ctrl('f'), Key::Ctrl('f'), Key::Ctrl('f')]);
    keys(&mut e, &[Key::Ctrl('w')]);
    assert_eq!(e.buf().text.all(), "def");
    typing(&mut e, "x");
    keys(&mut e, &[Key::Ctrl('k')]);
    assert_eq!(e.buf().text.all(), "x");
    keys(&mut e, &[Key::Ctrl('y')]);
    assert_eq!(e.buf().text.all(), "xdef");
    keys(&mut e, &[Key::Meta('y')]);
    assert_eq!(e.buf().text.all(), "xabc");
}

#[test]
fn undo_groups_and_chain() {
    let mut e = ed("");
    typing(&mut e, "abc");
    keys(&mut e, &[Key::Ctrl('f')]);
    typing(&mut e, "def");
    assert_eq!(e.buf().text.all(), "abcdef");
    keys(&mut e, &[Key::Ctrl('_')]);
    assert_eq!(e.buf().text.all(), "abc");
    keys(&mut e, &[Key::Ctrl('_')]);
    assert_eq!(e.buf().text.all(), "");
    keys(&mut e, &[Key::Ctrl('f')]);
    keys(&mut e, &[Key::Ctrl('_'), Key::Ctrl('_')]);
    assert_eq!(e.buf().text.all(), "abcdef");
}

#[test]
fn undo_delete() {
    let mut e = ed("hello");
    keys(&mut e, &[Key::Ctrl('k')]);
    assert_eq!(e.buf().text.all(), "");
    keys(&mut e, &[Key::Ctrl('_')]);
    assert_eq!(e.buf().text.all(), "hello");
    assert_eq!(e.buf().cursor, 0);
}

#[test]
fn isearch() {
    let mut e = ed("alpha beta alpha");
    keys(&mut e, &[Key::Ctrl('s')]);
    typing(&mut e, "alpha");
    assert_eq!(e.buf().cursor, 5);
    keys(&mut e, &[Key::Ctrl('s')]);
    assert_eq!(e.buf().cursor, 16);
    keys(&mut e, &[Key::Enter]);
    keys(&mut e, &[Key::Ctrl('r')]);
    keys(&mut e, &[Key::Ctrl('r')]);
    assert_eq!(e.buf().cursor, 11);
    keys(&mut e, &[Key::Ctrl('g')]);
    assert_eq!(e.buf().cursor, 16);
}

#[test]
fn isearch_abort_restores() {
    let mut e = ed("foo bar");
    keys(&mut e, &[Key::Ctrl('s')]);
    typing(&mut e, "bar");
    assert_eq!(e.buf().cursor, 7);
    keys(&mut e, &[Key::Ctrl('g')]);
    assert_eq!(e.buf().cursor, 0);
}

#[test]
fn query_replace() {
    let mut e = ed("cat dog cat dog cat");
    keys(&mut e, &[Key::Meta('%')]);
    typing(&mut e, "cat");
    keys(&mut e, &[Key::Enter]);
    typing(&mut e, "owl");
    keys(&mut e, &[Key::Enter]);
    keys(&mut e, &[Key::Char('y')]);
    keys(&mut e, &[Key::Char('n')]);
    keys(&mut e, &[Key::Char('!')]);
    assert_eq!(e.buf().text.all(), "owl dog cat dog owl");
    assert!(e.echo.contains("Replaced 2"));
}

#[test]
fn numeric_argument() {
    let mut e = ed("");
    keys(&mut e, &[Key::Ctrl('u')]);
    typing(&mut e, "x");
    assert_eq!(e.buf().text.all(), "xxxx");
    keys(&mut e, &[Key::Ctrl('u')]);
    typing(&mut e, "12y");
    assert_eq!(e.buf().text.all(), "xxxxyyyyyyyyyyyy");
}

#[test]
fn goto_line() {
    let mut e = ed("a\nb\nc\nd");
    keys(&mut e, &[Key::Meta('g'), Key::Char('g')]);
    typing(&mut e, "3");
    keys(&mut e, &[Key::Enter]);
    assert_eq!(e.buf().cursor, 4);
}

#[test]
fn buffer_switching() {
    let mut e = ed("first");
    e.buffers.push(Buffer::new("second".into(), None, "two".into(), None));
    e.handle_key(Key::Ctrl('x'));
    e.handle_key(Key::Char('b'));
    typing(&mut e, "second");
    e.handle_key(Key::Enter);
    assert_eq!(e.buf().name, "second");
    e.handle_key(Key::Ctrl('x'));
    e.handle_key(Key::Char('b'));
    e.handle_key(Key::Enter);
    assert_eq!(e.buf().name, "test");
}

#[test]
fn kill_buffer_keeps_one() {
    let mut e = ed("only");
    keys(&mut e, &[Key::Ctrl('x'), Key::Char('k')]);
    assert_eq!(e.buffers.len(), 1);
    assert_eq!(e.buf().name, "*scratch*");
}

#[test]
fn quit_unmodified() {
    let mut e = ed("clean");
    keys(&mut e, &[Key::Ctrl('x'), Key::Ctrl('c')]);
    assert!(e.quit);
}

#[test]
fn quit_modified_confirms() {
    let mut e = ed("");
    typing(&mut e, "dirty");
    keys(&mut e, &[Key::Ctrl('x'), Key::Ctrl('c')]);
    assert!(!e.quit);
    keys(&mut e, &[Key::Char('y')]);
    assert!(e.quit);
}

#[test]
fn word_kill_backward() {
    let mut e = ed("one two three");
    keys(&mut e, &[Key::Meta('>'), Key::MetaBackspace]);
    assert_eq!(e.buf().text.all(), "one two ");
    keys(&mut e, &[Key::MetaBackspace]);
    assert_eq!(e.buf().text.all(), "one ");
    keys(&mut e, &[Key::Ctrl('y')]);
    assert_eq!(e.buf().text.all(), "one two three");
}

#[test]
fn mark_activation_lifecycle() {
    let mut e = ed("hello");
    assert!(!e.buf().mark_active);
    keys(&mut e, &[Key::Ctrl(' ')]);
    assert!(e.buf().mark_active);
    keys(&mut e, &[Key::Ctrl('f'), Key::Ctrl('f')]);
    assert!(e.buf().mark_active);
    typing(&mut e, "x");
    assert!(!e.buf().mark_active);
    keys(&mut e, &[Key::Ctrl(' '), Key::Ctrl('f')]);
    assert!(e.buf().mark_active);
    keys(&mut e, &[Key::Ctrl('g')]);
    assert!(!e.buf().mark_active);
    assert!(e.buf().mark.is_some());
    keys(&mut e, &[Key::Ctrl('x'), Key::Ctrl('x')]);
    assert!(e.buf().mark_active);
}

#[test]
fn copy_deactivates_mark() {
    let mut e = ed("abc");
    keys(&mut e, &[Key::Ctrl(' '), Key::Ctrl('f'), Key::Ctrl('f'), Key::Meta('w')]);
    assert!(!e.buf().mark_active);
    keys(&mut e, &[Key::Meta('>'), Key::Ctrl('y')]);
    assert_eq!(e.buf().text.all(), "abcab");
}

#[test]
fn buffer_completion() {
    let mut e = ed("first");
    e.buffers.push(Buffer::new("second".into(), None, String::new(), None));
    e.buffers.push(Buffer::new("settings".into(), None, String::new(), None));
    keys(&mut e, &[Key::Ctrl('x'), Key::Char('b')]);
    keys(&mut e, &[Key::Tab]);
    match &e.mode {
        Mode::Prompt(p) => {
            assert!(p.input.is_empty());
            assert!(p.matches.contains("test") && p.matches.contains("second"));
        }
        _ => panic!("expected prompt"),
    }
    typing(&mut e, "se");
    keys(&mut e, &[Key::Tab]);
    match &e.mode {
        Mode::Prompt(p) => assert_eq!(p.input, "se"),
        _ => panic!("expected prompt"),
    }
    typing(&mut e, "c");
    keys(&mut e, &[Key::Tab]);
    match &e.mode {
        Mode::Prompt(p) => assert_eq!(p.input, "second"),
        _ => panic!("expected prompt"),
    }
    keys(&mut e, &[Key::Enter]);
    assert_eq!(e.buf().name, "second");
}

#[test]
fn list_buffers() {
    let mut e = ed("");
    e.buffers.push(Buffer::new("other".into(), None, String::new(), None));
    typing(&mut e, "x");
    keys(&mut e, &[Key::Ctrl('x'), Key::Ctrl('b')]);
    assert_eq!(e.echo, "test*  other");
}

#[test]
fn common_prefix_works() {
    let items: Vec<String> = vec!["second".into(), "settings".into()];
    assert_eq!(common_prefix(&items), "se");
    let one: Vec<String> = vec!["only".into()];
    assert_eq!(common_prefix(&one), "only");
}

#[test]
fn cmd_line_eval() {
    let mut e = ed("");
    keys(&mut e, &[Key::Meta('x')]);
    typing(&mut e, "1 2 +");
    keys(&mut e, &[Key::Enter]);
    assert_eq!(e.echo, "ok ( 3 )");
    keys(&mut e, &[Key::Meta('x')]);
    typing(&mut e, "drop \"hi\" insert");
    keys(&mut e, &[Key::Enter]);
    assert_eq!(e.buf().text.all(), "hi");
    assert_eq!(e.buf().cursor, 2);
}

#[test]
fn cmd_line_error_keeps_stack() {
    let mut e = ed("");
    keys(&mut e, &[Key::Meta('x')]);
    typing(&mut e, "7");
    keys(&mut e, &[Key::Enter]);
    keys(&mut e, &[Key::Meta('x')]);
    typing(&mut e, "nosuch");
    keys(&mut e, &[Key::Enter]);
    assert!(e.echo.contains("unknown word"));
    keys(&mut e, &[Key::Meta('x'), Key::Enter]);
    keys(&mut e, &[Key::Meta('x')]);
    typing(&mut e, "1 +");
    keys(&mut e, &[Key::Enter]);
    assert_eq!(e.echo, "ok ( 8 )");
}

#[test]
fn eval_at_point_definition_then_word() {
    let mut e = ed(": double dup + ;\n21 double");
    e.buf_mut().cursor = 5;
    keys(&mut e, &[Key::Meta(';')]);
    assert_eq!(e.echo, "ok ( )");
    keys(&mut e, &[Key::Meta('x')]);
    typing(&mut e, "21 double");
    keys(&mut e, &[Key::Enter]);
    assert_eq!(e.echo, "ok ( 42 )");
}

#[test]
fn eval_at_point_token() {
    let mut e = ed("42");
    e.buf_mut().cursor = 1;
    keys(&mut e, &[Key::Meta(';')]);
    assert_eq!(e.echo, "ok ( 42 )");
}

#[test]
fn forth_edits_undo_as_one_group() {
    let mut e = ed("");
    keys(&mut e, &[Key::Meta('x')]);
    typing(&mut e, "\"abc\" insert \"def\" insert");
    keys(&mut e, &[Key::Enter]);
    assert_eq!(e.buf().text.all(), "abcdef");
    keys(&mut e, &[Key::Ctrl('_')]);
    assert_eq!(e.buf().text.all(), "");
}

#[test]
fn forth_selection_words() {
    let mut e = ed("hello world");
    keys(&mut e, &[Key::Ctrl(' '), Key::Meta('f')]);
    keys(&mut e, &[Key::Meta('x')]);
    typing(&mut e, "sel@ text@");
    keys(&mut e, &[Key::Enter]);
    assert_eq!(e.echo, "ok ( \"hello\" )");
}

#[test]
fn cmd_completion() {
    let mut e = ed("");
    keys(&mut e, &[Key::Meta('x')]);
    typing(&mut e, "5 cur");
    keys(&mut e, &[Key::Tab]);
    match &e.mode {
        Mode::Prompt(p) => {
            assert_eq!(p.input, "5 cursor");
            assert!(p.matches.is_empty());
        }
        _ => panic!("expected prompt"),
    }
    keys(&mut e, &[Key::Tab]);
    match &e.mode {
        Mode::Prompt(p) => assert!(p.matches.contains("cursor@") && p.matches.contains("cursor!")),
        _ => panic!("expected prompt"),
    }
}

#[test]
fn vertical_goal_column() {
    let mut e = ed("long line here\nab\nanother long line");
    keys(&mut e, &[Key::Ctrl('e')]);
    assert_eq!(e.buf().cursor, 14);
    keys(&mut e, &[Key::Ctrl('n')]);
    assert_eq!(e.buf().cursor, 17);
    keys(&mut e, &[Key::Ctrl('n')]);
    assert_eq!(e.buf().cursor, 32);
}
