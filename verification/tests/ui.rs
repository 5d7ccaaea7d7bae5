use edy::ui::draw_line;

fn drawn(s: &str, left: usize, cols: usize) -> String {
    let mut f = String::new();
    draw_line(&mut f, s, left, cols, None, false);
    f
}

#[test]
fn selection_reverses_span() {
    let mut f = String::new();
    draw_line(&mut f, "abcde", 0, 10, Some((1, 3)), false);
    assert_eq!(f, "a\x1b[7mbc\x1b[mde");
}

#[test]
fn selection_to_line_end_marks_newline() {
    let mut f = String::new();
    draw_line(&mut f, "ab", 0, 10, Some((0, 2)), true);
    assert_eq!(f, "\x1b[7mab\x1b[m\x1b[7m \x1b[m");
}

#[test]
fn selection_on_empty_line_shows_space() {
    let mut f = String::new();
    draw_line(&mut f, "", 0, 10, None, true);
    assert_eq!(f, "\x1b[7m \x1b[m");
}

#[test]
fn plain_line() {
    assert_eq!(drawn("hello", 0, 10), "hello");
}

#[test]
fn truncated_line_marks_dollar() {
    assert_eq!(drawn("abcdefghij", 0, 8), "abcdefg$");
}

#[test]
fn horizontal_scroll() {
    assert_eq!(drawn("abcdefghij", 2, 8), "cdefghij");
    assert_eq!(drawn("abcdefghijklm", 2, 8), "cdefghi$");
}

#[test]
fn tabs_expand() {
    assert_eq!(drawn("\ta", 0, 12), "        a");
}

#[test]
fn control_chars_caret() {
    assert_eq!(drawn("a\u{1}b", 0, 10), "a^Ab");
}

#[test]
fn wide_chars() {
    assert_eq!(drawn("語ab", 0, 10), "語ab");
    assert_eq!(drawn("語ab", 1, 10), " ab");
}

#[test]
fn wide_char_at_right_edge_dropped() {
    assert_eq!(drawn("ab語cd", 0, 4), "ab $");
}
