use edy::text::PieceTable;
use edy::width::{char_width, display_col, offset_at_col, str_width};

#[test]
fn widths() {
    assert_eq!(char_width('a'), 1);
    assert_eq!(char_width('語'), 2);
    assert_eq!(char_width('\u{0301}'), 0);
    assert_eq!(str_width("a語b"), 4);
    assert_eq!(str_width("\tx"), 9);
    assert_eq!(str_width("ab\tx"), 9);
}

#[test]
fn columns() {
    let t = PieceTable::new("ab語\ncd".into());
    assert_eq!(display_col(&t, 0, 2), 2);
    assert_eq!(display_col(&t, 0, 5), 4);
    assert_eq!(offset_at_col(&t, 0, 2), 2);
    assert_eq!(offset_at_col(&t, 0, 99), 5);
    assert_eq!(offset_at_col(&t, 6, 1), 7);
}
