use edy::text::PieceTable;

fn check(pt: &PieceTable, model: &str) {
    assert_eq!(pt.all(), model);
    assert_eq!(pt.len(), model.len());
    assert_eq!(pt.line_count(), model.matches('\n').count() + 1);
}

#[test]
fn insert_delete_matches_string_model() {
    let mut pt = PieceTable::new("hello\nworld\n".into());
    let mut model = String::from("hello\nworld\n");
    let ops: &[(bool, usize, &str)] = &[
        (true, 0, "a"),
        (true, 6, "xy\n"),
        (false, 2, "5"),
        (true, 0, "δοκιμή "),
        (false, 0, "3"),
        (true, 10, "\n\n"),
        (false, 4, "9"),
    ];
    let floor = |m: &str, mut i: usize| {
        i = i.min(m.len());
        while !m.is_char_boundary(i) {
            i -= 1;
        }
        i
    };
    for &(ins, at, s) in ops {
        let at = floor(&model, at);
        if ins {
            pt.insert(at, s);
            model.insert_str(at, s);
        } else {
            let n: usize = s.parse().unwrap();
            let end = floor(&model, at + n);
            let removed = pt.delete(at, end);
            assert_eq!(removed, model[at..end].to_string());
            model.replace_range(at..end, "");
        }
        check(&pt, &model);
    }
}

#[test]
fn typing_coalesces_pieces() {
    let mut pt = PieceTable::new(String::new());
    for (i, c) in "abcdef".char_indices() {
        pt.insert(i, &c.to_string());
    }
    assert_eq!(pt.piece_count(), 1);
    assert_eq!(pt.all(), "abcdef");
}

#[test]
fn lines() {
    let pt = PieceTable::new("ab\ncd\nef".into());
    assert_eq!(pt.line_count(), 3);
    assert_eq!(pt.line_start(0), 0);
    assert_eq!(pt.line_start(1), 3);
    assert_eq!(pt.line_start(2), 6);
    assert_eq!(pt.line_of(0), 0);
    assert_eq!(pt.line_of(2), 0);
    assert_eq!(pt.line_of(3), 1);
    assert_eq!(pt.line_of(8), 2);
    assert_eq!(pt.next_newline(0), 2);
    assert_eq!(pt.next_newline(3), 5);
    assert_eq!(pt.next_newline(6), 8);
}

#[test]
fn boundaries() {
    let pt = PieceTable::new("aδb".into());
    assert_eq!(pt.next_boundary(0), 1);
    assert_eq!(pt.next_boundary(1), 3);
    assert_eq!(pt.prev_boundary(3), 1);
    assert_eq!(pt.prev_boundary(1), 0);
    assert_eq!(pt.char_at(1), Some('δ'));
    assert_eq!(pt.char_at(4), None);
}

#[test]
fn delete_across_pieces() {
    let mut pt = PieceTable::new("abc".into());
    pt.insert(3, "def");
    pt.insert(0, "xyz");
    assert_eq!(pt.all(), "xyzabcdef");
    assert_eq!(pt.delete(2, 7), "zabcd");
    assert_eq!(pt.all(), "xyef");
}
