use exprlex::ast::{BinOp, UnOp};
use exprlex::input::Cursor;

#[test]
fn cursor_tracks_position_and_replays_pushback() {
    let mut cursor = Cursor::new("ab".chars().collect());
    assert_eq!(cursor.pos(), 0);
    assert_eq!(cursor.next(), Some('a'));
    assert_eq!(cursor.pos(), 1);
    cursor.put_back('a');
    assert_eq!(cursor.pos(), 0);
    assert_eq!(cursor.next(), Some('a'));
    assert_eq!(cursor.pos(), 1);
    assert_eq!(cursor.next(), Some('b'));
    assert_eq!(cursor.pos(), 2);
    assert_eq!(cursor.next(), None);
    assert_eq!(cursor.pos(), 2);
}

#[test]
fn line_col_is_one_based_and_counts_newlines() {
    let cursor = Cursor::new("ab\ncd".chars().collect());
    let lc = cursor.line_col(0);
    assert_eq!((lc.line, lc.col), (1, 1));
    let lc = cursor.line_col(2);
    assert_eq!((lc.line, lc.col), (1, 3));
    let lc = cursor.line_col(3);
    assert_eq!((lc.line, lc.col), (2, 1));
    let lc = cursor.line_col(4);
    assert_eq!((lc.line, lc.col), (2, 2));
    let lc = cursor.line_col(5);
    assert_eq!((lc.line, lc.col), (2, 3));
}

#[test]
fn ast_operator_kinds_are_plain_values() {
    assert_eq!(UnOp::Minus, UnOp::Minus);
    assert_ne!(UnOp::Plus, UnOp::Minus);
    let ops = [BinOp::Add, BinOp::Sub, BinOp::Mul, BinOp::Div, BinOp::Mod];
    assert_eq!(ops.len(), 5);
    assert_eq!(ops[0], BinOp::Add);
}
