use nightingale::basic_cursor::Cursor;

#[test]
fn cursor_test_cursor_movement() {
    let mut cursor = Cursor::new();

    // cursor starts at 0
    assert_eq!(cursor.index, 0);

    // move right within bounds
    cursor.move_right(5);
    assert_eq!(cursor.index, 1); // only moves one per call
    cursor.move_right(5);
    assert_eq!(cursor.index, 2);

    // move left
    cursor.move_left();
    assert_eq!(cursor.index, 1);

    // cannot move left past 0
    cursor.move_left();
    cursor.move_left();
    assert_eq!(cursor.index, 0);

    // cannot move right past max
    cursor.move_right(2);
    cursor.move_right(2);
    cursor.move_right(2);
    assert_eq!(cursor.index, 2);
}
