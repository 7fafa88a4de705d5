use nightingale::basic_cursor;
use nightingale::basic_piece_table;
use nightingale::{Cursor, PieceTable};

#[test]
fn insert_example_from_docs() {
    let mut table = PieceTable::new("Hello, world!".to_string());
    table.insert(7, "Rust ").unwrap();
    assert_eq!(table.to_string(), "Hello, Rust world!");
}

#[test]
fn insert_into_middle_keeps_both_halves() {
    let mut table = PieceTable::new("Hello!".to_string());
    table.insert(5, ", world").unwrap();
    assert_eq!(table.to_string(), "Hello, world!");
}

#[test]
fn multiple_insertions() {
    let mut table = PieceTable::new("The end".to_string());
    table.insert(0, "Beginning. ").unwrap();
    table.insert(11, "Middle. ").unwrap();
    assert_eq!(table.to_string(), "Beginning. Middle. The end");
}

#[test]
fn delete_example_from_docs() {
    let mut table = PieceTable::new("Hello, world!".to_string());
    table.delete(5, 7).unwrap();
    assert_eq!(table.to_string(), "Hello!");
}

#[test]
fn delete_inside_one_piece() {
    let mut table = PieceTable::new("hello world".to_string());
    table.delete(3, 5).unwrap();
    assert_eq!(table.to_string(), "helrld");
    assert_eq!(table.len(), 6);
}

#[test]
fn len_is_cached_byte_length() {
    let mut table = PieceTable::new("Hello".to_string());
    assert_eq!(table.len(), 5);
    table.insert(5, " world").unwrap();
    assert_eq!(table.len(), 11);
    let table = PieceTable::new("Initial text".to_string());
    assert_eq!(table.to_string(), "Initial text");
    assert_eq!(table.len(), 12);
    let table = PieceTable::new("é🦀".to_string());
    assert_eq!(table.len(), 6);
}

#[test]
fn is_empty_tracks_the_document() {
    let empty = PieceTable::new(String::new());
    assert!(empty.is_empty());
    let non_empty = PieceTable::new("text".to_string());
    assert!(!non_empty.is_empty());
    let mut table = PieceTable::new("ab".to_string());
    table.delete(0, 2).unwrap();
    assert!(table.is_empty());
}

#[test]
fn default_table_is_empty() {
    let table = PieceTable::default();
    assert!(table.is_empty());
    assert_eq!(table.to_string(), "");
}

#[test]
fn insert_rejects_empty_text() {
    let mut table = PieceTable::new("Rust".to_string());
    assert_eq!(table.insert(1, ""), Err("insert text must be non-empty".to_string()));
    assert_eq!(table.to_string(), "Rust");
}

#[test]
fn insert_rejects_position_past_end() {
    let mut table = PieceTable::new("Rust".to_string());
    assert_eq!(
        table.insert(5, "x"),
        Err("insert position 5 is out of bounds (document length is 4)".to_string())
    );
    assert_eq!(table.to_string(), "Rust");
    assert_eq!(table.len(), 4);
}

#[test]
fn insert_rejects_position_inside_a_character() {
    let mut table = PieceTable::new("Héllo".to_string());
    assert_eq!(
        table.insert(2, "x"),
        Err("pos 2 is not on a UTF-8 character boundary".to_string())
    );
    assert_eq!(table.to_string(), "Héllo");
}

#[test]
fn delete_rejects_position_past_end() {
    let mut table = PieceTable::new("Rust".to_string());
    assert_eq!(
        table.delete(5, 1),
        Err("delete position 5 is out of bounds (document length is 4)".to_string())
    );
    assert_eq!(table.to_string(), "Rust");
}

#[test]
fn delete_rejects_range_past_end() {
    let mut table = PieceTable::new("Rust".to_string());
    assert_eq!(
        table.delete(2, 3),
        Err("delete range [2, 5) is out of bounds (document length is 4)".to_string())
    );
    assert_eq!(table.to_string(), "Rust");
}

#[test]
fn delete_rejects_range_splitting_a_character() {
    let mut table = PieceTable::new("Héllo".to_string());
    assert_eq!(
        table.delete(1, 1),
        Err("delete range [1, 2) does not start and end on UTF-8 character boundaries".to_string())
    );
}

#[test]
fn delete_rejects_range_across_pieces() {
    let mut table = PieceTable::new("Hello".to_string());
    table.insert(5, " world").unwrap();
    assert_eq!(
        table.delete(3, 4),
        Err("invalid delete range: 3 4 exceeds bounds of current piece (5, 0)".to_string())
    );
    assert_eq!(table.to_string(), "Hello world");
    assert_eq!(
        table.delete(6, 6),
        Err("delete range [6, 12) is out of bounds (document length is 11)".to_string())
    );
    let mut table = PieceTable::new("abc".to_string());
    table.insert(0, "xy").unwrap();
    assert_eq!(
        table.delete(1, 2),
        Err("invalid delete range: 1 2 exceeds bounds of current piece (2, 0)".to_string())
    );
    table.delete(1, 1).unwrap();
    assert_eq!(table.to_string(), "xabc");
}

#[test]
fn delete_of_nothing_succeeds() {
    let mut table = PieceTable::new("Rust".to_string());
    assert_eq!(table.delete(4, 0), Ok(()));
    assert_eq!(table.delete(2, 0), Ok(()));
    assert_eq!(table.to_string(), "Rust");
}

#[test]
fn delete_undoes_insert() {
    let mut table = PieceTable::new("Hello world".to_string());
    table.insert(5, ", dear").unwrap();
    assert_eq!(table.to_string(), "Hello, dear world");
    table.delete(5, 6).unwrap();
    assert_eq!(table.to_string(), "Hello world");
    assert_eq!(table.len(), 11);
}

#[test]
fn insert_undoes_delete() {
    let mut table = PieceTable::new("Hello world".to_string());
    table.delete(2, 3).unwrap();
    assert_eq!(table.to_string(), "He world");
    table.insert(2, "llo").unwrap();
    assert_eq!(table.to_string(), "Hello world");
}

#[test]
fn insert_multibyte_text_at_boundaries() {
    let mut table = PieceTable::new("Hllo".to_string());
    table.insert(1, "é").unwrap();
    table.insert(6, "🦀").unwrap();
    assert_eq!(table.to_string(), "Héllo🦀");
    assert_eq!(table.len(), 10);
}

#[test]
fn basic_insert_accepts_empty_text() {
    let mut table = basic_piece_table::PieceTable::new("Rust".to_string());
    assert_eq!(table.insert(2, ""), Ok(()));
    assert_eq!(table.to_string(), "Rust");
    assert_eq!(table.insert(99, ""), Ok(()));
    let mut table = basic_piece_table::PieceTable::new("é".to_string());
    assert_eq!(table.insert(1, ""), Ok(()));
    assert_eq!(table.to_string(), "é");
}

#[test]
fn cursor_stays_on_boundaries_through_edits() {
    let mut table = PieceTable::new("aé🦀".to_string());
    let mut cursor = Cursor::new();
    let steps = ["r", "r", "i", "l", "d", "r", "r", "r", "d", "i", "l", "l", "d"];
    for step in steps {
        match step {
            "r" => cursor.move_right(&table),
            "l" => cursor.move_left(&table),
            "i" => cursor.insert_char(&mut table, 'ü').unwrap(),
            _ => {
                cursor.delete_char(&mut table).unwrap();
            }
        }
        let text = table.to_string();
        assert!(cursor.get_index() <= table.len());
        assert!(text.is_char_boundary(cursor.get_index()));
    }
}

#[test]
fn reading_back_after_edits() {
    let mut table = basic_piece_table::PieceTable::new("piece".to_string());
    let mut model = String::from("piece");
    table.insert(5, " table").unwrap();
    model.insert_str(5, " table");
    table.insert(0, "a ").unwrap();
    model.insert_str(0, "a ");
    assert!(table.delete(1, 5).is_err());
    table.delete(2, 3).unwrap();
    model.replace_range(2..5, "");
    assert!(table.insert(40, "x").is_err());
    assert_eq!(table.to_string(), model);
    assert_eq!(table.to_string(), "a ce table");
}

#[test]
fn basic_insert_rejects_position_past_end() {
    let mut table = basic_piece_table::PieceTable::new("Rust".to_string());
    assert_eq!(
        table.insert(9, "x"),
        Err("insert position 9 is out of bounds (document length is 4)".to_string())
    );
    assert_eq!(table.to_string(), "Rust");
    table.insert(4, "y").unwrap();
    assert_eq!(table.to_string(), "Rusty");
}

#[test]
fn basic_delete_errors() {
    let mut table = basic_piece_table::PieceTable::new("Rust".to_string());
    assert_eq!(
        table.delete(7, 1),
        Err("delete position 7 is out of bounds (document length is 4)".to_string())
    );
    assert_eq!(
        table.delete(1, 4),
        Err("delete range [1, 5) is out of bounds (document length is 4)".to_string())
    );
    table.insert(4, "acean").unwrap();
    assert_eq!(
        table.delete(2, 4),
        Err("invalid delete range: 2 4 exceeds bounds of current piece (4, 0)".to_string())
    );
    assert_eq!(table.delete(0, 0), Ok(()));
    table.delete(4, 5).unwrap();
    assert_eq!(table.to_string(), "Rust");
}

#[test]
fn cursor_doc_example_insert_after_moves() {
    let mut table = PieceTable::new("Hello".to_string());
    let mut cursor = Cursor::new();
    cursor.move_right(&table);
    cursor.move_right(&table);
    cursor.insert_char(&mut table, '!').unwrap();
    assert_eq!(table.to_string(), "He!llo");
    assert_eq!(cursor.get_index(), 3);
}

#[test]
fn cursor_insert_fixes_a_word() {
    let mut table = PieceTable::new("Hllo".to_string());
    let mut cursor = Cursor::new();
    cursor.move_right(&table);
    cursor.insert_char(&mut table, 'e').unwrap();
    assert_eq!(table.to_string(), "Hello");
    assert_eq!(cursor.get_index(), 2);
}

#[test]
fn cursor_types_into_empty_table() {
    let mut table = PieceTable::new(String::new());
    let mut cursor = Cursor::default();
    cursor.insert_char(&mut table, 'H').unwrap();
    cursor.insert_char(&mut table, 'i').unwrap();
    cursor.insert_char(&mut table, '!').unwrap();
    assert_eq!(table.to_string(), "Hi!");
    assert_eq!(cursor.get_index(), 3);
}

#[test]
fn cursor_backspace_at_end_and_at_start() {
    let mut table = PieceTable::new("Hello".to_string());
    let mut cursor = Cursor::new();
    for _ in 0..5 {
        cursor.move_right(&table);
    }
    assert_eq!(cursor.delete_char(&mut table), Ok(true));
    assert_eq!(table.to_string(), "Hell");
    assert_eq!(cursor.get_index(), 4);

    let mut table = PieceTable::new("Hi".to_string());
    let mut cursor = Cursor::new();
    assert_eq!(cursor.delete_char(&mut table), Ok(false));
    assert_eq!(table.to_string(), "Hi");
    assert_eq!(cursor.get_index(), 0);
}

#[test]
fn cursor_delete_rejects_out_of_bounds_index() {
    let mut table = PieceTable::new("Hi".to_string());
    let mut cursor = Cursor::new();
    cursor.index = 3;
    assert_eq!(
        cursor.delete_char(&mut table),
        Err("Cursor index 3 is out of bounds for text length 2".to_string())
    );
    assert_eq!(cursor.get_index(), 3);
    assert_eq!(table.to_string(), "Hi");
}

#[test]
fn cursor_delete_rejects_index_inside_a_character() {
    let mut table = PieceTable::new("é".to_string());
    let mut cursor = Cursor::new();
    cursor.index = 1;
    assert_eq!(
        cursor.delete_char(&mut table),
        Err("Cursor index 1 is not on a valid UTF-8 character boundary in the text".to_string())
    );
    assert_eq!(table.to_string(), "é");
}

#[test]
fn cursor_insert_rejects_bad_index() {
    let mut table = PieceTable::new("é".to_string());
    let mut cursor = Cursor::new();
    cursor.index = 1;
    assert_eq!(
        cursor.insert_char(&mut table, 'x'),
        Err("pos 1 is not on a UTF-8 character boundary".to_string())
    );
    cursor.index = 4;
    assert_eq!(
        cursor.insert_char(&mut table, 'x'),
        Err("insert position 4 is out of bounds (document length is 2)".to_string())
    );
    assert_eq!(cursor.get_index(), 4);
    assert_eq!(table.to_string(), "é");
}

#[test]
fn cursor_move_left_from_past_the_end() {
    let table = PieceTable::new("aé".to_string());
    let mut cursor = Cursor::new();
    cursor.index = 7;
    cursor.move_left(&table);
    assert_eq!(cursor.get_index(), 3);
    cursor.move_left(&table);
    assert_eq!(cursor.get_index(), 1);
}

#[test]
fn cursor_move_left_undoes_move_right() {
    let table = PieceTable::new("a🦀é".to_string());
    let mut cursor = Cursor::new();
    for expected in [1usize, 5, 7] {
        let before = cursor.get_index();
        cursor.move_right(&table);
        assert_eq!(cursor.get_index(), expected);
        cursor.move_left(&table);
        assert_eq!(cursor.get_index(), before);
        cursor.move_right(&table);
    }
}

#[test]
fn cursor_delete_char_undoes_insert_char() {
    let mut table = PieceTable::new("ab".to_string());
    let mut cursor = Cursor::new();
    cursor.move_right(&table);
    for c in ['x', 'é', '€', '🦀'] {
        cursor.insert_char(&mut table, c).unwrap();
        assert_eq!(cursor.get_index(), 1 + c.len_utf8());
        assert_eq!(cursor.delete_char(&mut table), Ok(true));
        assert_eq!(cursor.get_index(), 1);
        assert_eq!(table.to_string(), "ab");
    }
}

#[test]
fn cursor_works_with_cursor_after_deletions_across_pieces() {
    let mut table = PieceTable::new("Jose".to_string());
    let mut cursor = Cursor::new();
    cursor.index = 4;
    cursor.insert_char(&mut table, 'p').unwrap();
    cursor.insert_char(&mut table, 'h').unwrap();
    assert_eq!(table.to_string(), "Joseph");
    for expected in ["Josep", "Jose", "Jos", "Jo", "J", ""] {
        assert_eq!(cursor.delete_char(&mut table), Ok(true));
        assert_eq!(table.to_string(), expected);
    }
    assert_eq!(cursor.delete_char(&mut table), Ok(false));
}

#[test]
fn basic_cursor_moves_by_bytes() {
    let mut cursor = basic_cursor::Cursor::new();
    cursor.move_left();
    assert_eq!(cursor.index, 0);
    cursor.move_right(1);
    cursor.move_right(1);
    assert_eq!(cursor.index, 1);
    cursor.index = 10;
    cursor.move_right(3);
    assert_eq!(cursor.index, 10);
    cursor.move_left();
    assert_eq!(cursor.index, 9);
}
