//! A piece table for text editing and a cursor that moves over it by UTF-8
//! characters, with their behaviour proved against a model of the document as
//! a sequence of byte segments.

pub mod basic_cursor;
pub mod basic_piece_table;
pub mod boundaries;
pub mod cursor;
pub mod messages;
pub mod piece_table;
pub mod segments;
mod store;

pub use crate::cursor::Cursor;
pub use crate::piece_table::PieceTable;
