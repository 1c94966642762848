//! Streaming byte-stream editor: insert, delete, cut and replace a
//! contiguous region of a byte stream, reading the source in fixed-size
//! blocks, together with the range/position expression parser that supplies
//! the coordinates of an edit.

pub mod block;
pub mod command;
pub mod edit;
pub mod errors;
pub mod parser;
pub mod position;
pub mod range;
pub mod size;
pub mod utils;
