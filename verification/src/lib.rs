//! Navigation core of a terminal text viewer: width-based line wrapping,
//! tokenization of the wrapped text, and a cursor state machine that moves
//! by character, line, home/end and token across wrap boundaries.

pub mod cursor;
pub mod direction;
pub mod tokenizer;
pub mod wrap;
