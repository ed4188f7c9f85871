//! Japanese text primitives — pure functions over a string, no state and no
//! dictionary. They answer questions about the *characters*, not about the
//! words, and are shared because the answers have to agree everywhere.
pub mod chars;
pub mod kana;
pub mod kanji;
