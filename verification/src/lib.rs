//! Japanese text primitives, the tokenizer's rules, the reading view's spans,
//! the vocabulary ledger's keys and the dictionary manager's commands.
pub mod commands;
pub mod define;
pub mod highlight;
pub mod knowledge;
pub mod strings;
pub mod tables;
pub mod text;
pub mod tokenize;
