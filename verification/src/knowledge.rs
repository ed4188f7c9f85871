//! The shared knowledge of the language and of what has been read: the
//! dictionaries' roles and preferences, the ledger's keys and statuses, and
//! which of the ledger's forms are one word.
pub mod dictionaries;
pub mod lexeme;
pub mod ranking;
pub mod vocabulary;
pub mod work_names;
