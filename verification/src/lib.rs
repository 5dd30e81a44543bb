//! NoteGo core library: Markdown note parsing, index helpers and vault
//! bookkeeping, with their contracts proved by Verus.

pub mod text;
pub mod path;
pub mod parser;
pub mod markdown;
pub mod index;
pub mod vault;
pub mod watcher;
pub mod sync;
