//! A personal task-list manager: an ordered collection of named,
//! prioritized, completable tasks, an interactive controller that
//! interprets key events against that collection, and a textual
//! codec that persists it.

pub mod app;
pub mod codec;
pub mod text;
pub mod todo;
