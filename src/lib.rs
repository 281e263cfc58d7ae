//! A personal logbook store: timestamped entries made of typed items, with
//! tags, people and issue-tracker references attached to items, plus
//! projects and meetings. The store keeps referential integrity, unique
//! names and cascading deletes as a proved invariant, and renders its
//! contents as CSV or Markdown.

pub mod time;
pub mod rows;
pub mod order;
pub mod table;
pub mod store;
pub mod laws;
pub mod export;
pub mod commands;
