//! The deciding half of a Telegram bridge for a herd of coding agents: what a pane has newly
//! said and whether it is worth a message, the rules that keep the hub's file trees mailboxes,
//! which files a sweep takes away, and what the operator is told when a second hub may not start.

pub mod lock;
pub mod media;
pub mod mirror;
pub mod prose;
pub mod stamp;
pub mod sweep;
pub mod table;
pub mod text;
