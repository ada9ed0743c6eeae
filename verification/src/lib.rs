//! Emoji extraction for chat messages, and the small pieces of the bot's
//! command channel and member list that can be stated as functions of plain
//! values.

pub mod emoji;
pub mod ipc;
pub mod text;
pub mod user_list;

pub use ipc::OtherError;
