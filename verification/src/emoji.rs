//! Utilities for working with emoji, both Unicode and custom, in message text.

pub mod builder;
pub mod catalog;
pub mod custom;
pub mod error;
pub mod file_name;
pub mod scan;
pub mod token;

pub use catalog::{CatalogBuilder, EmojiCatalog};
pub use custom::{parse_custom_emoji, try_parse_custom_emoji};
pub use error::Error;
pub use file_name::decode_file_name;
pub use scan::{Iter, Span};
pub use token::EmojiToken;
