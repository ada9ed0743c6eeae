//! The tokens that a scan of message text yields.

use vstd::prelude::*;

verus! {

/// One emoji found in a message.
#[derive(Debug, Clone, PartialEq, Eq)]
pub enum EmojiToken {
    /// A reference to an emoji of the chat platform, by name and numeric id.
    Custom { id: u64, name: String },
    /// An emoji made of Unicode scalar values, as the catalog lists it.
    Unicode(String),
}

/// What an [`EmojiToken`] stands for in contracts.
pub enum TokenView {
    Custom { id: u64, name: Seq<char> },
    Unicode(Seq<char>),
}

impl View for EmojiToken {
    type V = TokenView;

    open spec fn view(&self) -> TokenView {
        match self {
            EmojiToken::Custom { id, name } => TokenView::Custom { id: *id, name: name@ },
            EmojiToken::Unicode(s) => TokenView::Unicode(s@),
        }
    }
}

} // verus!
