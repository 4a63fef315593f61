//! Error taxonomy of the completion core.
//!
//! Parse and offset errors abort the current attempt and are surfaced to the
//! caller; the buffer is never touched on a failed attempt.

use vstd::prelude::*;
use crate::prompts;

verus! {

/// The four literal markers of the patch wire format.
#[derive(Clone, Copy, Debug, PartialEq, Eq, Structural)]
pub enum PatchToken {
    Search,
    Divide,
    Replace,
    Cursor,
}

/// A failure of the completion core.
#[derive(Clone, Debug, PartialEq, Eq)]
pub enum Error {
    /// The cursor marker was lost while windowing the context.
    ContextLost,
    /// The model response lacks the named marker of the patch format.
    PatchFormat(PatchToken),
    /// An opaque failure of the external language-model client.
    Transport(String),
    /// A character offset beyond the end of the text it indexes.
    OffsetOutOfBounds,
}

/// The literal text of a patch marker.
pub open spec fn token_text_spec(t: PatchToken) -> Seq<char> {
    match t {
        PatchToken::Search => prompts::stoken_spec(),
        PatchToken::Divide => prompts::dtoken_spec(),
        PatchToken::Replace => prompts::rtoken_spec(),
        PatchToken::Cursor => prompts::ctoken_spec(),
    }
}

/// The human-readable description of an error.
pub open spec fn message_spec(e: Error) -> Seq<char> {
    match e {
        Error::ContextLost => "cursor token not found in context"@,
        Error::PatchFormat(t) => "Invalid patch format: missing "@ + token_text_spec(t),
        Error::Transport(s) => s@,
        Error::OffsetOutOfBounds => "Out of bounds byte index"@,
    }
}

impl Error {
    /// Renders the error as text for reporting to the user.
    pub fn message(&self) -> (r: String)
        ensures
            r@ == message_spec(*self),
    {
        match self {
            Error::ContextLost => "cursor token not found in context".to_owned(),
            Error::PatchFormat(t) => {
                let tok: &'static str = match t {
                    PatchToken::Search => prompts::stoken(),
                    PatchToken::Divide => prompts::dtoken(),
                    PatchToken::Replace => prompts::rtoken(),
                    PatchToken::Cursor => prompts::ctoken(),
                };
                "Invalid patch format: missing ".to_owned().concat(tok)
            },
            Error::Transport(s) => s.clone(),
            Error::OffsetOutOfBounds => "Out of bounds byte index".to_owned(),
        }
    }
}

} // verus!
