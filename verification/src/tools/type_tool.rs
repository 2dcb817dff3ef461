//! What the Type tool tells the UI about its session.
use vstd::prelude::*;

verus! {

/// The Type tool's text session, as the UI's textarea sees it.
#[derive(Debug, PartialEq, Eq)]
pub enum TextSession {
    /// A session is open (or its text or selection changed): the textarea
    /// shows `text` with `selection` (byte offsets).
    Open { text: String, selection: (usize, usize) },
    /// The session ended (committed or cancelled): the textarea goes away.
    Closed,
}

impl Clone for TextSession {
    fn clone(&self) -> (copy: Self)
        ensures
            copy == *self,
    {
        match self {
            TextSession::Open { text, selection } => TextSession::Open {
                text: text.clone(),
                selection: (selection.0, selection.1),
            },
            TextSession::Closed => TextSession::Closed,
        }
    }
}

} // verus!
