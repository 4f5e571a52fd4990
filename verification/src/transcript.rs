//! What a speech session has to say.

use vstd::prelude::*;

verus! {

/// One message of a speech session.
#[derive(Debug, Clone, PartialEq, Eq)]
pub enum TranscriptUpdate {
    /// Recording has begun. `rolling` tells whether phrases become final while it goes on.
    SessionStarted { rolling: bool },
    /// The draft of the phrase that is being spoken.
    Partial(String),
    /// A phrase is final and will not change any more; recording goes on.
    PhraseFinal(String),
    /// The last phrase is final.
    Final(String),
    Error(String),
}

/// A message as text.
pub enum UpdateText {
    SessionStarted { rolling: bool },
    Partial(Seq<char>),
    PhraseFinal(Seq<char>),
    Final(Seq<char>),
    Error(Seq<char>),
}

impl View for TranscriptUpdate {
    type V = UpdateText;

    open spec fn view(&self) -> UpdateText {
        match self {
            TranscriptUpdate::SessionStarted { rolling } => UpdateText::SessionStarted {
                rolling: *rolling,
            },
            TranscriptUpdate::Partial(text) => UpdateText::Partial(text@),
            TranscriptUpdate::PhraseFinal(text) => UpdateText::PhraseFinal(text@),
            TranscriptUpdate::Final(text) => UpdateText::Final(text@),
            TranscriptUpdate::Error(text) => UpdateText::Error(text@),
        }
    }
}

} // verus!
