//! The errors the engine itself reports.  Collaborator failures
//! (storage, presentation) stay with the code that talks to them.

use vstd::prelude::*;

verus! {

#[derive(Clone, Debug, PartialEq, Eq)]
pub enum MathemaError {
    /// A card-file line opens with an unknown word.
    UnrecognizedLineKind { source_line: u64, kind: String },
    /// A language tag nobody knows.
    UnrecognizedLanguage { text: String },
    /// A card already carries an id where none may stand yet.
    PreexistingUUID { file: String, line: u64 },
    /// A card's id line does not hold a readable id.
    InvalidUUID { file: String, line: u64 },
    /// No question kinds exist for the requested language.
    DontKnowHowToQuiz { language: String },
}

} // verus!
