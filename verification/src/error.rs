//! Error type shared by the store-facing decisions of the library.
use vstd::prelude::*;
use crate::text::push_str;

verus! {

/// All recoverable failures produced by the store layer.
#[derive(Debug, Clone, PartialEq, Eq)]
pub enum AtlasError {
    /// Underlying database failure, with the driver's message.
    Db(String),
    /// A session, task, or edge target does not exist.
    NotFound(String),
    /// Adding the edge would close a dependency cycle.
    Cycle { child: String, parent: String },
    /// Unknown or unexpected state value.
    InvalidState(String),
    /// The requested state transition is not allowed.
    InvalidTransition(String),
    /// A forge gate (branch, CI, deploy target) refused the request.
    Forge(String),
}

/// The human-readable rendering of an error.
pub open spec fn error_message(e: AtlasError) -> Seq<char> {
    match e {
        AtlasError::Db(m) => "database error: "@ + m@,
        AtlasError::NotFound(m) => "not found: "@ + m@,
        AtlasError::Cycle { child, parent } => "cycle rejected: task "@ + child@ + " already reaches "@ + parent@,
        AtlasError::InvalidState(m) => "invalid state: "@ + m@,
        AtlasError::InvalidTransition(m) => "invalid transition: "@ + m@,
        AtlasError::Forge(m) => "forge: "@ + m@,
    }
}

impl AtlasError {
    /// The error rendered as text (what `Display` shows in the CLI).
    pub fn message(&self) -> (r: String)
        ensures
            r@ == error_message(*self),
    {
        let mut out = String::new();
        match self {
            AtlasError::Db(m) => {
                push_str(&mut out, "database error: ");
                push_str(&mut out, m.as_str());
            },
            AtlasError::NotFound(m) => {
                push_str(&mut out, "not found: ");
                push_str(&mut out, m.as_str());
            },
            AtlasError::Cycle { child, parent } => {
                push_str(&mut out, "cycle rejected: task ");
                push_str(&mut out, child.as_str());
                push_str(&mut out, " already reaches ");
                push_str(&mut out, parent.as_str());
            },
            AtlasError::InvalidState(m) => {
                push_str(&mut out, "invalid state: ");
                push_str(&mut out, m.as_str());
            },
            AtlasError::InvalidTransition(m) => {
                push_str(&mut out, "invalid transition: ");
                push_str(&mut out, m.as_str());
            },
            AtlasError::Forge(m) => {
                push_str(&mut out, "forge: ");
                push_str(&mut out, m.as_str());
            },
        }
        out
    }
}

} // verus!
