//! Errors of the storage layer.
use vstd::prelude::*;
use vstd::string::*;

verus! {

/// Stable code of a project-level failure.
#[derive(Clone, Copy, Debug, PartialEq, Eq, Structural)]
pub enum ProjectErrorCode {
    /// A persisted record violates its contract.
    ProjectCorrupt,
}

/// Failure of a storage operation.
#[derive(Debug, PartialEq, Eq)]
pub enum GfError {
    /// A storage artifact or its I/O is not what its authority says.
    Storage(String),
    /// A caller-supplied value is not acceptable.
    Validation(String),
    /// A project-level record is not acceptable.
    Project {
        /// Stable code.
        code: ProjectErrorCode,
        /// Human-readable explanation.
        message: String,
    },
}

impl GfError {
    /// Whether this is the storage failure with exactly this message.
    pub open spec fn is_storage(self, message: Seq<char>) -> bool {
        self matches GfError::Storage(text) && text@ == message
    }

    /// Whether this is the validation failure with exactly this message.
    pub open spec fn is_validation(self, message: Seq<char>) -> bool {
        self matches GfError::Validation(text) && text@ == message
    }

    /// Whether this is project corruption with exactly this message.
    pub open spec fn is_corrupt(self, message: Seq<char>) -> bool {
        self matches GfError::Project { code, message: text } && code
            == ProjectErrorCode::ProjectCorrupt && text@ == message
    }

    /// The message of the failure.
    pub open spec fn text(self) -> Seq<char> {
        match self {
            GfError::Storage(text) => text@,
            GfError::Validation(text) => text@,
            GfError::Project { code: _, message } => message@,
        }
    }

    /// The message of the failure.
    pub fn message(&self) -> (text: String)
        ensures
            text@ == self.text(),
    {
        match self {
            GfError::Storage(text) => text.clone(),
            GfError::Validation(text) => text.clone(),
            GfError::Project { code: _, message } => message.clone(),
        }
    }

    /// Stable code of the failure class.
    pub fn code(&self) -> (code: &'static str)
        ensures
            code@ == match self {
                GfError::Storage(_) => "GF_STORAGE"@,
                GfError::Validation(_) => "GF_VALIDATION"@,
                GfError::Project { code: _, message: _ } => "GF_PROJECT_CORRUPT"@,
            },
    {
        match self {
            GfError::Storage(_) => "GF_STORAGE",
            GfError::Validation(_) => "GF_VALIDATION",
            GfError::Project { code: _, message: _ } => "GF_PROJECT_CORRUPT",
        }
    }
}

/// A storage failure with this message.
pub fn storage_err(message: &str) -> (error: GfError)
    ensures
        error.is_storage(message@),
{
    GfError::Storage(message.to_owned())
}

/// A project-corruption failure with this message.
pub fn corrupt(message: &str) -> (error: GfError)
    ensures
        error.is_corrupt(message@),
{
    GfError::Project { code: ProjectErrorCode::ProjectCorrupt, message: message.to_owned() }
}

/// Concatenation of three texts.
pub fn concat3(first: &str, second: &str, third: &str) -> (text: String)
    ensures
        text@ == first@ + second@ + third@,
{
    let mut text: String = first.to_owned();
    text.append(second);
    text.append(third);
    text
}

} // verus!
