//! The error every fallible operation reports, with a stable code the user
//! interface can branch on.

use vstd::prelude::*;

verus! {

#[derive(Clone, Debug, PartialEq, Eq)]
pub enum AppError {
    DocumentNotFound,
    EngineUnavailable,
    PasswordRequired,
    Malformed(String),
    Io(String),
    Stale,
    Unsupported(String),
    Internal(String),
}

pub type AppResult<T> = Result<T, AppError>;

/// The stable code of each variant.
pub open spec fn error_code(e: AppError) -> Seq<char> {
    match e {
        AppError::DocumentNotFound => "not_found"@,
        AppError::EngineUnavailable => "engine"@,
        AppError::PasswordRequired => "password"@,
        AppError::Malformed(_) => "malformed"@,
        AppError::Io(_) => "io"@,
        AppError::Stale => "stale"@,
        AppError::Unsupported(_) => "unsupported"@,
        AppError::Internal(_) => "internal"@,
    }
}

impl AppError {
    pub fn code(&self) -> (c: &'static str)
        ensures
            c@ == error_code(*self),
    {
        match self {
            AppError::DocumentNotFound => "not_found",
            AppError::EngineUnavailable => "engine",
            AppError::PasswordRequired => "password",
            AppError::Malformed(_) => "malformed",
            AppError::Io(_) => "io",
            AppError::Stale => "stale",
            AppError::Unsupported(_) => "unsupported",
            AppError::Internal(_) => "internal",
        }
    }

    /// The message shown to the user.
    pub fn message(&self) -> (m: String)
        ensures
            m@ == error_message(*self),
    {
        match self {
            AppError::DocumentNotFound => "document not found".to_owned(),
            AppError::EngineUnavailable => "engine unavailable".to_owned(),
            AppError::PasswordRequired => "this PDF is password-protected".to_owned(),
            AppError::Malformed(s) => {
                let mut m = "malformed or unsupported PDF: ".to_owned();
                m.append(s.as_str());
                m
            },
            AppError::Io(s) => {
                let mut m = "i/o error: ".to_owned();
                m.append(s.as_str());
                m
            },
            AppError::Stale => "stale request".to_owned(),
            AppError::Unsupported(s) => {
                let mut m = "unsupported: ".to_owned();
                m.append(s.as_str());
                m
            },
            AppError::Internal(s) => s.clone(),
        }
    }
}

/// The message of each variant.
pub open spec fn error_message(e: AppError) -> Seq<char> {
    match e {
        AppError::DocumentNotFound => "document not found"@,
        AppError::EngineUnavailable => "engine unavailable"@,
        AppError::PasswordRequired => "this PDF is password-protected"@,
        AppError::Malformed(s) => "malformed or unsupported PDF: "@ + s@,
        AppError::Io(s) => "i/o error: "@ + s@,
        AppError::Stale => "stale request"@,
        AppError::Unsupported(s) => "unsupported: "@ + s@,
        AppError::Internal(s) => s@,
    }
}

} // verus!
