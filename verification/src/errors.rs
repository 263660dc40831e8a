//! The error taxonomy of the storage engine.
//!
//! Every public operation translates a failure into exactly one of these
//! kinds; no raw OS error escapes the engine's contract.

use vstd::prelude::*;

verus! {

/// One failure kind per distinct user-visible outcome.  The structured
/// fields (path, size, ...) are separate from any human-readable rendering
/// so that callers can branch on the kind without string matching.
#[derive(Debug)]
pub enum ApiError {
    /// The target of the operation is absent.
    FileNotFound { path: String },
    /// An upload or rename refused to overwrite an existing entry.
    FileExists { path: String },
    /// The logical path is malformed or attempts to escape the storage root.
    InvalidPath { path: String },
    /// An upload exceeds the configured maximum size.
    FileTooLarge { size: u64 },
    /// The filename's extension is not in the configured allow-list.
    InvalidFileType { file_type: String },
    /// The operation is semantically wrong for its target
    /// (download a directory, create a directory that exists, ...).
    BadRequest { message: String },
    /// No valid principal accompanied the request.
    Unauthorized { message: String },
    /// The principal lacks the role the operation demands.
    Forbidden { message: String },
    /// An unexpected failure outside the engine's own rules.
    InternalServerError { message: String },
}

pub open spec fn msg_file_not_found(path: Seq<char>) -> Seq<char> {
    "file not found: "@ + path
}

pub open spec fn msg_file_exists(path: Seq<char>) -> Seq<char> {
    "file already exists: "@ + path
}

pub open spec fn msg_invalid_path(path: Seq<char>) -> Seq<char> {
    "invalid path: "@ + path
}

pub open spec fn msg_file_too_large() -> Seq<char> {
    "file exceeds the configured maximum size"@
}

pub open spec fn msg_invalid_file_type(file_type: Seq<char>) -> Seq<char> {
    "invalid file type: "@ + file_type
}

impl ApiError {
    /// The human-readable message of each kind, over its structured
    /// fields.
    pub open spec fn message_spec(&self) -> Seq<char> {
        match self {
            ApiError::FileNotFound { path } => msg_file_not_found(path@),
            ApiError::FileExists { path } => msg_file_exists(path@),
            ApiError::InvalidPath { path } => msg_invalid_path(path@),
            ApiError::FileTooLarge { .. } => msg_file_too_large(),
            ApiError::InvalidFileType { file_type } => msg_invalid_file_type(file_type@),
            ApiError::BadRequest { message } => message@,
            ApiError::Unauthorized { message } => message@,
            ApiError::Forbidden { message } => message@,
            ApiError::InternalServerError { message } => message@,
        }
    }

    /// Render the error as a message string.  For the kinds whose message
    /// the engine itself writes, the result is never empty.
    pub fn message(&self) -> (r: String)
        ensures
            r@ == self.message_spec(),
            !(self is BadRequest || self is Unauthorized || self is Forbidden
                || self is InternalServerError) ==> r@.len() > 0,
    {
        match self {
            ApiError::FileNotFound { path } => {
                proof {
                    reveal_strlit("file not found: ");
                }
                String::from_str("file not found: ").concat(path.as_str())
            },
            ApiError::FileExists { path } => {
                proof {
                    reveal_strlit("file already exists: ");
                }
                String::from_str("file already exists: ").concat(path.as_str())
            },
            ApiError::InvalidPath { path } => {
                proof {
                    reveal_strlit("invalid path: ");
                }
                String::from_str("invalid path: ").concat(path.as_str())
            },
            ApiError::FileTooLarge { .. } => {
                proof {
                    reveal_strlit("file exceeds the configured maximum size");
                }
                String::from_str("file exceeds the configured maximum size")
            },
            ApiError::InvalidFileType { file_type } => {
                proof {
                    reveal_strlit("invalid file type: ");
                }
                String::from_str("invalid file type: ").concat(file_type.as_str())
            },
            ApiError::BadRequest { message } => String::from_str(message.as_str()),
            ApiError::Unauthorized { message } => String::from_str(message.as_str()),
            ApiError::Forbidden { message } => String::from_str(message.as_str()),
            ApiError::InternalServerError { message } => String::from_str(message.as_str()),
        }
    }

    /// A stable machine-readable code, one per kind.
    pub fn code(&self) -> (r: &'static str)
        ensures
            r@ == self.code_spec(),
    {
        match self {
            ApiError::FileNotFound { .. } => "file_not_found",
            ApiError::FileExists { .. } => "file_exists",
            ApiError::InvalidPath { .. } => "invalid_path",
            ApiError::FileTooLarge { .. } => "file_too_large",
            ApiError::InvalidFileType { .. } => "invalid_file_type",
            ApiError::BadRequest { .. } => "bad_request",
            ApiError::Unauthorized { .. } => "unauthorized",
            ApiError::Forbidden { .. } => "forbidden",
            ApiError::InternalServerError { .. } => "internal_server_error",
        }
    }

    /// The HTTP status each kind maps to.
    pub fn status_code(&self) -> (r: u16)
        ensures
            r == self.status_code_spec(),
    {
        match self {
            ApiError::FileNotFound { .. } => 404,
            ApiError::FileExists { .. } => 409,
            ApiError::InvalidPath { .. } => 400,
            ApiError::FileTooLarge { .. } => 413,
            ApiError::InvalidFileType { .. } => 422,
            ApiError::BadRequest { .. } => 400,
            ApiError::Unauthorized { .. } => 401,
            ApiError::Forbidden { .. } => 403,
            ApiError::InternalServerError { .. } => 500,
        }
    }

    pub open spec fn status_code_spec(&self) -> u16 {
        match self {
            ApiError::FileNotFound { .. } => 404,
            ApiError::FileExists { .. } => 409,
            ApiError::InvalidPath { .. } => 400,
            ApiError::FileTooLarge { .. } => 413,
            ApiError::InvalidFileType { .. } => 422,
            ApiError::BadRequest { .. } => 400,
            ApiError::Unauthorized { .. } => 401,
            ApiError::Forbidden { .. } => 403,
            ApiError::InternalServerError { .. } => 500,
        }
    }

    pub open spec fn code_spec(&self) -> Seq<char> {
        match self {
            ApiError::FileNotFound { .. } => "file_not_found"@,
            ApiError::FileExists { .. } => "file_exists"@,
            ApiError::InvalidPath { .. } => "invalid_path"@,
            ApiError::FileTooLarge { .. } => "file_too_large"@,
            ApiError::InvalidFileType { .. } => "invalid_file_type"@,
            ApiError::BadRequest { .. } => "bad_request"@,
            ApiError::Unauthorized { .. } => "unauthorized"@,
            ApiError::Forbidden { .. } => "forbidden"@,
            ApiError::InternalServerError { .. } => "internal_server_error"@,
        }
    }
}

} // verus!
