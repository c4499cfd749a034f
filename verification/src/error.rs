//! What a call can fail with.

use vstd::prelude::*;

use crate::format::FileFormat;
use crate::text::Text;

verus! {

/// Why no result could be given.
#[derive(Debug)]
pub enum Error {
    /// The format of a file could not be told; `path` is empty, or says for
    /// which path.
    UnknownFormat { path: String },
    /// A file could not be read.
    Decode { format: FileFormat, message: String },
    /// The merged tree could not be written.
    Encode { format: FileFormat, message: String },
    /// Something that should not happen.
    Internal(String),
}

/// The mathematical counterpart of [`Error`].
pub ghost enum ErrorModel {
    UnknownFormat(Text),
    Decode(FileFormat, Text),
    Encode(FileFormat, Text),
    Internal(Text),
}

impl View for Error {
    type V = ErrorModel;

    open spec fn view(&self) -> ErrorModel {
        match *self {
            Error::UnknownFormat { path } => ErrorModel::UnknownFormat(path@),
            Error::Decode { format, message } => ErrorModel::Decode(format, message@),
            Error::Encode { format, message } => ErrorModel::Encode(format, message@),
            Error::Internal(message) => ErrorModel::Internal(message@),
        }
    }
}

/// The error for a file whose format could not be told.
pub open spec fn unknown_format(path: Option<Text>) -> ErrorModel {
    ErrorModel::UnknownFormat(
        match path {
            Some(p) => " for "@ + p,
            None => Seq::empty(),
        },
    )
}

/// The message that an error is shown with.
pub open spec fn error_text(e: ErrorModel) -> Text {
    match e {
        ErrorModel::UnknownFormat(path) => "could not detect Roblox file format"@ + path,
        ErrorModel::Decode(f, message) => "failed to decode "@ + crate::format::format_label(f) + ": "@
            + message,
        ErrorModel::Encode(f, message) => "failed to encode "@ + crate::format::format_label(f) + ": "@
            + message,
        ErrorModel::Internal(message) => message,
    }
}

impl Error {
    /// The message that the error is shown with.
    pub fn message(&self) -> (res: String)
        ensures
            res@ == error_text(self@),
    {
        match self {
            Error::UnknownFormat { path } => {
                let mut out = "could not detect Roblox file format".to_owned();
                out.append(path.as_str());
                out
            },
            Error::Decode { format, message } => {
                let mut out = "failed to decode ".to_owned();
                out.append(format.label());
                out.append(": ");
                out.append(message.as_str());
                out
            },
            Error::Encode { format, message } => {
                let mut out = "failed to encode ".to_owned();
                out.append(format.label());
                out.append(": ");
                out.append(message.as_str());
                out
            },
            Error::Internal(message) => message.clone(),
        }
    }
}

} // verus!
