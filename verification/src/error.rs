use vstd::prelude::*;
use vstd::string::StringExecFns;

verus! {

/// What went wrong while reading or writing a comparison or config file.
#[derive(Debug)]
pub enum Error {
    /// The file could not be read or written.
    IO { msg: String },
    /// The file content could not be decoded.
    Binary { msg: String },
}

/// The text shown for an error: a prefix for its kind, then its message.
pub open spec fn error_text(e: Error) -> Seq<char> {
    match e {
        Error::IO { msg } => "Failed to read/write file!: "@ + msg@,
        Error::Binary { msg } => "Failed to decode file!: "@ + msg@,
    }
}

impl Error {
    /// The text shown for this error.
    pub fn to_string(&self) -> (r: String)
        ensures
            r@ == error_text(*self),
    {
        match self {
            Error::IO { msg } => {
                let prefix = String::from_str("Failed to read/write file!: ");
                prefix.concat(msg.as_str())
            },
            Error::Binary { msg } => {
                let prefix = String::from_str("Failed to decode file!: ");
                prefix.concat(msg.as_str())
            },
        }
    }
}

} // verus!
