//! A failure that prevented canonical text from being produced at all.

use vstd::prelude::*;
use vstd::string::StringExecFns;

verus! {

#[verifier::external_type_specification]
#[verifier::external_body]
pub struct ExIoError(std::io::Error);

/// A failure that prevented canonical text from being produced at all.
///
/// Distinct from [`crate::types::DocumentStatus`], which reports *why* a document that
/// parsed without error still yielded no useful keywords. A scanned PDF is not an error —
/// it parses correctly and simply has no text layer.
#[derive(Debug)]
pub enum ExtractError {
    UnsupportedFormat(String),
    Encrypted,
    Parse(String),
    Io(std::io::Error),
    Resource(String),
}

/// `std::io::Error`'s `Display` text. Nothing is stated of it: the message comes from
/// the operating system.
#[verifier::external_body]
pub(crate) fn io_error_text(e: &std::io::Error) -> String {
    e.to_string()
}

impl ExtractError {
    /// The human-readable message: the variant's description followed by its detail.
    pub fn message(&self) -> (r: String)
        ensures
            self matches ExtractError::UnsupportedFormat(d) ==> r@ == "unsupported format: "@ + d@,
            self matches ExtractError::Encrypted ==> r@
                == "document is encrypted and no password was supplied"@,
            self matches ExtractError::Parse(d) ==> r@ == "parse failure: "@ + d@,
            self matches ExtractError::Resource(d) ==> r@
                == "resource override could not be loaded: "@ + d@,
    {
        match self {
            ExtractError::UnsupportedFormat(d) => String::from_str("unsupported format: ").concat(
                d.as_str(),
            ),
            ExtractError::Encrypted => String::from_str(
                "document is encrypted and no password was supplied",
            ),
            ExtractError::Parse(d) => String::from_str("parse failure: ").concat(d.as_str()),
            ExtractError::Io(e) => String::from_str("i/o error: ").concat(io_error_text(e).as_str()),
            ExtractError::Resource(d) => String::from_str(
                "resource override could not be loaded: ",
            ).concat(d.as_str()),
        }
    }
}

} // verus!
