//! The library's error type.

use vstd::prelude::*;

verus! {

/// `std::io::Error`, carried in `Error::Io`.
#[verifier::external_type_specification]
#[verifier::external_body]
pub struct ExIoError(std::io::Error);

/// What can go wrong when scanning HTML or checking CSS.
#[derive(Debug)]
pub enum Error {
    /// Reading a file failed.
    Io(std::io::Error),
    /// lol_html refused a selector, or failed while matching it.
    Selector(String),
    /// The stylesheet could not be parsed.
    CssParse(String),
}

/// The result type of the library.
pub type Result<T> = std::result::Result<T, Error>;

} // verus!
