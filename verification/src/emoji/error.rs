//! What can go wrong while emoji are read.

use vstd::prelude::*;

verus! {

/// `std::io::Error`, the error of the standard library's input and output.
/// The library looks at nothing inside it: it carries the value from the
/// one who read a directory to the one who asked for the catalog.
#[verifier::external_type_specification]
#[verifier::external_body]
pub struct ExIoError(std::io::Error);

/// An error that can occur while the catalog is built or a custom emoji is
/// parsed.
#[derive(Debug)]
pub enum Error {
    /// A file name could not be decoded as text. It holds the raw name.
    FilenameDecode(Vec<u8>),
    /// The directory could not be listed, or one of its entries could not
    /// be inspected. It holds the error that the attempt gave.
    Io(std::io::Error),
    /// The id of a custom emoji does not fit in 64 bits. It holds the
    /// digits of the id.
    CustomIdParse(String),
}

} // verus!
