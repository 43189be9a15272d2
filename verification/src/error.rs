//! The errors that the operations on a project report.

use vstd::prelude::*;

use crate::format::Model;

verus! {

/// The error of an I/O operation.
///
/// Declares `std::io::Error`; nothing is claimed of what is inside.
#[verifier::external_type_specification]
#[verifier::external_body]
pub struct ExIoError(std::io::Error);

/// Why an operation on a project failed.
#[derive(Debug)]
pub enum Error {
    /// The compound file could not be read or changed.
    Cfb(std::io::Error),
    /// Data could not be written.
    Io(std::io::Error),
    /// A stream could not be decompressed.
    Decompressor,
    /// The *dir* stream does not have the expected format.
    Parser,
    /// The project has no module of this name.
    ModuleNotFound(String),
    /// A requested change cannot be made, for the given reason.
    Generic(String),
}

/// What an [`Error`] says, without the details of an I/O error.
#[verifier::ext_equal]
pub enum ErrorView {
    Cfb,
    Io,
    Decompressor,
    Parser,
    ModuleNotFound(Seq<char>),
    Generic(Seq<char>),
}

impl View for Error {
    type V = ErrorView;

    open spec fn view(&self) -> ErrorView {
        match self {
            Error::Cfb(_) => ErrorView::Cfb,
            Error::Io(_) => ErrorView::Io,
            Error::Decompressor => ErrorView::Decompressor,
            Error::Parser => ErrorView::Parser,
            Error::ModuleNotFound(name) => ErrorView::ModuleNotFound(name@),
            Error::Generic(reason) => ErrorView::Generic(reason@),
        }
    }
}

/// Whether `result` is what `outcome` says: the same value or the same error.
pub open spec fn yields<T: Model>(
    result: Result<T, Error>,
    outcome: Result<T::M, ErrorView>,
) -> bool {
    match result {
        Ok(value) => outcome == Ok::<T::M, ErrorView>(value.model()),
        Err(error) => outcome == Err::<T::M, ErrorView>(error@),
    }
}

} // verus!
