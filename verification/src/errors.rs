//! Errors that reading, writing and erasing a storage medium can give.
//!
//! Each family is closed but for its `Other` variant, which carries whatever
//! the medium itself reports.

use core::fmt::Debug;
use vstd::prelude::*;
use vstd::std_specs::convert::FromSpecImpl;

verus! {

/// Why a write was refused or failed.
///
/// The unit of the offsets is that of the operation that returns the error:
/// sectors for a sector write.
#[derive(Debug, Clone, Copy, PartialEq, Eq, Hash)]
#[non_exhaustive]
pub enum WriteError<E: Debug> {
    /// The request lies outside the medium: `requested_offset` is not below
    /// `max_offset`.
    OutOfRange { requested_offset: usize, max_offset: usize },
    /// The caller gave `bytes_given` bytes where a sector has
    /// `bytes_in_a_sector`.
    InvalidNumberOfBytes { bytes_given: usize, bytes_in_a_sector: usize },
    /// The caller gave `words_given` words where a sector has
    /// `words_in_a_sector`.
    InvalidNumberOfWords { words_given: usize, words_in_a_sector: usize },
    /// A failure of the medium's own.
    Other(E),
}

impl<E: Debug> From<E> for WriteError<E> {
    fn from(other: E) -> (error: Self)
        ensures
            error == WriteError::Other(other),
    {
        WriteError::Other(other)
    }
}

impl<E: Debug> FromSpecImpl<E> for WriteError<E> {
    open spec fn obeys_from_spec() -> bool {
        true
    }

    open spec fn from_spec(other: E) -> Self {
        WriteError::Other(other)
    }
}

/// Why a read was refused or failed.
///
/// The unit of the offsets is that of the operation that returns the error:
/// words for a word read, sectors where a medium checks a sector index itself.
#[derive(Debug, Clone, Copy, PartialEq, Eq, Hash)]
#[non_exhaustive]
pub enum ReadError<E: Debug> {
    /// The location has never been written. A medium may hand out zeros
    /// instead of this error.
    Uninitialized { offset: usize },
    /// The request lies outside the medium: `requested_offset` is not below
    /// `max_offset`.
    OutOfRange { requested_offset: usize, max_offset: usize },
    /// A failure of the medium's own.
    Other(E),
}

impl<E: Debug> From<E> for ReadError<E> {
    fn from(other: E) -> (error: Self)
        ensures
            error == ReadError::Other(other),
    {
        ReadError::Other(other)
    }
}

impl<E: Debug> FromSpecImpl<E> for ReadError<E> {
    open spec fn obeys_from_spec() -> bool {
        true
    }

    open spec fn from_spec(other: E) -> Self {
        ReadError::Other(other)
    }
}

/// Why an erase failed. `W` is the payload of the medium's write errors.
#[derive(Debug, Clone, Copy, PartialEq, Eq, Hash)]
#[non_exhaustive]
pub enum EraseError<W: Debug, E: Debug> {
    /// The erase was made of single writes, and one of them failed.
    ErrorInIndividualErase(WriteError<W>),
    /// A failure of the medium's own.
    Other(E),
}

impl<W: Debug, E: Debug> From<E> for EraseError<W, E> {
    fn from(other: E) -> (error: Self)
        ensures
            error == EraseError::<W, E>::Other(other),
    {
        EraseError::Other(other)
    }
}

impl<W: Debug, E: Debug> FromSpecImpl<E> for EraseError<W, E> {
    open spec fn obeys_from_spec() -> bool {
        true
    }

    open spec fn from_spec(other: E) -> Self {
        EraseError::Other(other)
    }
}

} // verus!
