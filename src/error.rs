//! The errors of the cache.
use vstd::prelude::*;

verus! {

#[verifier::external_type_specification]
#[verifier::external_body]
pub struct ExIoError(std::io::Error);

#[verifier::external_type_specification]
#[verifier::external_body]
pub struct ExPathBuf(std::path::PathBuf);

/// Errors produced by the cache. Keys are carried by their identifier.
///
/// `E` is the error type of the value's serialisation.
#[derive(Debug)]
pub enum Error<E> {
    /// Cannot initialise the given path as a backing directory.
    ///
    /// This can happen if the path does not resolve to a directory.
    Init(std::path::PathBuf),
    /// An item cannot be found with this key in cache.
    NotInCache(u128),
    /// An item cannot be found with this key on disk.
    NotOnDisk(u128),
    /// An item cannot be found with this key either in cache or on disk.
    NotFound(u128),
    /// An error occurred while serialising/deserialising.
    Serde(E),
    /// An error occurred while performing IO.
    Io(std::io::Error),
    /// An item with this key is temporarily immutable due to outstanding references.
    ///
    /// This can happen if a reference is held elsewhere, or if this item
    /// is in the process of being flushed to disk.
    Immutable(u128),
}

impl<E> From<std::io::Error> for Error<E> {
    fn from(err: std::io::Error) -> (r: Self)
        ensures
            r == Error::<E>::Io(err),
    {
        Error::Io(err)
    }
}

impl<E> vstd::std_specs::convert::FromSpecImpl<std::io::Error> for Error<E> {
    open spec fn obeys_from_spec() -> bool {
        true
    }

    open spec fn from_spec(err: std::io::Error) -> Self {
        Error::Io(err)
    }
}

} // verus!
