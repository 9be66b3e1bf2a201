//! The ways in which an operation on a bucket can be refused.

use vstd::prelude::*;

verus! {

/// A logical misuse of a bucket.  None of these is transient: the caller
/// gets the error back, and the bucket holds what it held and has counted
/// what it had counted.  Only `create_bucket` leaves a trace when it fails
/// on a writable bucket: the bucket counts as written to afterwards.
#[derive(Debug, Clone, Copy, PartialEq, Eq, Structural)]
pub enum Error {
    /// A mutation was attempted through a transaction that is not writable.
    ReadOnlyTx,
    /// The name does not denote a nested bucket.
    BucketMissing,
    /// A nested bucket with that name already exists.
    BucketExists,
    /// The key holds the other kind of entry (key / value data where a
    /// bucket was expected, or a bucket where key / value data was expected).
    IncompatibleValue,
    /// The key holds no key / value pair.
    KeyValueMissing,
}

} // verus!
