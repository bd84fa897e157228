use vstd::prelude::*;

verus! {

/// The ways in which an operation of the library can fail.
#[derive(Clone, Copy, PartialEq, Eq, Debug)]
pub enum MerkleTreeError {
    /// A tree was requested over zero records.
    EmptyData,
    /// A proof was requested for a record whose leaf digest is not in the tree's index.
    RecordNotFound,
    /// A textual digest was not valid hexadecimal.
    InvalidHex,
    /// A decoded digest did not have exactly 32 bytes.
    InvalidLength,
}

} // verus!
