//! Error kinds produced by the order-book core.

use vstd::prelude::*;

verus! {

/// Everything that can go wrong while parsing scalars or applying a block.
#[derive(Debug, Clone, Copy, PartialEq, Eq, Structural)]
pub enum BookError {
    /// A price or size string is not numeric (or does not fit the
    /// fixed-point range).
    ParseError,
    /// An incoming block height is more than one above the current height;
    /// the caller must re-snapshot.
    BlockGap,
    /// The status batch and the diff batch carry different block numbers.
    BlockMismatch,
    /// A `New` diff without a matching status whose source is not a special
    /// address.
    OrphanNew,
    /// An `Update` diff for an oid that is not on the coin's book.
    OrphanUpdate,
    /// A `Remove` diff for an oid that is not on the coin's book.
    OrphanRemove,
    /// An `add` for an oid already present on the coin's book.
    DuplicateOid,
}

} // verus!
