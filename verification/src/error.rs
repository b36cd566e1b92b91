//! What can go wrong.
use vstd::prelude::*;

verus! {

/// Why an operation was refused or could not be carried out.
#[derive(Debug, Clone, Copy, PartialEq, Eq, Structural)]
pub enum BrassError {
    /// No object has the given name.
    ObjectNotFound,
    /// The stored bytes are not a sound zlib stream.
    CorruptStream,
    /// An object has no header.
    MissingHeader,
    /// The header of an object is blank.
    MissingType,
    /// The header of an object names no known kind of object.
    UnknownType,
    /// A line of a tree is not UTF-8.
    TreeNotUtf8,
    /// A line of a tree has no NUL between the name and the hash.
    TreeEntryWithoutNul,
    /// A tree contains itself.
    CyclicTree,
    /// A commit is its own ancestor.
    CyclicHistory,
    /// The index ends before its header does.
    IndexTooShort,
    /// The index does not begin with the magic number.
    IndexBadMagic,
    /// The index has another format version.
    IndexBadVersion(u32),
    /// The index ends inside the fixed part of an entry.
    IndexTruncated,
    /// The hash of an index entry is not UTF-8.
    IndexHashNotUtf8,
    /// The time of an index entry is too late to be a time.
    IndexTimeOutOfRange,
    /// The path of an index entry reaches past the end of the index.
    IndexPathOutOfData,
    /// The path of an index entry is not UTF-8.
    IndexPathNotUtf8,
    /// An offset or a length in a pack index is not a number.
    PackIndexNotANumber,
    /// A pack is not a row of sound zlib streams.
    CorruptPack,
    /// A stream of a pack takes up no bytes.
    PackWithoutProgress,
    /// There is no loose object to pack.
    NothingToPack,
    /// The user may not write the path.
    PermissionDenied,
    /// Nothing can be checked out under the given name.
    CheckoutTargetMissing,
    /// There is no such leaf.
    LeafMissing,
    /// Two commits have no ancestor in common.
    NoCommonAncestor,
    /// There is no such tag.
    TagMissing,
    /// The remote ref was never fetched.
    TrackingRefMissing,
}

} // verus!
