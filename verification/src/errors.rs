use vstd::prelude::*;

verus! {

/// The error kinds that flattening and unflattening can report.
#[derive(Clone, Copy, Debug, PartialEq, Eq)]
pub enum Error {
    /// `flatten` was called on a top-level value that is not an object.
    NotAnObject,
    /// A container reached the scalar-insertion step of `flatten`
    /// (defensive; unreachable from the recursive dispatch).
    NotAValue,
    /// A path failed to tokenize, or a segment failed to parse as an array
    /// index where one was required, or the synthesized root entry was
    /// missing when `unflatten` finished.
    InvalidProperty,
    /// Reserved for array-homogeneity violations; part of the taxonomy for
    /// conformance, not raised by `flatten` or `unflatten` themselves.
    MixedTypeArray,
    /// A path requires descending into, or inserting onto, a node that
    /// already holds a scalar where a container is needed.
    InvalidType,
    /// Internal consistency fault while descending into an object child
    /// (defensive; unreachable from well-formed tokenization).
    Unspecified,
    /// Internal consistency fault while descending into an array child:
    /// an index beyond the array's append position.
    FormatError,
}

} // verus!
