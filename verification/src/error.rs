use vstd::prelude::*;

verus! {

/// Errors returned by construction, update, and query operations.
///
/// Floating-point payloads (the offending coordinate values) are carried as
/// their IEEE-754 bit patterns, so that the error type holds plain integers.
#[derive(Clone, Debug, PartialEq)]
pub enum Error {
    /// Number of points and number of successor lists differ.
    TableLengthMismatch {
        /// Number of points.
        points: usize,
        /// Number of successor lists.
        lists: usize,
    },
    /// A point coordinate is `NaN` or infinite.
    NonFiniteCoordinate {
        /// Point index.
        point: usize,
        /// Coordinate index inside the point.
        coordinate: usize,
        /// Bit pattern of the invalid coordinate value.
        value_bits: u64,
    },
    /// A query coordinate is `NaN` or infinite.
    NonFiniteQuery {
        /// Coordinate index inside the query.
        coordinate: usize,
        /// Bit pattern of the invalid coordinate value.
        value_bits: u64,
    },
    /// Prefix length exceeds the number of stored points.
    InvalidPrefix {
        /// Requested prefix length.
        prefix_len: usize,
        /// Number of stored points.
        len: usize,
    },
    /// A point index is out of bounds.
    InvalidIndex {
        /// Requested index.
        index: usize,
        /// Number of stored points or lists.
        len: usize,
    },
    /// A successor edge is invalid. Successors must satisfy `owner < successor < len`.
    InvalidSuccessor {
        /// Owner list index.
        owner: usize,
        /// Successor index.
        successor: usize,
        /// Number of stored points or lists.
        len: usize,
    },
    /// A successor list is not sorted.
    UnsortedSuccessorList {
        /// Owner list index.
        owner: usize,
        /// Previous entry.
        previous: usize,
        /// Current out-of-order entry.
        current: usize,
    },
    /// A successor list contains a duplicate entry.
    DuplicateSuccessor {
        /// Owner list index.
        owner: usize,
        /// Duplicated successor index.
        successor: usize,
    },
    /// An insertion-time neighbor is not an earlier birth index.
    InvalidInsertionNeighbor {
        /// Index of the point being inserted.
        inserted: usize,
        /// Invalid neighbor index.
        neighbor: usize,
    },
    /// An operation requires an active point, but the point is inactive.
    InactivePoint {
        /// Inactive point index.
        index: usize,
    },
    /// The Delaunay backend returned an error.
    DelaunayKernel {
        /// Delaunay operation that failed.
        operation: String,
        /// Backend error message.
        message: String,
    },
    /// The Delaunay backend produced an internally inconsistent state.
    DelaunayInvariant {
        /// Human-readable invariant violation.
        message: String,
    },
}

} // verus!
