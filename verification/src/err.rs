use vstd::prelude::*;

verus! {

/// Every failure the allocator and the mapper can report.
#[derive(Clone, Copy, Debug, PartialEq, Eq, Structural)]
pub enum MemError {
    /// A zero-page allocation was requested.
    InvalidRequest,
    /// No sufficiently long free run of pages exists.
    OutOfMemory,
    /// A null pointer, an out-of-range pointer, or a taken run missing its
    /// terminal marker before an untaken page (a corruption or double-free signal).
    InvalidFree,
    /// A leaf mapping was requested with no access permission, or with a
    /// permission bit outside read/write/execute/user/global.
    InvalidFlags,
    /// An attempt to map through a path that already terminates in a leaf.
    MappingConflict,
    /// A non-page-aligned address was supplied where page alignment is required.
    UnalignedPointer,
}

} // verus!
