//! Errors of the reader and of the temporal index.

use crate::fields::Fields;
use crate::types::VoxelKey;
use vstd::prelude::*;

verus! {

/// Errors of the `las` crate.
#[verifier::external_type_specification]
#[verifier::external_body]
pub struct ExLasError(las::Error);

/// Errors of the `laz` crate.
#[verifier::external_type_specification]
#[verifier::external_body]
pub struct ExLazError(laz::LasZipError);

/// What can go wrong in reading a COPC file.
#[derive(Debug)]
pub enum CopcError {
    /// I/O error.
    Io(std::io::Error),
    /// LAS error.
    Las(las::Error),
    /// LAZ error.
    Laz(laz::LasZipError),
    /// COPC info VLR not found.
    CopcInfoNotFound,
    /// LAZ VLR not found.
    LazVlrNotFound,
    /// A hierarchy page is truncated.
    TruncatedHierarchyPage {
        /// File offset of the page.
        offset: u64,
    },
    /// Points were asked for of a chunk that was decoded with only these fields.
    PartialDecode(Fields),
    /// No entry for this node is loaded.
    NodeNotFound(VoxelKey),
}

/// What can go wrong in reading a temporal index.
#[derive(Debug)]
pub enum TemporalError {
    /// The header of the temporal index EVLR is truncated.
    TruncatedHeader,
    /// The temporal index has a version that is not supported.
    UnsupportedVersion(u32),
    /// The stride is not at least 1.
    InvalidStride(u32),
    /// I/O error in reading the temporal index.
    Io(std::io::Error),
    /// Error in reading the COPC file.
    Copc(CopcError),
}

} // verus!
