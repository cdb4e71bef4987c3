//! What the tools are told about the raster they write.

use std::path::PathBuf;
use vstd::prelude::*;

verus! {

/// A path in the file system: `std::path::PathBuf`, carried through and
/// never looked into.
#[verifier::external_type_specification]
#[verifier::external_body]
pub struct ExPathBuf(PathBuf);

/// Where a raster is read from.
pub type InputArgs = PathBuf;

/// Where a raster is written to, and by which driver.
pub struct OutputArgs {
    pub path: PathBuf,
    pub driver: String,
}

} // verus!
