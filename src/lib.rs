//! Reconciliation engine for a per-branch rolling draft release: version
//! resolution, release selection and release-notes composition.
use vstd::prelude::*;

pub mod text;
pub mod order;
pub mod release;
pub mod config;
pub mod notes;
pub mod version;
pub mod inputs;
pub mod forge;

verus! {

} // verus!
