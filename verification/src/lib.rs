//! Resolution and merge engine for `.gitignore` templates.
//!
//! The library builds a catalog of named ignore templates from three
//! sources (vendor templates, user aliases, user templates), resolves
//! requested names into merged text with a fixed precedence, searches the
//! catalog by substring, and computes deduplicated line batches for
//! appending to an existing `.gitignore` file.

pub mod data;
pub mod merge;
pub mod resolve;
pub mod text;

use vstd::prelude::*;

verus! {

/// Key prefix for templates found in the `Global` subdirectory of the
/// template store.
pub open spec fn global_prefix() -> Seq<char> {
    "Global/"@
}

} // verus!


