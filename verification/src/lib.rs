//! Declarative construction of layered sum types and of the conversion
//! functions between them.
//!
//! The crate models two build-time generators that share one primitive:
//! a tree compiler that turns a nested schema into type declarations plus
//! a transitive closure of single-hop conversions, and a structural
//! mapping compiler that turns a list of per-variant correspondence rules
//! between two independently declared sum types into one total conversion
//! function.

use vstd::prelude::*;

pub mod chain;
pub mod mapping;
pub mod simple;
pub mod tree;
pub mod value;

verus! {

/// Hand a future back unchanged while making the compiler check that it
/// is `Send`: a pinning point for callers whose inference would
/// otherwise lose that bound.
pub fn assert_send<R: Send, F: Send + core::future::Future<Output = R>>(fut: F) -> (r: F)
    ensures
        r == fut,
{
    fut
}

} // verus!
