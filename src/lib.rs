//! A content-addressed store of immutable blobs and trees: the tree value,
//! its canonical digest, and the decisions of the two-tier blob store and of
//! the referentially checked tree store.
use vstd::prelude::*;

pub mod digest;
pub mod names;
pub mod tree;
pub mod store;

verus! {

/// The greeting string that the companion C interface also exports.
pub fn get_rust_str() -> (r: &'static str)
    ensures
        r@ == "Rust function!"@,
{
    proof {
        reveal_strlit("Rust function!");
    }
    "Rust function!"
}

} // verus!
