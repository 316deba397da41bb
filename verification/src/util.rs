//! Rendering and collection helpers shared by the registry and the solvers.
use vstd::prelude::*;
use crate::util::order::{comparable, lt_holds};

pub mod bitmap;
pub mod char;
pub mod grid;
pub mod hash;
pub mod numbers;
pub mod order;
pub mod output;
pub mod parse;
pub mod slice;
pub mod style;
pub mod text;
pub mod vecset;
pub mod vector;
pub mod write;

verus! {

/// The two values with the lesser first. Values that compare equal, or not
/// at all, stay in the order given.
pub fn min_max<T: PartialOrd>(a: T, b: T) -> (r: (T, T))
    ensures
        r == (a, b) || r == (b, a),
        comparable::<T>() ==> r == (if lt_holds(b, a) {
            (b, a)
        } else {
            (a, b)
        }),
{
    if b < a {
        (b, a)
    } else {
        (a, b)
    }
}

} // verus!
