//! Points with whole coordinates, and the pairs of a list of them.
use vstd::prelude::*;
use itertools::Itertools;

verus! {

/// A point of the plane with whole coordinates.
#[derive(Debug, Clone, Copy, PartialEq, Eq, Structural)]
pub struct IVec2 {
    pub x: i64,
    pub y: i64,
}

/// A point of space with whole coordinates.
#[derive(Debug, Clone, Copy, PartialEq, Eq, Structural)]
pub struct IVec3 {
    pub x: i64,
    pub y: i64,
    pub z: i64,
}

/// The point `(x, y)`.
pub fn vec2(x: i64, y: i64) -> (v: IVec2)
    ensures
        v == (IVec2 { x, y }),
{
    IVec2 { x, y }
}

/// The point `(x, y, z)`.
pub fn vec3(x: i64, y: i64, z: i64) -> (v: IVec3)
    ensures
        v == (IVec3 { x, y, z }),
{
    IVec3 { x, y, z }
}

/// Whether `pairs` holds the pair of `i` and `j`.
pub open spec fn lists_pair(pairs: Seq<(usize, usize)>, i: usize, j: usize) -> bool {
    exists|k: int| 0 <= k < pairs.len() && #[trigger] pairs[k] == (i, j)
}

/// Every pair of different indices below `n`, the lesser first. This is
/// `Itertools::tuple_combinations` on the range of those indices: each pair
/// comes once, so that there are half of `n` times `n - 1` of them, and the
/// pairs come in the order of their first index and then of their second.
#[verifier::external_body]
#[allow(deprecated)]
pub(crate) fn index_pairs(n: usize) -> (pairs: Vec<(usize, usize)>)
    ensures
        pairs@.len() == n * (n - 1) / 2,
        forall|k: int| 0 <= k < pairs@.len() ==> (#[trigger] pairs@[k]).0 < pairs@[k].1 < n,
        forall|i: usize, j: usize| i < j < n ==> #[trigger] lists_pair(pairs@, i, j),
        forall|k: int, m: int|
            0 <= k < m < pairs@.len() ==> (#[trigger] pairs@[k]).0 < (#[trigger] pairs@[m]).0 || (pairs@[k].0
                == pairs@[m].0 && pairs@[k].1 < pairs@[m].1),
{
    (0..n).tuple_combinations().collect()
}

/// Every index below `n` with the one after it, the last with the first.
/// This is `Itertools::circular_tuple_windows` on the range of those
/// indices.
#[verifier::external_body]
pub(crate) fn index_windows(n: usize) -> (windows: Vec<(usize, usize)>)
    ensures
        windows@.len() == n,
        forall|i: int|
            0 <= i < n ==> #[trigger] windows@[i] == (i as usize, if i + 1 == n {
                0usize
            } else {
                (i + 1) as usize
            }),
{
    (0..n).circular_tuple_windows().collect()
}

} // verus!
