use vstd::prelude::*;

use crate::position::Position;

verus! {

/// `2^n`.
pub open spec fn pow2(n: nat) -> nat
    decreases n,
{
    if n == 0 {
        1
    } else {
        2 * pow2((n - 1) as nat)
    }
}

/// Whether bit `axis` of the child index `k` is set.
pub open spec fn axis_bit(k: int, axis: int) -> bool {
    (k / (pow2(axis as nat) as int)) % 2 == 1
}

/// The index formed from the first `n` axes of a cube whose origin, in units
/// of `1 / scale`, is `origin`: bit `i` is set when `p` lies at or above the
/// origin on axis `i`.
pub open spec fn index_upto(origin: Seq<int>, scale: int, p: Seq<i64>, n: nat) -> nat
    decreases n,
{
    if n == 0 {
        0
    } else {
        index_upto(origin, scale, p, (n - 1) as nat) + if p[n - 1] * scale >= origin[n - 1] {
            pow2((n - 1) as nat)
        } else {
            0
        }
    }
}

/// The child index of `p` in the cube centred on `origin / scale`.
pub open spec fn cube_index(origin: Seq<int>, scale: int, p: Seq<i64>) -> nat {
    index_upto(origin, scale, p, origin.len())
}

/// Whether `p` lies in the closed cube `[(origin - extent) / scale, (origin +
/// extent) / scale]` on every axis.
pub open spec fn cube_contains(origin: Seq<int>, extent: int, scale: int, p: Seq<i64>) -> bool {
    &&& p.len() == origin.len()
    &&& forall|i: int|
        0 <= i < origin.len() ==> origin[i] - extent <= #[trigger] (p[i] * scale) <= origin[i]
            + extent
}

/// A region of space that can be split into `2^N` sub-regions.
pub trait Subdivide: Sized {
    spec fn well_formed(&self) -> bool;

    /// Whether the region can be split within the limits of its representation.
    spec fn subdividable(&self) -> bool;

    /// Whether `children` is the subdivision of this region, in child order.
    spec fn is_subdivision(&self, children: Seq<Self>) -> bool;

    fn subdivide(&self) -> (r: Vec<Self>)
        requires
            self.well_formed(),
            self.subdividable(),
        ensures
            self.is_subdivision(r@),
    ;
}

/// A region that tests containment and maps a contained point to the index of
/// the child region that holds it.
pub trait Partition: Subdivide {
    spec fn spec_dimension(&self) -> nat;

    spec fn spec_contains(&self, p: Seq<i64>) -> bool;

    spec fn spec_index(&self, p: Seq<i64>) -> nat;

    fn contains(&self, point: &Position) -> (r: bool)
        requires
            self.well_formed(),
        ensures
            r == self.spec_contains(point@),
    ;

    fn index_unchecked(&self, point: &Position) -> (r: usize)
        requires
            self.well_formed(),
            point@.len() == self.spec_dimension(),
        ensures
            r == self.spec_index(point@),
            r < pow2(self.spec_dimension()),
    ;

    fn index(&self, point: &Position) -> (r: Option<usize>)
        requires
            self.well_formed(),
            point@.len() == self.spec_dimension(),
        ensures
            r == (if self.spec_contains(point@) {
                Some(self.spec_index(point@) as usize)
            } else {
                None
            }),
    {
        if self.contains(point) {
            Some(self.index_unchecked(point))
        } else {
            None
        }
    }
}

} // verus!
