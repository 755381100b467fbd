use vstd::prelude::*;

use crate::partition::{
    axis_bit, cube_contains, cube_index, index_upto, pow2, Partition, Subdivide,
};
use crate::position::Position;

verus! {

/// Every cube lies within `[-BOUND, BOUND]` on every axis.
pub const BOUND: i128 = 4611686018427387904;

/// The largest scale of a cube. A cube is split by doubling its scale, and
/// every numerator up to this scale fits in 128 bits. A cube that holds two
/// different lattice points always has room for one more split.
pub const MAX_SCALE: i128 = 18446744073709551616;

/// The offset of child `k`'s origin numerator on `axis`: `+extent` when bit
/// `axis` of `k` is set, `-extent` otherwise.
pub open spec fn child_offset(k: int, axis: int, extent: int) -> int {
    if axis_bit(k, axis) {
        extent
    } else {
        -extent
    }
}

/// Whether a cube centred on `origin / scale` with half-width
/// `extent / scale` is a valid partition: two or three axes, a scale within
/// bounds, and the cube inside `[-BOUND, BOUND]` on every axis.
pub open spec fn cube_valid(origin: Seq<int>, extent: int, scale: int) -> bool {
    &&& origin.len() == 2 || origin.len() == 3
    &&& 1 <= scale <= MAX_SCALE
    &&& 0 <= extent <= BOUND
    &&& forall|i: int|
        0 <= i < origin.len() ==> -BOUND * scale <= #[trigger] origin[i] - extent && origin[i]
            + extent <= BOUND * scale
}

/// The coordinates of a lattice point as integers.
pub open spec fn as_ints(p: Seq<i64>) -> Seq<int> {
    p.map_values(|v: i64| v as int)
}

/// An axis-aligned hyper-cube of two (a square) or three axes. Its origin and
/// half-width are held exactly as numerators over a common `scale`: the cube
/// is `[(origin - extent) / scale, (origin + extent) / scale]^N`. A cube built
/// from lattice values has scale one; each subdivision doubles the scale and
/// keeps the extent numerator, which halves the half-width exactly.
#[derive(Clone, Debug, PartialEq, Eq)]
pub struct NCube {
    origin: Vec<i128>,
    extent: i128,
    scale: i128,
}

impl NCube {
    pub closed spec fn spec_origin(&self) -> Seq<int> {
        self.origin@.map_values(|v: i128| v as int)
    }

    pub closed spec fn spec_extent(&self) -> int {
        self.extent as int
    }

    pub closed spec fn spec_scale(&self) -> int {
        self.scale as int
    }

    /// Builds the cube centred on `origin` with half-width `extent`, or `None`
    /// when it is not a valid partition.
    pub fn new(origin: Position, extent: u64) -> (r: Option<NCube>)
        ensures
            r.is_some() == cube_valid(as_ints(origin@), extent as int, 1),
            r matches Some(c) ==> c.spec_origin() == as_ints(origin@) && c.spec_extent()
                == extent && c.spec_scale() == 1,
    {
        let n = origin.dimension();
        if n != 2 && n != 3 {
            return None;
        }
        let e = extent as i128;
        if e > BOUND {
            return None;
        }
        let mut o: Vec<i128> = Vec::new();
        let mut i: usize = 0;
        while i < n
            invariant
                n == origin@.len(),
                e == extent,
                0 <= e <= BOUND,
                i <= n,
                o@.len() == i,
                forall|j: int| 0 <= j < i ==> #[trigger] o@[j] == origin@[j],
                forall|j: int|
                    0 <= j < i ==> -BOUND <= #[trigger] origin@[j] - e && origin@[j] + e <= BOUND,
            decreases n - i,
        {
            let c = origin.coordinate(i) as i128;
            if c - e < -BOUND || c + e > BOUND {
                assert(as_ints(origin@)[i as int] == c);
                return None;
            }
            o.push(c);
            i = i + 1;
        }
        let r = NCube { origin: o, extent: e, scale: 1 };
        assert(r.spec_origin() =~= as_ints(origin@));
        Some(r)
    }

    /// The numerator of the origin's coordinate on `axis`.
    pub fn origin_numerator(&self, axis: usize) -> (r: i128)
        requires
            axis < self.spec_origin().len(),
        ensures
            r == self.spec_origin()[axis as int],
    {
        self.origin[axis]
    }

    /// The numerator of the half-width.
    pub fn extent_numerator(&self) -> (r: i128)
        ensures
            r == self.spec_extent(),
    {
        self.extent
    }

    /// The common denominator of the origin and the half-width.
    pub fn scale(&self) -> (r: i128)
        ensures
            r == self.spec_scale(),
    {
        self.scale
    }

    pub fn dimension(&self) -> (r: usize)
        ensures
            r == self.spec_origin().len(),
    {
        self.origin.len()
    }

    /// Whether `c` is child `k` of this cube: at twice the scale with the same
    /// extent numerator (half the half-width), and its origin moved by half the
    /// half-width on every axis, up where bit `axis` of `k` is set.
    pub open spec fn is_child(&self, k: int, c: NCube) -> bool {
        &&& c.spec_extent() == self.spec_extent()
        &&& c.spec_scale() == 2 * self.spec_scale()
        &&& c.spec_origin().len() == self.spec_origin().len()
        &&& forall|i: int|
            0 <= i < self.spec_origin().len() ==> #[trigger] c.spec_origin()[i] == 2
                * self.spec_origin()[i] + child_offset(k, i, self.spec_extent())
    }

    /// Whether the cube can be split within the bounds on its scale.
    pub fn can_subdivide(&self) -> (r: bool)
        ensures
            r == self.subdividable(),
    {
        self.scale <= MAX_SCALE / 2
    }
}

/// With at most three axes, bit `i` of the index of `p` tells on which side of
/// the origin `p` lies on axis `i`, and the index is below `2^n`.
pub proof fn lemma_index_bits(origin: Seq<int>, scale: int, p: Seq<i64>, n: nat)
    requires
        n <= 3,
        n <= origin.len(),
        n <= p.len(),
    ensures
        index_upto(origin, scale, p, n) < pow2(n),
        forall|i: int|
            0 <= i < n ==> #[trigger] axis_bit(index_upto(origin, scale, p, n) as int, i) == (p[i]
                * scale >= origin[i]),
{
    reveal_with_fuel(index_upto, 4);
    reveal_with_fuel(pow2, 4);
    assert(pow2(0) == 1 && pow2(1) == 2 && pow2(2) == 4 && pow2(3) == 8);
    let k = index_upto(origin, scale, p, n) as int;
    assert forall|i: int| 0 <= i < n implies #[trigger] axis_bit(k, i) == (p[i] * scale
        >= origin[i]) by {
        if i == 0 {
            assert(pow2(0int as nat) == 1);
            assert(k / 1 == k);
            assert(axis_bit(k, 0) == (k % 2 == 1));
        } else if i == 1 {
            assert(pow2(1int as nat) == 2);
            assert(axis_bit(k, 1) == ((k / 2) % 2 == 1));
        } else {
            assert(pow2(2int as nat) == 4);
            assert(axis_bit(k, 2) == ((k / 4) % 2 == 1));
        }
    }
}

impl Subdivide for NCube {
    open spec fn well_formed(&self) -> bool {
        cube_valid(self.spec_origin(), self.spec_extent(), self.spec_scale())
    }

    open spec fn subdividable(&self) -> bool {
        2 * self.spec_scale() <= MAX_SCALE
    }

    open spec fn is_subdivision(&self, children: Seq<NCube>) -> bool {
        &&& children.len() == pow2(self.spec_origin().len())
        &&& forall|k: int| 0 <= k < children.len() ==> self.is_child(k, #[trigger] children[k])
        &&& forall|k: int| 0 <= k < children.len() ==> (#[trigger] children[k]).well_formed()
    }

    fn subdivide(&self) -> (r: Vec<NCube>) {
        let n = self.origin.len();
        let count: usize = if n == 2 {
            4
        } else {
            8
        };
        proof {
            reveal_with_fuel(pow2, 4);
        }
        let e = self.extent;
        let s = self.scale;
        assert(BOUND * s <= BOUND * (MAX_SCALE / 2)) by (nonlinear_arith)
            requires
                1 <= s <= MAX_SCALE / 2,
        ;
        assert(BOUND * (2 * s) == 2 * (BOUND * s)) by (nonlinear_arith);
        let mut r: Vec<NCube> = Vec::new();
        let mut k: usize = 0;
        while k < count
            invariant
                self.well_formed(),
                self.subdividable(),
                n == self.spec_origin().len(),
                e == self.spec_extent(),
                s == self.spec_scale(),
                BOUND * s <= BOUND * (MAX_SCALE / 2),
                BOUND * (2 * s) == 2 * (BOUND * s),
                count == pow2(n as nat),
                count <= 8,
                k <= count,
                r@.len() == k,
                forall|j: int| 0 <= j < k ==> self.is_child(j, #[trigger] r@[j]),
                forall|j: int| 0 <= j < k ==> (#[trigger] r@[j]).well_formed(),
            decreases count - k,
        {
            let mut o: Vec<i128> = Vec::new();
            let mut i: usize = 0;
            let mut w: usize = 1;
            while i < n
                invariant
                    self.well_formed(),
                    self.subdividable(),
                    n == self.spec_origin().len(),
                    e == self.spec_extent(),
                    s == self.spec_scale(),
                    BOUND * s <= BOUND * (MAX_SCALE / 2),
                    k < 8,
                    i <= n,
                    n <= 3,
                    w == pow2(i as nat),
                    o@.len() == i,
                    forall|j: int|
                        0 <= j < i ==> #[trigger] o@[j] == 2 * self.spec_origin()[j]
                            + child_offset(k as int, j, e as int),
                decreases n - i,
            {
                proof {
                    reveal_with_fuel(pow2, 4);
                }
                let c = self.origin[i];
                assert(c == self.spec_origin()[i as int]);
                let v = if (k / w) % 2 == 1 {
                    2 * c + e
                } else {
                    2 * c - e
                };
                o.push(v);
                w = w * 2;
                i = i + 1;
            }
            let child = NCube { origin: o, extent: e, scale: 2 * s };
            assert(child.spec_origin().len() == n);
            assert forall|j: int| 0 <= j < n implies -BOUND * child.spec_scale() <= #[trigger] (
            child.spec_origin()[j] - e) && child.spec_origin()[j] + e <= BOUND
                * child.spec_scale() by {
                assert(child.spec_origin()[j] == o@[j]);
                assert(-BOUND * s <= self.spec_origin()[j] - e);
                assert(self.spec_origin()[j] + e <= BOUND * s);
            }
            r.push(child);
            k = k + 1;
        }
        r
    }
}

impl Partition for NCube {
    open spec fn spec_dimension(&self) -> nat {
        self.spec_origin().len()
    }

    open spec fn spec_contains(&self, p: Seq<i64>) -> bool {
        cube_contains(self.spec_origin(), self.spec_extent(), self.spec_scale(), p)
    }

    open spec fn spec_index(&self, p: Seq<i64>) -> nat {
        cube_index(self.spec_origin(), self.spec_scale(), p)
    }

    fn contains(&self, point: &Position) -> (r: bool) {
        let n = self.origin.len();
        if point.dimension() != n {
            return false;
        }
        let e = self.extent;
        let s = self.scale;
        let mut i: usize = 0;
        while i < n
            invariant
                self.well_formed(),
                n == self.spec_origin().len(),
                point@.len() == n,
                e == self.spec_extent(),
                s == self.spec_scale(),
                i <= n,
                forall|j: int|
                    0 <= j < i ==> self.spec_origin()[j] - e <= #[trigger] (point@[j] * s)
                        <= self.spec_origin()[j] + e,
            decreases n - i,
        {
            let o = self.origin[i];
            assert(o == self.spec_origin()[i as int]);
            let p = point.coordinate(i) as i128;
            if p > BOUND {
                assert(p * s > BOUND * s) by (nonlinear_arith)
                    requires
                        p > BOUND,
                        s >= 1,
                ;
                return false;
            }
            if p < -BOUND {
                assert(p * s < -BOUND * s) by (nonlinear_arith)
                    requires
                        p < -BOUND,
                        s >= 1,
                ;
                return false;
            }
            assert(-BOUND * s <= p * s <= BOUND * s) by (nonlinear_arith)
                requires
                    -BOUND <= p <= BOUND,
                    1 <= s,
            ;
            assert(BOUND * s <= BOUND * MAX_SCALE) by (nonlinear_arith)
                requires
                    1 <= s <= MAX_SCALE,
            ;
            let t = p * s;
            if t < o - e || t > o + e {
                return false;
            }
            i = i + 1;
        }
        true
    }

    fn index_unchecked(&self, point: &Position) -> (r: usize) {
        let n = self.origin.len();
        let s = self.scale;
        let mut k: usize = 0;
        let mut w: usize = 1;
        let mut i: usize = 0;
        proof {
            reveal_with_fuel(pow2, 4);
        }
        while i < n
            invariant
                self.well_formed(),
                n == self.spec_origin().len(),
                s == self.spec_scale(),
                point@.len() == n,
                i <= n,
                n <= 3,
                w == pow2(i as nat),
                k == index_upto(self.spec_origin(), s as int, point@, i as nat),
                k < w,
            decreases n - i,
        {
            proof {
                reveal_with_fuel(pow2, 4);
                reveal_with_fuel(index_upto, 2);
            }
            let o = self.origin[i];
            assert(o == self.spec_origin()[i as int]);
            assert(-BOUND * s <= o <= BOUND * s);
            let p = point.coordinate(i) as i128;
            let up = if p > BOUND {
                assert(p * s > BOUND * s) by (nonlinear_arith)
                    requires
                        p > BOUND,
                        s >= 1,
                ;
                true
            } else if p < -BOUND {
                assert(p * s < -BOUND * s) by (nonlinear_arith)
                    requires
                        p < -BOUND,
                        s >= 1,
                ;
                false
            } else {
                assert(-BOUND * s <= p * s <= BOUND * s) by (nonlinear_arith)
                    requires
                        -BOUND <= p <= BOUND,
                        1 <= s,
                ;
                assert(BOUND * s <= BOUND * MAX_SCALE) by (nonlinear_arith)
                    requires
                        1 <= s <= MAX_SCALE,
                ;
                p * s >= o
            };
            if up {
                k = k + w;
            }
            w = w * 2;
            i = i + 1;
        }
        k
    }
}

/// A point in a cube lies in the child that the cube's index picks for it.
pub proof fn lemma_containment_closure(c: NCube, children: Seq<NCube>, p: Seq<i64>)
    requires
        c.well_formed(),
        c.is_subdivision(children),
        c.spec_contains(p),
    ensures
        c.spec_index(p) < children.len(),
        children[c.spec_index(p) as int].spec_contains(p),
{
    let n = c.spec_origin().len();
    let s = c.spec_scale();
    lemma_index_bits(c.spec_origin(), s, p, n);
    let k = c.spec_index(p) as int;
    let child = children[k];
    assert(c.is_child(k, child));
    assert forall|i: int| 0 <= i < n implies child.spec_origin()[i] - child.spec_extent()
        <= #[trigger] (p[i] * child.spec_scale()) <= child.spec_origin()[i]
        + child.spec_extent() by {
        assert(axis_bit(k, i) == (p[i] * s >= c.spec_origin()[i]));
        assert(p[i] * (2 * s) == 2 * (p[i] * s)) by (nonlinear_arith);
        assert(c.spec_origin()[i] - c.spec_extent() <= p[i] * s);
    }
}

/// Subdividing a cube gives `2^N` cubes of half its half-width (the same
/// extent numerator over twice the scale), whose closed regions together cover
/// exactly the cube's closed region.
pub proof fn lemma_subdivision_geometry(c: NCube, children: Seq<NCube>)
    requires
        c.well_formed(),
        c.is_subdivision(children),
    ensures
        children.len() == pow2(c.spec_dimension()),
        forall|k: int|
            0 <= k < children.len() ==> (#[trigger] children[k]).spec_extent() == c.spec_extent()
                && children[k].spec_scale() == 2 * c.spec_scale(),
        forall|p: Seq<i64>|
            #![auto]
            c.spec_contains(p) <==> exists|k: int|
                0 <= k < children.len() && children[k].spec_contains(p),
{
    let s = c.spec_scale();
    assert forall|p: Seq<i64>| #![auto] c.spec_contains(p) <==> exists|k: int|
        0 <= k < children.len() && children[k].spec_contains(p) by {
        if c.spec_contains(p) {
            lemma_containment_closure(c, children, p);
        }
        if exists|k: int| 0 <= k < children.len() && children[k].spec_contains(p) {
            let k = choose|k: int| 0 <= k < children.len() && children[k].spec_contains(p);
            let child = children[k];
            assert(c.is_child(k, child));
            assert forall|i: int| 0 <= i < c.spec_origin().len() implies c.spec_origin()[i]
                - c.spec_extent() <= #[trigger] (p[i] * s) <= c.spec_origin()[i]
                + c.spec_extent() by {
                assert(p[i] * (2 * s) == 2 * (p[i] * s)) by (nonlinear_arith);
                assert(child.spec_origin()[i] - child.spec_extent() <= p[i] * child.spec_scale());
                assert(p[i] * child.spec_scale() <= child.spec_origin()[i] + child.spec_extent());
            }
        }
    }
}

/// A cube that holds two different lattice points is wide enough to be split:
/// its scale is at most twice its extent numerator.
pub proof fn lemma_distinct_points_split(c: NCube, p: Seq<i64>, q: Seq<i64>)
    requires
        c.well_formed(),
        c.spec_contains(p),
        c.spec_contains(q),
        p != q,
    ensures
        c.subdividable(),
{
    let s = c.spec_scale();
    let e = c.spec_extent();
    if forall|i: int| 0 <= i < p.len() ==> p[i] == q[i] {
        assert(p =~= q);
    }
    let i = choose|i: int| 0 <= i < p.len() && p[i] != q[i];
    let o = c.spec_origin()[i];
    assert(o - e <= p[i] * s <= o + e);
    assert(o - e <= q[i] * s <= o + e);
    let a = p[i] as int;
    let b = q[i] as int;
    if a > b {
        assert(a * s - b * s >= s) by (nonlinear_arith)
            requires
                a >= b + 1,
                s >= 1,
        ;
    } else {
        assert(b * s - a * s >= s) by (nonlinear_arith)
            requires
                b >= a + 1,
                s >= 1,
        ;
    }
}

/// Two child indices below `2^n`, for at most three axes, with the same bits
/// are equal.
proof fn lemma_bits_determine(k1: int, k2: int, n: nat)
    requires
        n <= 3,
        0 <= k1 < pow2(n),
        0 <= k2 < pow2(n),
        forall|i: int| 0 <= i < n ==> axis_bit(k1, i) == axis_bit(k2, i),
    ensures
        k1 == k2,
{
    reveal_with_fuel(pow2, 4);
    assert(pow2(0int as nat) == 1 && pow2(1int as nat) == 2 && pow2(2int as nat) == 4);
    assert(k1 / 1 == k1 && k2 / 1 == k2);
    if n >= 1 {
        assert(axis_bit(k1, 0) == axis_bit(k2, 0));
    }
    if n >= 2 {
        assert(axis_bit(k1, 1) == axis_bit(k2, 1));
    }
    if n >= 3 {
        assert(axis_bit(k1, 2) == axis_bit(k2, 2));
    }
}

/// A point of a cube that lies on none of its splitting planes is contained
/// in one child only: the one its index addresses.
pub proof fn lemma_unique_child(c: NCube, children: Seq<NCube>, p: Seq<i64>, k: int)
    requires
        c.well_formed(),
        c.is_subdivision(children),
        0 <= k < children.len(),
        children[k].spec_contains(p),
        forall|i: int| 0 <= i < c.spec_origin().len() ==> #[trigger] (p[i] * c.spec_scale()) != c.spec_origin()[i],
    ensures
        k == c.spec_index(p),
{
    let n = c.spec_origin().len();
    let s = c.spec_scale();
    let child = children[k];
    assert(c.is_child(k, child));
    lemma_index_bits(c.spec_origin(), s, p, n);
    assert forall|i: int| 0 <= i < n implies axis_bit(k, i) == axis_bit(
        c.spec_index(p) as int,
        i,
    ) by {
        assert(p[i] * (2 * s) == 2 * (p[i] * s)) by (nonlinear_arith);
        assert(child.spec_origin()[i] - child.spec_extent() <= p[i] * child.spec_scale());
        assert(p[i] * child.spec_scale() <= child.spec_origin()[i] + child.spec_extent());
        assert(p[i] * s != c.spec_origin()[i]);
    }
    lemma_bits_determine(k, c.spec_index(p) as int, n);
}

} // verus!
