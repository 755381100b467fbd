use vstd::prelude::*;

verus! {

/// A point of a Euclidean space on the integer lattice, one coordinate per axis.
#[derive(Clone, Debug, PartialEq, Eq)]
pub struct Position {
    coords: Vec<i64>,
}

impl View for Position {
    type V = Seq<i64>;

    closed spec fn view(&self) -> Seq<i64> {
        self.coords@
    }
}

impl Position {
    pub fn new(coords: Vec<i64>) -> (r: Position)
        ensures
            r@ == coords@,
    {
        Position { coords }
    }

    /// The number of axes.
    pub fn dimension(&self) -> (r: usize)
        ensures
            r == self@.len(),
    {
        self.coords.len()
    }

    /// The coordinate on the given axis.
    pub fn coordinate(&self, axis: usize) -> (r: i64)
        requires
            axis < self@.len(),
        ensures
            r == self@[axis as int],
    {
        self.coords[axis]
    }
}

impl Position {
    /// Whether the two positions are the same point.
    pub fn coincides(&self, other: &Position) -> (r: bool)
        ensures
            r == (self@ == other@),
    {
        if self.coords.len() != other.coords.len() {
            return false;
        }
        let mut i: usize = 0;
        while i < self.coords.len()
            invariant
                self.coords@.len() == other.coords@.len(),
                i <= self.coords@.len(),
                forall|j: int| 0 <= j < i ==> self.coords@[j] == other.coords@[j],
            decreases self.coords@.len() - i,
        {
            if self.coords[i] != other.coords[i] {
                return false;
            }
            i = i + 1;
        }
        assert(self.coords@ =~= other.coords@);
        true
    }
}

/// A value that carries a position, such as an item stored in a tree.
pub trait AsPosition {
    spec fn spec_position(&self) -> Seq<i64>;

    fn as_position(&self) -> (r: &Position)
        ensures
            r@ == self.spec_position(),
    ;
}

impl AsPosition for Position {
    open spec fn spec_position(&self) -> Seq<i64> {
        self@
    }

    fn as_position(&self) -> (r: &Position) {
        self
    }
}

} // verus!
