use vstd::prelude::*;

verus! {

/// A cell of the plane. Coordinates are `i64`; moving one step past either end
/// of that range wraps to the other end, so every position has eight neighbours.
#[derive(Clone, Copy, Debug, PartialEq, Eq, Hash, Structural)]
pub struct GridPosition(pub i64, pub i64);

/// `a + d`, wrapped into the range of `i64`.
pub open spec fn shift(a: i64, d: int) -> i64 {
    if a + d > i64::MAX {
        (a + d - 0x1_0000_0000_0000_0000) as i64
    } else if a + d < i64::MIN {
        (a + d + 0x1_0000_0000_0000_0000) as i64
    } else {
        (a + d) as i64
    }
}

/// Horizontal offset of the `i`-th neighbour.
pub open spec fn offset_x(i: int) -> int {
    if i == 0 || i == 1 || i == 7 {
        -1
    } else if i == 2 || i == 6 {
        0
    } else {
        1
    }
}

/// Vertical offset of the `i`-th neighbour.
pub open spec fn offset_y(i: int) -> int {
    if i == 1 || i == 2 || i == 3 {
        -1
    } else if i == 0 || i == 4 {
        0
    } else {
        1
    }
}

/// The `i`-th of the eight neighbours of `p` (for `0 <= i < 8`).
pub open spec fn neighbour(p: GridPosition, i: int) -> GridPosition {
    GridPosition(shift(p.0, offset_x(i)), shift(p.1, offset_y(i)))
}

/// The index of the neighbour that lies opposite the `i`-th one.
pub open spec fn opposite(i: int) -> int {
    if i < 4 {
        i + 4
    } else {
        i - 4
    }
}

/// `q` is one of the eight neighbours of `p`.
pub open spec fn is_neighbour(p: GridPosition, q: GridPosition) -> bool {
    exists|i: int| 0 <= i < 8 && #[trigger] neighbour(p, i) == q
}

/// The eight neighbours of one position are pairwise distinct.
pub proof fn lemma_neighbours_distinct(p: GridPosition, i: int, j: int)
    requires
        0 <= i < 8,
        0 <= j < 8,
        i != j,
    ensures
        neighbour(p, i) != neighbour(p, j),
{
}

/// Walking to a neighbour and back along the opposite offset returns home.
pub proof fn lemma_neighbour_opposite(p: GridPosition, i: int)
    requires
        0 <= i < 8,
    ensures
        0 <= opposite(i) < 8,
        neighbour(neighbour(p, i), opposite(i)) == p,
{
}

/// Being a neighbour is symmetric.
pub proof fn lemma_neighbour_symmetric(p: GridPosition, q: GridPosition)
    ensures
        is_neighbour(p, q) == is_neighbour(q, p),
{
    if is_neighbour(p, q) {
        let i = choose|i: int| 0 <= i < 8 && #[trigger] neighbour(p, i) == q;
        lemma_neighbour_opposite(p, i);
        assert(neighbour(q, opposite(i)) == p);
    }
    if is_neighbour(q, p) {
        let i = choose|i: int| 0 <= i < 8 && #[trigger] neighbour(q, i) == p;
        lemma_neighbour_opposite(q, i);
        assert(neighbour(p, opposite(i)) == q);
    }
}

fn step_up(a: i64) -> (r: i64)
    ensures
        r == shift(a, 1),
{
    if a == i64::MAX {
        i64::MIN
    } else {
        a + 1
    }
}

fn step_down(a: i64) -> (r: i64)
    ensures
        r == shift(a, -1),
{
    if a == i64::MIN {
        i64::MAX
    } else {
        a - 1
    }
}

impl GridPosition {
    pub fn new(x: i64, y: i64) -> (r: Self)
        ensures
            r == GridPosition(x, y),
    {
        GridPosition(x, y)
    }

    /// Builds a position from two `i32` coordinates.
    pub fn from_i32s(x: i32, y: i32) -> (r: Self)
        ensures
            r == GridPosition(x as i64, y as i64),
    {
        GridPosition(x as i64, y as i64)
    }

    /// Builds a position from an `i64` and an `i32` coordinate.
    pub fn from_i64_i32(x: i64, y: i32) -> (r: Self)
        ensures
            r == GridPosition(x, y as i64),
    {
        GridPosition(x, y as i64)
    }

    /// Builds a position from an `i32` and an `i64` coordinate.
    pub fn from_i32_i64(x: i32, y: i64) -> (r: Self)
        ensures
            r == GridPosition(x as i64, y),
    {
        GridPosition(x as i64, y)
    }

    /// Builds a position from an `i64` and a `usize` coordinate; a `usize`
    /// above `i64::MAX` wraps, as an `as` cast does.
    pub fn from_i64_usize(x: i64, y: usize) -> (r: Self)
        ensures
            r == GridPosition(x, y as i64),
    {
        GridPosition(x, y as i64)
    }

    /// Builds a position from a `usize` and an `i64` coordinate; a `usize`
    /// above `i64::MAX` wraps, as an `as` cast does.
    pub fn from_usize_i64(x: usize, y: i64) -> (r: Self)
        ensures
            r == GridPosition(x as i64, y),
    {
        GridPosition(x as i64, y)
    }

    /// The eight neighbours, starting west and going round clockwise
    /// (with y growing downwards).
    pub fn neighbours(self) -> (r: [GridPosition; 8])
        ensures
            forall|i: int| 0 <= i < 8 ==> #[trigger] r@[i] == neighbour(self, i),
    {
        let x = self.0;
        let y = self.1;
        let xl = step_down(x);
        let xr = step_up(x);
        let yu = step_down(y);
        let yd = step_up(y);
        [
            GridPosition::new(xl, y),
            GridPosition::new(xl, yu),
            GridPosition::new(x, yu),
            GridPosition::new(xr, yu),
            GridPosition::new(xr, y),
            GridPosition::new(xr, yd),
            GridPosition::new(x, yd),
            GridPosition::new(xl, yd),
        ]
    }
}

} // verus!
