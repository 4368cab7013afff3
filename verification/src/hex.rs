//! Axial hex coordinates: distance and adjacency.

use vstd::prelude::*;

verus! {

/// Absolute value of a mathematical integer.
pub open spec fn abs(x: int) -> int {
    if x < 0 {
        -x
    } else {
        x
    }
}

/// The six axial offsets that lead from a cell to its neighbours, in the
/// order in which `Hex::neighbors` lists them.
pub open spec fn offsets() -> Seq<(int, int)> {
    seq![(1, 0), (-1, 0), (0, 1), (0, -1), (1, -1), (-1, 1)]
}

/// A cell address in axial hex coordinates.
#[derive(Clone, Copy, Debug, PartialEq, Eq, Hash, PartialOrd, Ord, Structural)]
pub struct Hex {
    pub q: i32,
    pub r: i32,
}

impl Hex {
    /// The hex metric: half the sum of the three absolute cube differences.
    pub open spec fn spec_distance(self, other: Hex) -> int {
        (abs(self.q - other.q) + abs(self.q + self.r - other.q - other.r) + abs(
            self.r - other.r,
        )) / 2
    }

    /// Whether `other` is one of the six cells around `self`.
    pub open spec fn is_adjacent(self, other: Hex) -> bool {
        exists|k: int|
            0 <= k < 6 && other.q - self.q == (#[trigger] offsets()[k]).0 && other.r - self.r
                == offsets()[k].1
    }

    /// Whether all six neighbours have coordinates that fit the machine type.
    pub open spec fn has_neighbors(self) -> bool {
        i32::MIN < self.q < i32::MAX && i32::MIN < self.r < i32::MAX
    }

    /// The neighbour of `self` at place `k` of the fixed order.
    pub open spec fn spec_neighbor(self, k: int) -> Hex {
        Hex { q: (self.q + offsets()[k].0) as i32, r: (self.r + offsets()[k].1) as i32 }
    }

    /// The six neighbours in their fixed order.
    pub open spec fn spec_neighbors(self) -> Seq<Hex> {
        Seq::new(6, |k: int| self.spec_neighbor(k))
    }

    /// Row of the cell in the offset layout.
    pub open spec fn spec_row(self) -> int {
        self.r as int
    }

    /// Column of the cell in the offset layout: `q` shifted by half the row,
    /// rounded toward negative infinity.
    pub open spec fn spec_col(self) -> int {
        self.q + self.r as int / 2
    }

    /// The axial address of the cell at `(row, col)` of the offset layout.
    pub open spec fn spec_from_offset(row: int, col: int) -> Hex {
        Hex { q: (col - row / 2) as i32, r: row as i32 }
    }

    /// The cell with the axial coordinates `(q, r)`.
    pub fn new(q: i32, r: i32) -> (hex: Hex)
        ensures
            hex.q == q,
            hex.r == r,
    {
        Hex { q, r }
    }

    /// Hex distance between two cells.
    pub fn distance(&self, other: &Hex) -> (d: u32)
        requires
            self.spec_distance(*other) <= u32::MAX,
        ensures
            d == self.spec_distance(*other),
    {
        let dq: i64 = self.q as i64 - other.q as i64;
        let dr: i64 = self.r as i64 - other.r as i64;
        let ds: i64 = dq + dr;
        let sum: i64 = magnitude(dq) + magnitude(ds) + magnitude(dr);
        (sum / 2) as u32
    }

    /// The six cells around `self`, in a fixed order.
    pub fn neighbors(&self) -> (cells: Vec<Hex>)
        requires
            self.has_neighbors(),
        ensures
            cells@ == self.spec_neighbors(),
    {
        let cells = vec![
            Hex::new(self.q + 1, self.r),
            Hex::new(self.q - 1, self.r),
            Hex::new(self.q, self.r + 1),
            Hex::new(self.q, self.r - 1),
            Hex::new(self.q + 1, self.r - 1),
            Hex::new(self.q - 1, self.r + 1),
        ];
        assert(cells@ =~= self.spec_neighbors());
        cells
    }

    /// Row of the cell in the offset layout.
    pub fn row(&self) -> (row: i32)
        ensures
            row == self.spec_row(),
    {
        self.r
    }

    /// Column of the cell in the offset layout.
    pub fn col(&self) -> (col: i64)
        ensures
            col == self.spec_col(),
    {
        self.q as i64 + floor_half(self.r) as i64
    }

    /// Whether `self` and `other` are the same cell.
    pub fn is_at(&self, other: &Hex) -> (same: bool)
        ensures
            same == (*self == *other),
    {
        self.q == other.q && self.r == other.r
    }

    /// The axial address of the cell at `(row, col)` of the offset layout.
    pub fn from_offset(row: usize, col: usize) -> (hex: Hex)
        requires
            row <= i32::MAX,
            col <= i32::MAX,
        ensures
            hex == Hex::spec_from_offset(row as int, col as int),
            hex.spec_row() == row,
            hex.spec_col() == col,
    {
        let r: i32 = row as i32;
        let c: i32 = col as i32;
        Hex { q: c - r / 2, r }
    }
}

/// Distance is symmetric.
pub proof fn lemma_distance_symmetric(a: Hex, b: Hex)
    ensures
        a.spec_distance(b) == b.spec_distance(a),
{
}

/// A cell is at distance zero from itself, and from no other cell.
pub proof fn lemma_distance_zero(a: Hex, b: Hex)
    ensures
        a.spec_distance(a) == 0,
        a.spec_distance(b) == 0 <==> a == b,
{
}

/// Distance is never negative and is the largest of the three absolute cube
/// differences, so the sum that it halves is always even.
pub proof fn lemma_distance_is_max(a: Hex, b: Hex)
    ensures
        a.spec_distance(b) >= 0,
        a.spec_distance(b) >= abs(a.q - b.q),
        a.spec_distance(b) >= abs(a.r - b.r),
        a.spec_distance(b) >= abs(a.q + a.r - b.q - b.r),
        a.spec_distance(b) == abs(a.q - b.q) || a.spec_distance(b) == abs(a.r - b.r)
            || a.spec_distance(b) == abs(a.q + a.r - b.q - b.r),
{
}

/// Each of the six neighbours of a cell is at distance one from it.
pub proof fn lemma_neighbor_distance(a: Hex, k: int)
    requires
        a.has_neighbors(),
        0 <= k < 6,
    ensures
        a.is_adjacent(a.spec_neighbor(k)),
        a.spec_distance(a.spec_neighbor(k)) == 1,
        a.spec_neighbor(k).spec_distance(a) == 1,
{
    let n = a.spec_neighbor(k);
    assert(n.q - a.q == offsets()[k].0 && n.r - a.r == offsets()[k].1);
}

/// Two cells are adjacent exactly when they are at distance one.
pub proof fn lemma_adjacent_is_distance_one(a: Hex, b: Hex)
    ensures
        a.is_adjacent(b) <==> a.spec_distance(b) == 1,
{
    if a.is_adjacent(b) {
        let k = choose|k: int|
            0 <= k < 6 && b.q - a.q == (#[trigger] offsets()[k]).0 && b.r - a.r == offsets()[k].1;
        assert(a.spec_distance(b) == 1);
    }
    if a.spec_distance(b) == 1 {
        let dq = b.q - a.q;
        let dr = b.r - a.r;
        let k: int = if dq == 1 && dr == 0 {
            0
        } else if dq == -1 && dr == 0 {
            1
        } else if dq == 0 && dr == 1 {
            2
        } else if dq == 0 && dr == -1 {
            3
        } else if dq == 1 && dr == -1 {
            4
        } else {
            5
        };
        assert(dq == offsets()[k].0 && dr == offsets()[k].1);
    }
}

/// Distance obeys the triangle inequality.
pub proof fn lemma_distance_triangle(a: Hex, b: Hex, c: Hex)
    ensures
        a.spec_distance(c) <= a.spec_distance(b) + b.spec_distance(c),
{
    lemma_distance_is_max(a, b);
    lemma_distance_is_max(b, c);
    lemma_distance_is_max(a, c);
}

/// Converting an offset position to axial coordinates and back gives the
/// same position.
pub proof fn lemma_offset_round_trip(row: int, col: int)
    requires
        0 <= row <= i32::MAX,
        0 <= col <= i32::MAX,
    ensures
        Hex::spec_from_offset(row, col).spec_row() == row,
        Hex::spec_from_offset(row, col).spec_col() == col,
{
}

/// Absolute value of a difference or a sum of two differences of coordinates.
fn magnitude(x: i64) -> (m: i64)
    requires
        -0x2_0000_0000 <= x <= 0x2_0000_0000,
    ensures
        m == abs(x as int),
{
    if x < 0 {
        -x
    } else {
        x
    }
}

/// Half of `r`, rounded toward negative infinity: the low bit is taken off
/// before halving, so that the division is exact.
fn floor_half(r: i32) -> (h: i32)
    ensures
        h == r as int / 2,
{
    let low: i32 = r & 1;
    assert(low == r as int % 2) by (bit_vector)
        requires
            low == r & 1,
    ;
    (r - low) / 2
}

} // verus!
