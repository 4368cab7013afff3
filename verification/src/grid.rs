//! A rectangular map of tile weights, addressed by axial coordinates.

use crate::hex::Hex;
use vstd::prelude::*;

verus! {

/// The largest total weight of a grid that the search accepts. It keeps every
/// sum of a path cost, one more tile and a distance estimate inside `u32`.
pub const SEARCH_LIMIT: u32 = 0x7fff_ffff;

/// Sum of the weights of one row.
pub open spec fn row_weight(row: Seq<u32>) -> nat
    decreases row.len(),
{
    if row.len() == 0 {
        0
    } else {
        row_weight(row.drop_last()) + row.last() as nat
    }
}

/// Sum of the weights of a table of rows.
pub open spec fn rows_weight(rows: Seq<Seq<u32>>) -> nat
    decreases rows.len(),
{
    if rows.len() == 0 {
        0
    } else {
        rows_weight(rows.drop_last()) + row_weight(rows.last())
    }
}

/// A weighted tile map: `height` rows of `width` weights each, row `r` of the
/// table holding the cells with axial coordinate `r`.
#[derive(Clone, Debug, PartialEq, Eq)]
pub struct Grid {
    pub width: usize,
    pub height: usize,
    pub tiles: Vec<Vec<u32>>,
}

impl View for Grid {
    type V = Seq<Seq<u32>>;

    /// The table of weights, row by row.
    open spec fn view(&self) -> Seq<Seq<u32>> {
        Seq::new(self.tiles@.len(), |row: int| self.tiles@[row]@)
    }
}

impl Grid {
    /// The table has `height` rows of `width` entries each.
    pub open spec fn rectangular(&self) -> bool {
        &&& self@.len() == self.height
        &&& forall|row: int| 0 <= row < self.height ==> (#[trigger] self@[row]).len() == self.width
    }

    /// A structurally valid grid: rectangular, at least one tile, and every
    /// weight positive.
    pub open spec fn wf(&self) -> bool {
        &&& self.rectangular()
        &&& self.width >= 1
        &&& self.height >= 1
        &&& forall|row: int, col: int|
            0 <= row < self.height && 0 <= col < self.width ==> #[trigger] self@[row][col] >= 1
    }

    /// Sum of all tile weights.
    pub open spec fn total_weight(&self) -> nat {
        rows_weight(self@)
    }

    /// A valid grid that is small enough to be searched.
    pub open spec fn searchable(&self) -> bool {
        self.wf() && self.total_weight() <= SEARCH_LIMIT
    }

    /// Whether the cell lies inside the grid.
    pub open spec fn contains(&self, hex: Hex) -> bool {
        0 <= hex.spec_row() < self.height && 0 <= hex.spec_col() < self.width
    }

    /// The weight stored for a cell, or `None` outside the grid.
    pub open spec fn spec_weight(&self, hex: Hex) -> Option<u32> {
        if self.contains(hex) {
            Some(self@[hex.spec_row()][hex.spec_col()])
        } else {
            None
        }
    }

    /// What it costs to enter a cell; zero outside the grid, where no path goes.
    pub open spec fn cost_of(&self, hex: Hex) -> nat {
        match self.spec_weight(hex) {
            Some(weight) => weight as nat,
            None => 0,
        }
    }

    /// One hop of a path: `to` is a neighbour of `from` and lies inside the grid.
    pub open spec fn is_step(&self, from: Hex, to: Hex) -> bool {
        from.is_adjacent(to) && self.contains(to)
    }

    /// Those of `cells` that lie inside the grid, in order, each with its weight.
    pub open spec fn moves_among(&self, cells: Seq<Hex>) -> Seq<(Hex, u32)>
        decreases cells.len(),
    {
        if cells.len() == 0 {
            Seq::empty()
        } else {
            let before = self.moves_among(cells.drop_last());
            match self.spec_weight(cells.last()) {
                Some(weight) => before.push((cells.last(), weight)),
                None => before,
            }
        }
    }

    /// The neighbours of a cell that lie inside the grid, in the fixed
    /// neighbour order, each with the cost of entering it.
    pub open spec fn spec_successors(&self, hex: Hex) -> Seq<(Hex, u32)> {
        self.moves_among(hex.spec_neighbors())
    }

    /// The cell where every search starts.
    pub open spec fn spec_start() -> Hex {
        Hex { q: 0, r: 0 }
    }

    /// The cell where every search ends: axial `(width - 1, height - 1)`.
    pub open spec fn spec_goal(&self) -> Hex {
        Hex { q: (self.width - 1) as i32, r: (self.height - 1) as i32 }
    }

    /// Weight of the tile at `hex`, or `None` when `hex` is outside the grid.
    pub fn get_weight(&self, hex: &Hex) -> (weight: Option<u32>)
        requires
            self.rectangular(),
        ensures
            weight == self.spec_weight(*hex),
    {
        let row: i32 = hex.row();
        let col: i64 = hex.col();
        let inside = col >= 0 && row >= 0 && (col as u64) < (self.width as u64) && (row as u64)
            < (self.height as u64);
        if inside {
            assert(self@[row as int] == self.tiles@[row as int]@);
            Some(self.tiles[row as usize][col as usize])
        } else {
            None
        }
    }

    /// The moves out of `hex`: its neighbours inside the grid, each with the
    /// cost of entering it.
    pub fn successors(&self, hex: &Hex) -> (moves: Vec<(Hex, u32)>)
        requires
            self.rectangular(),
            hex.has_neighbors(),
        ensures
            moves@ == self.spec_successors(*hex),
            forall|to: Hex, weight: u32|
                moves@.contains((to, weight)) <==> self.is_step(*hex, to) && weight == self.cost_of(
                    to,
                ),
    {
        let cells = hex.neighbors();
        let mut moves: Vec<(Hex, u32)> = Vec::new();
        let mut k: usize = 0;
        while k < cells.len()
            invariant
                self.rectangular(),
                k <= cells@.len(),
                moves@ == self.moves_among(cells@.take(k as int)),
            decreases cells@.len() - k,
        {
            let cell = cells[k];
            assert(cells@.take(k + 1).drop_last() =~= cells@.take(k as int));
            match self.get_weight(&cell) {
                Some(weight) => {
                    moves.push((cell, weight));
                },
                None => {},
            }
            k = k + 1;
        }
        proof {
            assert(cells@.take(k as int) =~= cells@);
            assert(moves@ == self.spec_successors(*hex));
            lemma_successors_are_steps(*self, *hex);
            assert forall|to: Hex, weight: u32|
                moves@.contains((to, weight)) <==> self.is_step(*hex, to) && weight
                    == self.cost_of(to) by {
                assert(moves@.contains((to, weight)) == self.spec_successors(*hex).contains(
                    (to, weight),
                ));
            }
        }
        moves
    }

    /// The start cell, axial `(0, 0)`.
    pub fn start() -> (hex: Hex)
        ensures
            hex == Grid::spec_start(),
    {
        Hex::new(0, 0)
    }

    /// The goal cell, axial `(width - 1, height - 1)`.
    pub fn goal(&self) -> (hex: Hex)
        requires
            1 <= self.width <= i32::MAX,
            1 <= self.height <= i32::MAX,
        ensures
            hex == self.spec_goal(),
    {
        Hex::new((self.width - 1) as i32, (self.height - 1) as i32)
    }

    /// Tells whether the grid is valid and small enough to be searched.
    pub fn is_searchable(&self) -> (ok: bool)
        ensures
            ok == self.searchable(),
    {
        if self.width < 1 || self.height < 1 || self.tiles.len() != self.height {
            return false;
        }
        let mut total: u64 = 0;
        let mut row: usize = 0;
        while row < self.tiles.len()
            invariant
                self.width >= 1,
                self.height >= 1,
                self.tiles@.len() == self.height,
                row <= self.height,
                total == rows_weight(self@.take(row as int)),
                total <= SEARCH_LIMIT,
                forall|r: int| 0 <= r < row ==> (#[trigger] self@[r]).len() == self.width,
                forall|r: int, c: int|
                    0 <= r < row && 0 <= c < self.width ==> #[trigger] self@[r][c] >= 1,
            decreases self.height - row,
        {
            let line = &self.tiles[row];
            assert(self@[row as int] == line@);
            if line.len() != self.width {
                return false;
            }
            let mut line_total: u64 = 0;
            let mut col: usize = 0;
            while col < line.len()
                invariant
                    self@.len() == self.height,
                    row < self.height,
                    self@[row as int] == line@,
                    line@.len() == self.width,
                    col <= line@.len(),
                    line_total == row_weight(line@.take(col as int)),
                    line_total <= SEARCH_LIMIT,
                    forall|c: int| 0 <= c < col ==> #[trigger] line@[c] >= 1,
                decreases line@.len() - col,
            {
                let weight: u32 = line[col];
                if weight < 1 {
                    return false;
                }
                assert(line@.take(col + 1).drop_last() =~= line@.take(col as int));
                line_total = line_total + weight as u64;
                if line_total > SEARCH_LIMIT as u64 {
                    proof {
                        lemma_row_weight_prefix(line@, col + 1);
                        lemma_rows_weight_contains(self@, row as int);
                    }
                    return false;
                }
                col = col + 1;
            }
            assert(line@.take(col as int) =~= line@);
            assert(self@.take(row + 1).drop_last() =~= self@.take(row as int));
            total = total + line_total;
            if total > SEARCH_LIMIT as u64 {
                proof {
                    lemma_rows_weight_prefix(self@, row + 1);
                }
                return false;
            }
            row = row + 1;
        }
        assert(self@.take(row as int) =~= self@);
        true
    }
}

/// The weight of a prefix of a row never exceeds the weight of the row.
pub proof fn lemma_row_weight_prefix(row: Seq<u32>, k: int)
    requires
        0 <= k <= row.len(),
    ensures
        row_weight(row.take(k)) <= row_weight(row),
    decreases row.len() - k,
{
    if k < row.len() {
        lemma_row_weight_prefix(row, k + 1);
        assert(row.take(k + 1).drop_last() =~= row.take(k));
    } else {
        assert(row.take(k) =~= row);
    }
}

/// The weight of the first rows never exceeds the weight of all rows.
pub proof fn lemma_rows_weight_prefix(rows: Seq<Seq<u32>>, k: int)
    requires
        0 <= k <= rows.len(),
    ensures
        rows_weight(rows.take(k)) <= rows_weight(rows),
    decreases rows.len() - k,
{
    if k < rows.len() {
        lemma_rows_weight_prefix(rows, k + 1);
        assert(rows.take(k + 1).drop_last() =~= rows.take(k));
    } else {
        assert(rows.take(k) =~= rows);
    }
}

/// The weight of one row never exceeds the weight of the table.
pub proof fn lemma_rows_weight_contains(rows: Seq<Seq<u32>>, k: int)
    requires
        0 <= k < rows.len(),
    ensures
        row_weight(rows[k]) <= rows_weight(rows),
{
    lemma_rows_weight_prefix(rows, k + 1);
    assert(rows.take(k + 1).drop_last() =~= rows.take(k));
}

/// A row of positive weights weighs at least its length.
pub proof fn lemma_row_weight_lower(row: Seq<u32>)
    requires
        forall|c: int| 0 <= c < row.len() ==> #[trigger] row[c] >= 1,
    ensures
        row_weight(row) >= row.len(),
    decreases row.len(),
{
    if row.len() > 0 {
        lemma_row_weight_lower(row.drop_last());
    }
}

/// A valid grid weighs at least as much as one of its rows is long, and at
/// least as much as it has rows.
pub proof fn lemma_total_weight_lower(grid: Grid)
    requires
        grid.wf(),
    ensures
        grid.total_weight() >= grid.width + grid.height - 1,
{
    lemma_rows_lower(grid@, grid.width as int);
}

proof fn lemma_rows_lower(rows: Seq<Seq<u32>>, width: int)
    requires
        width >= 1,
        rows.len() >= 1,
        forall|r: int| 0 <= r < rows.len() ==> (#[trigger] rows[r]).len() == width,
        forall|r: int, c: int| 0 <= r < rows.len() && 0 <= c < width ==> #[trigger] rows[r][c] >= 1,
    ensures
        rows_weight(rows) >= width + rows.len() - 1,
    decreases rows.len(),
{
    let last = rows.last();
    assert forall|c: int| 0 <= c < last.len() implies #[trigger] last[c] >= 1 by {
        assert(rows[rows.len() - 1][c] >= 1);
    }
    lemma_row_weight_lower(last);
    if rows.len() >= 2 {
        lemma_rows_lower(rows.drop_last(), width);
    } else {
        assert(rows_weight(rows.drop_last()) == 0);
    }
}

/// Every tile is found again through its axial address: the cell made from
/// an offset position inside the grid maps back to that position, and its
/// weight is the one stored there.
pub proof fn lemma_weight_round_trip(grid: Grid, row: int, col: int)
    requires
        grid.rectangular(),
        0 <= row < grid.height,
        0 <= col < grid.width,
        row <= i32::MAX,
        col <= i32::MAX,
    ensures
        Hex::spec_from_offset(row, col).spec_row() == row,
        Hex::spec_from_offset(row, col).spec_col() == col,
        grid.contains(Hex::spec_from_offset(row, col)),
        grid.spec_weight(Hex::spec_from_offset(row, col)) == Some(grid@[row][col]),
{
}

/// A pair is among `moves_among(cells)` exactly when its cell is one of
/// `cells`, lies inside the grid and is paired with its weight.
pub proof fn lemma_moves_among_contains(grid: Grid, cells: Seq<Hex>, to: Hex, weight: u32)
    ensures
        grid.moves_among(cells).contains((to, weight)) <==> cells.contains(to) && grid.spec_weight(
            to,
        ) == Some(weight),
    decreases cells.len(),
{
    if cells.len() > 0 {
        let head = cells.drop_last();
        let before = grid.moves_among(head);
        lemma_moves_among_contains(grid, head, to, weight);
        if cells.contains(to) {
            let j = choose|j: int| 0 <= j < cells.len() && cells[j] == to;
            if j < cells.len() - 1 {
                assert(head[j] == to);
            }
        }
        if head.contains(to) {
            let j = choose|j: int| 0 <= j < head.len() && head[j] == to;
            assert(cells[j] == to);
        }
        assert(cells[cells.len() - 1] == cells.last());
        match grid.spec_weight(cells.last()) {
            Some(w) => {
                let all = before.push((cells.last(), w));
                if all.contains((to, weight)) {
                    let j = choose|j: int| 0 <= j < all.len() && all[j] == (to, weight);
                    if j < before.len() {
                        assert(before[j] == (to, weight));
                    }
                }
                if before.contains((to, weight)) {
                    let j = choose|j: int| 0 <= j < before.len() && before[j] == (to, weight);
                    assert(all[j] == (to, weight));
                }
                assert(all[before.len() as int] == (cells.last(), w));
            },
            None => {},
        }
    }
}

/// The successors of a cell are exactly the steps out of it, each with the
/// cost of the cell it enters.
pub proof fn lemma_successors_are_steps(grid: Grid, hex: Hex)
    requires
        hex.has_neighbors(),
    ensures
        forall|to: Hex, weight: u32|
            #![trigger grid.spec_successors(hex).contains((to, weight))]
            grid.spec_successors(hex).contains((to, weight)) <==> grid.is_step(hex, to) && weight
                == grid.cost_of(to),
{
    let cells = hex.spec_neighbors();
    assert forall|to: Hex, weight: u32|
        grid.spec_successors(hex).contains((to, weight)) <==> grid.is_step(hex, to) && weight
            == grid.cost_of(to) by {
        lemma_moves_among_contains(grid, cells, to, weight);
        if cells.contains(to) {
            let k = choose|k: int| 0 <= k < cells.len() && cells[k] == to;
            crate::hex::lemma_neighbor_distance(hex, k);
        }
        if hex.is_adjacent(to) {
            let k = choose|k: int|
                0 <= k < 6 && to.q - hex.q == (#[trigger] crate::hex::offsets()[k]).0 && to.r
                    - hex.r == crate::hex::offsets()[k].1;
            assert(cells[k] == to);
        }
    }
}

} // verus!
