//! Shortest paths from the start cell of a grid to its goal cell.

use crate::grid::{lemma_total_weight_lower, Grid};
use crate::hex::{lemma_adjacent_is_distance_one, lemma_distance_triangle, offsets, Hex};
use pathfinding::prelude::astar;
use vstd::prelude::*;

verus! {

impl Grid {
    /// A walk is a non-empty sequence of cells in which every cell after the
    /// first is a step away from the one before it.
    pub open spec fn is_walk(&self, path: Seq<Hex>) -> bool {
        &&& path.len() >= 1
        &&& forall|i: int| 0 <= i < path.len() - 1 ==> self.is_step(#[trigger] path[i], path[i + 1])
    }

    /// A route is a walk that begins at `start` and ends at `goal`.
    pub open spec fn is_route(&self, start: Hex, goal: Hex, path: Seq<Hex>) -> bool {
        self.is_walk(path) && path.first() == start && path.last() == goal
    }

    /// The cost of a walk: the weights of all its cells but the first.
    pub open spec fn walk_cost(&self, path: Seq<Hex>) -> nat
        decreases path.len(),
    {
        if path.len() <= 1 {
            0
        } else {
            self.walk_cost(path.drop_last()) + self.cost_of(path.last())
        }
    }

    /// What it costs to enter each of `cells` in turn.
    pub open spec fn cells_cost(&self, cells: Seq<Hex>) -> nat
        decreases cells.len(),
    {
        if cells.len() == 0 {
            0
        } else {
            self.cells_cost(cells.drop_last()) + self.cost_of(cells.last())
        }
    }

    /// A route that no other route from `start` to `goal` undercuts.
    pub open spec fn is_shortest_route(&self, start: Hex, goal: Hex, path: Seq<Hex>) -> bool {
        &&& self.is_route(start, goal, path)
        &&& forall|other: Seq<Hex>| #[trigger]
            self.is_route(start, goal, other) ==> self.walk_cost(path) <= self.walk_cost(other)
    }

    /// Every tile of the grid weighs `k`.
    pub open spec fn is_uniform(&self, k: u32) -> bool {
        forall|row: int, col: int|
            0 <= row < self.height && 0 <= col < self.width ==> #[trigger] self@[row][col] == k
    }

    /// The walk along row zero from the start cell to column `width - 1`,
    /// followed by one hop down when the grid has a second row.
    pub open spec fn direct_route(&self) -> Seq<Hex> {
        let along = Seq::new(self.width as nat, |i: int| Hex { q: i as i32, r: 0 });
        if self.height == 2 {
            along.push(self.spec_goal())
        } else {
            along
        }
    }
}

/// A walk without its last cell is still a walk.
pub proof fn lemma_walk_drop_last(grid: Grid, path: Seq<Hex>)
    requires
        grid.is_walk(path),
        path.len() >= 2,
    ensures
        grid.is_walk(path.drop_last()),
        grid.is_step(path[path.len() - 2], path.last()),
        path.drop_last().first() == path.first(),
        path.drop_last().last() == path[path.len() - 2],
{
    let head = path.drop_last();
    assert forall|i: int| 0 <= i < head.len() - 1 implies grid.is_step(
        #[trigger] head[i],
        head[i + 1],
    ) by {
        assert(grid.is_step(path[i], path[i + 1]));
    }
    assert(grid.is_step(path[path.len() - 2], path[path.len() - 2 + 1]));
}

/// A walk makes at least as many hops as the distance between its ends.
pub proof fn lemma_hops_bound_distance(grid: Grid, path: Seq<Hex>)
    requires
        grid.is_walk(path),
    ensures
        path.first().spec_distance(path.last()) <= path.len() - 1,
    decreases path.len(),
{
    if path.len() >= 2 {
        lemma_walk_drop_last(grid, path);
        lemma_hops_bound_distance(grid, path.drop_last());
        let before = path[path.len() - 2];
        lemma_adjacent_is_distance_one(before, path.last());
        lemma_distance_triangle(path.first(), before, path.last());
    }
}

/// On a grid of positive weights a walk costs at least one per hop.
pub proof fn lemma_cost_bounds_hops(grid: Grid, path: Seq<Hex>)
    requires
        grid.wf(),
        grid.is_walk(path),
    ensures
        grid.walk_cost(path) >= path.len() - 1,
    decreases path.len(),
{
    if path.len() >= 2 {
        lemma_walk_drop_last(grid, path);
        lemma_cost_bounds_hops(grid, path.drop_last());
        assert(grid.cost_of(path.last()) >= 1);
    }
}

/// The distance to the goal never overestimates the cost of reaching it, and
/// it drops by no more than the cost of the step taken: on a grid of positive
/// weights it is an admissible and consistent estimate.
pub proof fn lemma_distance_is_lower_bound(grid: Grid, goal: Hex)
    requires
        grid.wf(),
    ensures
        forall|path: Seq<Hex>|
            grid.is_walk(path) && path.last() == goal ==> path.first().spec_distance(goal)
                <= #[trigger] grid.walk_cost(path),
        forall|from: Hex, to: Hex| #[trigger]
            grid.is_step(from, to) ==> from.spec_distance(goal) <= grid.cost_of(to)
                + to.spec_distance(goal),
{
    assert forall|path: Seq<Hex>| grid.is_walk(path) && path.last() == goal implies path.first()
        .spec_distance(goal) <= #[trigger] grid.walk_cost(path) by {
        lemma_hops_bound_distance(grid, path);
        lemma_cost_bounds_hops(grid, path);
    }
    assert forall|from: Hex, to: Hex| #[trigger] grid.is_step(from, to) implies from.spec_distance(
        goal,
    ) <= grid.cost_of(to) + to.spec_distance(goal) by {
        lemma_adjacent_is_distance_one(from, to);
        lemma_distance_triangle(from, to, goal);
        assert(grid.cost_of(to) >= 1);
    }
}

/// On a uniform grid a walk costs the common weight times its number of hops.
pub proof fn lemma_uniform_walk_cost(grid: Grid, k: u32, path: Seq<Hex>)
    requires
        grid.rectangular(),
        grid.is_uniform(k),
        grid.is_walk(path),
    ensures
        grid.walk_cost(path) == k * (path.len() - 1),
    decreases path.len(),
{
    if path.len() >= 2 {
        lemma_walk_drop_last(grid, path);
        lemma_uniform_walk_cost(grid, k, path.drop_last());
        let last = path.last();
        assert(grid@[last.spec_row()][last.spec_col()] == k);
        assert(grid.cost_of(last) == k);
        let hops = path.len() - 1;
        assert(path.drop_last().len() - 1 == hops - 1);
        assert(k * (hops - 1) + k == k * hops) by (nonlinear_arith);
    } else {
        assert(k * 0 == 0);
    }
}

/// The goal cell lies inside the grid exactly when the grid has at most two
/// rows: from the third row on, column `width - 1` of axial coordinates is
/// shifted past the right edge.
pub proof fn lemma_goal_inside(grid: Grid)
    requires
        1 <= grid.width <= i32::MAX,
        1 <= grid.height <= i32::MAX,
    ensures
        grid.contains(grid.spec_goal()) <==> grid.height <= 2,
{
}

/// Where the goal lies inside the grid, the direct route leads from the
/// start cell to it in as many hops as the two cells are apart.
pub proof fn lemma_direct_route(grid: Grid)
    requires
        1 <= grid.width <= i32::MAX,
        1 <= grid.height <= 2,
    ensures
        grid.is_route(Grid::spec_start(), grid.spec_goal(), grid.direct_route()),
        grid.direct_route().len() - 1 == Grid::spec_start().spec_distance(grid.spec_goal()),
{
    let path = grid.direct_route();
    let along = Seq::new(grid.width as nat, |i: int| Hex { q: i as i32, r: 0 });
    assert forall|i: int| 0 <= i < path.len() - 1 implies grid.is_step(
        #[trigger] path[i],
        path[i + 1],
    ) by {
        let k: int = if i + 1 < grid.width {
            0
        } else {
            2
        };
        assert(path[i] == along[i]);
        assert(path[i + 1].q - path[i].q == offsets()[k].0);
        assert(path[i + 1].r - path[i].r == offsets()[k].1);
    }
}

/// Without the goal inside the grid no route leads to it, unless the start
/// cell is the goal.
pub proof fn lemma_route_ends_inside(grid: Grid, start: Hex, goal: Hex, path: Seq<Hex>)
    requires
        grid.is_route(start, goal, path),
    ensures
        grid.contains(goal) || (start == goal && path.len() == 1),
{
    if path.len() >= 2 {
        lemma_walk_drop_last(grid, path);
    }
}

/// On a uniform grid a shortest route from the start cell to the goal makes
/// as many hops as the two cells are apart, and costs the common weight
/// times that number.
pub proof fn lemma_uniform_shortest_route(grid: Grid, k: u32, path: Seq<Hex>)
    requires
        grid.wf(),
        grid.width <= i32::MAX,
        grid.height <= i32::MAX,
        grid.is_uniform(k),
        grid.is_shortest_route(Grid::spec_start(), grid.spec_goal(), path),
    ensures
        path.len() - 1 == Grid::spec_start().spec_distance(grid.spec_goal()),
        grid.walk_cost(path) == k * (path.len() - 1),
        grid.walk_cost(path) == k * Grid::spec_start().spec_distance(grid.spec_goal()),
{
    let start = Grid::spec_start();
    let goal = grid.spec_goal();
    lemma_route_ends_inside(grid, start, goal, path);
    lemma_goal_inside(grid);
    lemma_direct_route(grid);
    let direct = grid.direct_route();
    assert(grid.is_route(start, goal, direct));
    lemma_uniform_walk_cost(grid, k, path);
    lemma_uniform_walk_cost(grid, k, direct);
    lemma_hops_bound_distance(grid, path);
    assert(grid@[0][0] == k);
    let hops = path.len() - 1;
    let apart = direct.len() - 1;
    assert(k * hops <= k * apart && k >= 1 ==> hops <= apart) by (nonlinear_arith);
}

/// A walk costs what its first `k + 1` cells cost as a walk, and then what
/// it costs to enter each of the cells after them.
pub proof fn lemma_walk_cost_split(grid: Grid, path: Seq<Hex>, k: int)
    requires
        0 <= k < path.len(),
    ensures
        grid.walk_cost(path) == grid.walk_cost(path.take(k + 1)) + grid.cells_cost(
            path.skip(k + 1),
        ),
    decreases path.len(),
{
    if k == path.len() - 1 {
        assert(path.take(k + 1) =~= path);
        assert(path.skip(k + 1) =~= Seq::<Hex>::empty());
    } else {
        let head = path.drop_last();
        lemma_walk_cost_split(grid, head, k);
        assert(head.take(k + 1) =~= path.take(k + 1));
        assert(head.skip(k + 1) =~= path.skip(k + 1).drop_last());
        assert(path.skip(k + 1).last() == path.last());
    }
}

/// Entering the cells of two lists in turn costs the sum of both.
pub proof fn lemma_cells_cost_append(grid: Grid, a: Seq<Hex>, b: Seq<Hex>)
    ensures
        grid.cells_cost(a + b) == grid.cells_cost(a) + grid.cells_cost(b),
    decreases b.len(),
{
    if b.len() == 0 {
        assert(a + b =~= a);
    } else {
        lemma_cells_cost_append(grid, a, b.drop_last());
        assert((a + b).drop_last() =~= a + b.drop_last());
        assert((a + b).last() == b.last());
    }
}

/// On a grid of positive weights, entering cells inside the grid costs at
/// least one for each.
pub proof fn lemma_cells_cost_lower(grid: Grid, cells: Seq<Hex>)
    requires
        grid.wf(),
        forall|n: int| 0 <= n < cells.len() ==> grid.contains(#[trigger] cells[n]),
    ensures
        grid.cells_cost(cells) >= cells.len(),
    decreases cells.len(),
{
    if cells.len() > 0 {
        lemma_cells_cost_lower(grid, cells.drop_last());
        assert(grid.contains(cells[cells.len() - 1]));
        assert(grid.cost_of(cells.last()) >= 1);
    }
}

/// A walk that comes back to a cell stays a walk between the same ends when
/// the round trip is left out.
pub proof fn lemma_round_trip_cut(grid: Grid, path: Seq<Hex>, i: int, j: int)
    requires
        grid.is_walk(path),
        0 <= i < j < path.len(),
        path[i] == path[j],
    ensures
        grid.is_walk(path.take(i + 1) + path.skip(j + 1)),
        (path.take(i + 1) + path.skip(j + 1)).first() == path.first(),
        (path.take(i + 1) + path.skip(j + 1)).last() == path.last(),
{
    let cut = path.take(i + 1) + path.skip(j + 1);
    assert forall|n: int| 0 <= n < cut.len() - 1 implies grid.is_step(
        #[trigger] cut[n],
        cut[n + 1],
    ) by {
        if n < i {
            assert(cut[n] == path[n]);
            assert(cut[n + 1] == path[n + 1]);
            assert(grid.is_step(path[n], path[n + 1]));
        } else {
            let m = n + (j - i);
            assert(cut[n] == path[m]);
            assert(cut[n + 1] == path[m + 1]);
            assert(grid.is_step(path[m], path[m + 1]));
        }
    }
}

/// On a grid of positive weights, a walk that comes back to a cell costs
/// more than the walk that leaves the round trip out.
pub proof fn lemma_round_trip_costs(grid: Grid, path: Seq<Hex>, i: int, j: int)
    requires
        grid.wf(),
        grid.is_walk(path),
        0 <= i < j < path.len(),
    ensures
        grid.walk_cost(path.take(i + 1) + path.skip(j + 1)) < grid.walk_cost(path),
{
    let cut = path.take(i + 1) + path.skip(j + 1);
    let round = path.subrange(i + 1, j + 1);
    let tail = path.skip(j + 1);
    assert forall|n: int| 0 <= n < round.len() implies grid.contains(#[trigger] round[n]) by {
        assert(grid.is_step(path[i + n], path[i + n + 1]));
    }
    lemma_cells_cost_lower(grid, round);
    lemma_walk_cost_split(grid, path, i);
    lemma_walk_cost_split(grid, cut, i);
    assert(cut.take(i + 1) =~= path.take(i + 1));
    assert(cut.skip(i + 1) =~= tail);
    assert(path.skip(i + 1) =~= round + tail);
    lemma_cells_cost_append(grid, round, tail);
}

/// On a grid of positive weights a shortest route enters no cell twice.
pub proof fn lemma_shortest_route_is_simple(grid: Grid, start: Hex, goal: Hex, path: Seq<Hex>)
    requires
        grid.wf(),
        grid.is_shortest_route(start, goal, path),
    ensures
        path.no_duplicates(),
{
    assert forall|i: int, j: int| 0 <= i < path.len() && 0 <= j < path.len() && i != j implies path[i]
        != path[j] by {
        if path[i] == path[j] {
            if i < j {
                lemma_round_trip_cut(grid, path, i, j);
                lemma_round_trip_costs(grid, path, i, j);
                assert(grid.is_route(start, goal, path.take(i + 1) + path.skip(j + 1)));
            } else {
                lemma_round_trip_cut(grid, path, j, i);
                lemma_round_trip_costs(grid, path, j, i);
                assert(grid.is_route(start, goal, path.take(j + 1) + path.skip(i + 1)));
            }
        }
    }
}

/// `pathfinding::directed::astar::astar`, started at `start`, with
/// `Grid::successors` as its successor function, the distance to `goal` as
/// its heuristic and `Hex::is_at(goal)` as its success test.
///
/// The crate documents that `astar` returns a shortest path from the start
/// node to a node that passes the test, both ends included, together with
/// its total cost, as long as the heuristic never exceeds the real cost of
/// reaching the goal; and `None` when there is no path. The contract says
/// the same in the words of this library: what comes back is a shortest
/// route and the sum of the weights of the cells it enters, and nothing
/// comes back exactly when no route exists.
///
/// The `requires` hold what the call relies on. The search looks only at the
/// start cell and at cells that `successors` returned, which lie inside the
/// grid, so every cell it expands has its six neighbours. The distance to
/// the goal is a consistent estimate: it falls by no more than a step costs.
/// `astar` adds costs in `u32` without a test. With positive weights a cost
/// that it records belongs to a walk that enters no cell twice, so it stays
/// below the total weight; to such a cost it adds one more weight or one
/// estimate, and neither sum passes `u32::MAX`.
#[verifier::external_body]
fn astar_route(grid: &Grid, start: &Hex, goal: &Hex) -> (found: Option<(Vec<Hex>, u32)>)
    requires
        grid.wf(),
        grid.contains(*start),
        2 * grid.total_weight() <= u32::MAX,
        forall|cell: Hex| #[trigger]
            grid.contains(cell) ==> cell.has_neighbors() && cell.spec_distance(*goal)
                + grid.total_weight() <= u32::MAX,
        forall|from: Hex, to: Hex| #[trigger]
            grid.is_step(from, to) ==> from.spec_distance(*goal) <= grid.cost_of(to)
                + to.spec_distance(*goal),
    ensures
        match found {
            Some((path, cost)) => grid.is_shortest_route(*start, *goal, path@) && cost
                == grid.walk_cost(path@),
            None => forall|path: Seq<Hex>| !grid.is_route(*start, *goal, path),
        },
{
    astar(start, |cell| grid.successors(cell), |cell| cell.distance(goal), |cell| cell.is_at(goal))
}

/// Finds a cheapest path from the start cell `(0, 0)` to the goal cell
/// `(width - 1, height - 1)`, moving between neighbouring cells inside the
/// grid and paying the weight of each cell entered. Returns the path, both
/// ends included, with its cost, or `None` where the goal cannot be reached.
///
/// The grid must be valid and weigh no more than `SEARCH_LIMIT` in all, which
/// `Grid::is_searchable` tells. The goal is reached exactly when it lies
/// inside the grid, that is on grids of one or two rows (`lemma_goal_inside`).
/// Which of several cheapest paths comes back is left open; none of them
/// enters a cell twice.
pub fn find_shortest_path(grid: &Grid) -> (found: Option<(Vec<Hex>, u32)>)
    requires
        grid.searchable(),
    ensures
        found.is_some() <==> grid.contains(grid.spec_goal()),
        match found {
            Some((path, cost)) => {
                &&& grid.is_shortest_route(Grid::spec_start(), grid.spec_goal(), path@)
                &&& cost == grid.walk_cost(path@)
                &&& path@.no_duplicates()
            },
            None => forall|path: Seq<Hex>|
                !grid.is_route(Grid::spec_start(), grid.spec_goal(), path),
        },
{
    proof {
        lemma_total_weight_lower(*grid);
    }
    let start = Grid::start();
    let goal = grid.goal();
    proof {
        lemma_distance_is_lower_bound(*grid, goal);
        assert forall|cell: Hex| #[trigger] grid.contains(cell) implies cell.has_neighbors()
            && cell.spec_distance(goal) + grid.total_weight() <= u32::MAX by {
            assert(cell.spec_distance(goal) <= grid.width + grid.height - 2);
        }
    }
    let found = astar_route(grid, &start, &goal);
    proof {
        lemma_goal_inside(*grid);
        if grid.contains(goal) {
            lemma_direct_route(*grid);
            assert(grid.is_route(start, goal, grid.direct_route()));
        } else {
            if found.is_some() {
                lemma_route_ends_inside(*grid, start, goal, found.unwrap().0@);
            }
        }
        if found.is_some() {
            lemma_shortest_route_is_simple(*grid, start, goal, found.unwrap().0@);
        }
    }
    found
}

} // verus!
