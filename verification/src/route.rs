//! Routes: what a route over the grid is, how one is read back out of a
//! table of predecessors, and why none is shorter than the Manhattan
//! distance between its ends.

use crate::grid::{adjacent, lemma_adjacent_distance, manhattan, squared_distance, Coordinate, Grid};
use crate::table::{cell, load};
use vstd::prelude::*;

verus! {

/// `route` leads from `start` to `goal` over cells of `grid`, one orthogonal
/// step at a time.
pub open spec fn is_route(grid: Grid, route: Seq<Coordinate>, start: Coordinate, goal: Coordinate) -> bool {
    &&& route.len() >= 1
    &&& route[0] == start
    &&& route[route.len() - 1] == goal
    &&& forall|i: int| 0 <= i < route.len() ==> grid.in_bounds(#[trigger] route[i])
    &&& forall|i: int| 0 <= i < route.len() - 1 ==> adjacent(#[trigger] route[i], route[i + 1])
}

/// The cost of a route: one for each step, since every step joins adjacent
/// cells.
pub open spec fn route_cost(route: Seq<Coordinate>) -> nat {
    if route.len() == 0 {
        0
    } else {
        (route.len() - 1) as nat
    }
}

/// Following predecessors from `c` reaches a cell without predecessor after
/// exactly `steps` steps, and never leaves the table on the way.
pub open spec fn traces_back(came_from: Seq<Vec<Option<Coordinate>>>, c: Coordinate, steps: nat) -> bool
    decreases steps,
{
    &&& c.0 < came_from.len()
    &&& c.1 < came_from[c.0 as int].len()
    &&& match cell(came_from, c) {
        None => steps == 0,
        Some(previous) => steps > 0 && traces_back(came_from, previous, (steps - 1) as nat),
    }
}

/// The cells met when following predecessors from `c` for `steps` steps,
/// `c` first.
pub open spec fn trace(came_from: Seq<Vec<Option<Coordinate>>>, c: Coordinate, steps: nat) -> Seq<Coordinate>
    decreases steps,
{
    if steps == 0 {
        seq![c]
    } else {
        seq![c] + trace(came_from, cell(came_from, c).unwrap(), (steps - 1) as nat)
    }
}

/// The number of steps back to a cell without predecessor is determined by
/// the table and the cell.
pub proof fn lemma_traces_back_unique(came_from: Seq<Vec<Option<Coordinate>>>, c: Coordinate, a: nat, b: nat)
    requires
        traces_back(came_from, c, a),
        traces_back(came_from, c, b),
    ensures
        a == b,
    decreases a,
{
    if a > 0 {
        lemma_traces_back_unique(came_from, cell(came_from, c).unwrap(), (a - 1) as nat, (b - 1) as nat);
    }
}

/// A trace of `steps` steps has `steps + 1` cells and starts at `c`.
pub proof fn lemma_trace_len(came_from: Seq<Vec<Option<Coordinate>>>, c: Coordinate, steps: nat)
    ensures
        trace(came_from, c, steps).len() == steps + 1,
        trace(came_from, c, steps)[0] == c,
    decreases steps,
{
    if steps > 0 {
        lemma_trace_len(came_from, cell(came_from, c).unwrap(), (steps - 1) as nat);
    }
}

/// The cells of `cells` in the opposite order.
pub fn reversed(cells: &Vec<Coordinate>) -> (turned: Vec<Coordinate>)
    ensures
        turned@ == cells@.reverse(),
{
    let mut turned: Vec<Coordinate> = Vec::new();
    let mut left: usize = cells.len();
    while left > 0
        invariant
            left <= cells.len(),
            turned.len() == cells.len() - left,
            forall|i: int| 0 <= i < turned.len() ==> turned[i] == cells[cells.len() - 1 - i],
        decreases left,
    {
        left -= 1;
        turned.push(cells[left]);
    }
    assert(turned@ =~= cells@.reverse());
    turned
}

/// Reads a route out of a table of predecessors: follows the predecessors
/// from `current` until a cell has none, and returns the cells met in the
/// opposite order, so that `current` comes last.
pub fn reconstruct_path(came_from: &Vec<Vec<Option<Coordinate>>>, current: Coordinate) -> (route: Vec<Coordinate>)
    requires
        exists|steps: nat| traces_back(came_from@, current, steps),
    ensures
        forall|steps: nat|
            traces_back(came_from@, current, steps) ==> route@ == trace(came_from@, current, steps).reverse(),
{
    let ghost total: nat = choose|steps: nat| traces_back(came_from@, current, steps);
    let mut position: Coordinate = current;
    let mut total_path: Vec<Coordinate> = Vec::new();
    total_path.push(current);
    let ghost mut left: nat = total;
    proof {
        lemma_trace_len(came_from@, position, left);
        assert(trace(came_from@, current, total) =~= total_path@.drop_last() + trace(came_from@, position, left));
    }
    loop
        invariant
            traces_back(came_from@, position, left),
            total_path.len() >= 1,
            total_path[total_path.len() - 1] == position,
            trace(came_from@, current, total) == total_path@.drop_last() + trace(came_from@, position, left),
        ensures
            total_path@ == trace(came_from@, current, total),
        decreases left,
    {
        let ghost before: Seq<Coordinate> = total_path@;
        match load(came_from, position) {
            None => {
                proof {
                    assert(left == 0);
                    assert(trace(came_from@, position, left) =~= seq![position]);
                    assert(total_path@ =~= total_path@.drop_last() + seq![position]);
                }
                break ;
            },
            Some(next) => {
                proof {
                    assert(trace(came_from@, position, left) == seq![position] + trace(
                        came_from@,
                        next,
                        (left - 1) as nat,
                    ));
                    left = (left - 1) as nat;
                }
                position = next;
                total_path.push(position);
                proof {
                    assert(total_path@.drop_last() =~= before);
                    assert(before =~= before.drop_last() + seq![before.last()]);
                    assert(trace(came_from@, current, total) =~= total_path@.drop_last() + trace(
                        came_from@,
                        position,
                        left,
                    ));
                }
            },
        }
    }
    let route: Vec<Coordinate> = reversed(&total_path);
    proof {
        assert forall|steps: nat| traces_back(came_from@, current, steps) implies route@ == trace(
            came_from@,
            current,
            steps,
        ).reverse() by {
            lemma_traces_back_unique(came_from@, current, steps, total);
        }
    }
    route
}

/// Each orthogonal step changes the Manhattan distance to a fixed cell by
/// at most one, so a walk of adjacent cells is at least as long as the
/// Manhattan distance between its ends.
pub proof fn lemma_walk_at_least_manhattan(walk: Seq<Coordinate>)
    requires
        walk.len() >= 1,
        forall|i: int| 0 <= i < walk.len() - 1 ==> adjacent(#[trigger] walk[i], walk[i + 1]),
    ensures
        manhattan(walk[0], walk[walk.len() - 1]) <= walk.len() - 1,
    decreases walk.len(),
{
    if walk.len() > 1 {
        let shorter = walk.drop_last();
        assert forall|i: int| 0 <= i < shorter.len() - 1 implies adjacent(#[trigger] shorter[i], shorter[i + 1]) by {
            assert(adjacent(walk[i], walk[i + 1]));
        }
        lemma_walk_at_least_manhattan(shorter);
        let n = walk.len();
        assert(adjacent(walk[n - 2], walk[n - 1]));
        assert(shorter[0] == walk[0]);
        assert(shorter[shorter.len() - 1] == walk[n - 2]);
    }
}

/// No route is cheaper than the Manhattan distance between its ends.
pub proof fn lemma_route_cost_at_least_manhattan(
    grid: Grid,
    route: Seq<Coordinate>,
    start: Coordinate,
    goal: Coordinate,
)
    requires
        is_route(grid, route, start, goal),
    ensures
        manhattan(start, goal) <= route_cost(route),
{
    lemma_walk_at_least_manhattan(route);
}

/// Every step of a route joins two cells at Euclidean distance one, and the
/// route's cost is the number of its steps.
pub proof fn lemma_route_steps_have_unit_length(
    grid: Grid,
    route: Seq<Coordinate>,
    start: Coordinate,
    goal: Coordinate,
    i: int,
)
    requires
        is_route(grid, route, start, goal),
        0 <= i < route.len() - 1,
    ensures
        squared_distance(route[i], route[i + 1]) == 1,
        route_cost(route) == route.len() - 1,
{
    assert(adjacent(route[i], route[i + 1]));
    lemma_adjacent_distance(route[i], route[i + 1], 1);
}

} // verus!
