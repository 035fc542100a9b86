//! The route planner: a best-first search from a start cell to a goal cell
//! that expands the cheapest frontier entry first, where the cost of an
//! entry is the cost of the best known way to its cell plus the Manhattan
//! distance still to go.

use crate::frontier::{is_first_cheapest, Frontier, State};
use crate::grid::{adjacent, lemma_neighbors_are_adjacent_cells, manhattan, Coordinate, Grid};
use crate::route::{
    is_route,
    lemma_walk_at_least_manhattan,
    reconstruct_path,
    route_cost,
    trace,
    traces_back,
};
use crate::table::{cell, filled, in_table, is_table, lemma_store_cells, load, store};
use vstd::prelude::*;

verus! {

/// What a table entry counts for in the planner's progress measure: a known
/// cost counts as itself, an unknown one as `cap`.
spec fn weight(score: Option<usize>, cap: nat) -> nat {
    match score {
        Some(k) => if k < cap {
            k as nat
        } else {
            cap
        },
        None => cap,
    }
}

/// The weights of a row, added up.
spec fn row_weight(row: Seq<Option<usize>>, cap: nat) -> nat
    decreases row.len(),
{
    if row.len() == 0 {
        0
    } else {
        row_weight(row.drop_last(), cap) + weight(row.last(), cap)
    }
}

/// The weights of a whole table, added up.
spec fn table_weight(rows: Seq<Vec<Option<usize>>>, cap: nat) -> nat
    decreases rows.len(),
{
    if rows.len() == 0 {
        0
    } else {
        table_weight(rows.drop_last(), cap) + row_weight(rows.last()@, cap)
    }
}

/// Replacing one entry of a row changes the row's weight by the difference
/// of the two entries' weights.
proof fn lemma_row_weight_update(row: Seq<Option<usize>>, i: int, score: Option<usize>, cap: nat)
    requires
        0 <= i < row.len(),
    ensures
        row_weight(row.update(i, score), cap) + weight(row[i], cap) == row_weight(row, cap) + weight(score, cap),
    decreases row.len(),
{
    let changed = row.update(i, score);
    if i == row.len() - 1 {
        assert(changed.drop_last() =~= row.drop_last());
    } else {
        assert(changed.drop_last() =~= row.drop_last().update(i, score));
        lemma_row_weight_update(row.drop_last(), i, score, cap);
    }
}

/// Replacing one row of a table changes the table's weight by the difference
/// of the two rows' weights.
proof fn lemma_table_weight_update(
    before: Seq<Vec<Option<usize>>>,
    after: Seq<Vec<Option<usize>>>,
    r: int,
    cap: nat,
)
    requires
        0 <= r < before.len(),
        after.len() == before.len(),
        forall|i: int| 0 <= i < before.len() && i != r ==> after[i] == before[i],
    ensures
        table_weight(after, cap) + row_weight(before[r]@, cap) == table_weight(before, cap) + row_weight(
            after[r]@,
            cap,
        ),
    decreases before.len(),
{
    if r == before.len() - 1 {
        assert(after.drop_last() =~= before.drop_last());
    } else {
        assert(after.last() == before.last());
        lemma_table_weight_update(before.drop_last(), after.drop_last(), r, cap);
    }
}

/// The planner's working state for one search: the best known cost from the
/// start to each cell, that cost plus the estimate to the goal, the
/// predecessor on the best known way to each cell, and the frontier.
struct Search {
    g_score: Vec<Vec<Option<usize>>>,
    f_score: Vec<Vec<Option<usize>>>,
    came_from: Vec<Vec<Option<Coordinate>>>,
    open_set: Frontier,
}

impl Search {
    /// The best known cost from the start to `c`; `None` while no way to `c`
    /// is known.
    spec fn g(&self, c: Coordinate) -> Option<usize> {
        cell(self.g_score@, c)
    }

    /// The best known cost to `c` plus the estimate from `c` to the goal.
    spec fn f(&self, c: Coordinate) -> Option<usize> {
        cell(self.f_score@, c)
    }

    /// The cell before `c` on the best known way to `c`.
    spec fn parent(&self, c: Coordinate) -> Option<Coordinate> {
        cell(self.came_from@, c)
    }

    /// The entries of the frontier, in the order in which they were made.
    spec fn entries(&self) -> Seq<State> {
        self.open_set@
    }

    /// The three tables have one entry for each cell of a grid of size `n`.
    spec fn shaped(&self, n: nat) -> bool {
        &&& is_table(self.g_score@, n)
        &&& is_table(self.f_score@, n)
        &&& is_table(self.came_from@, n)
    }

    /// The start costs nothing and has no predecessor.
    spec fn rooted(&self, start: Coordinate) -> bool {
        &&& self.g(start) == Some(0usize)
        &&& self.parent(start).is_none()
    }

    /// The predecessor of `c` is an adjacent cell that is known to be
    /// reachable at least one step more cheaply than `c`.
    spec fn linked_at(&self, n: nat, c: Coordinate) -> bool {
        match self.parent(c) {
            Some(p) => {
                &&& in_table(n, p)
                &&& adjacent(p, c)
                &&& self.g(p).is_some()
                &&& self.g(c).is_some()
                &&& self.g(p).unwrap() + 1 <= self.g(c).unwrap()
            },
            None => false,
        }
    }

    /// Every reached cell but the start has such a predecessor.
    spec fn linked(&self, n: nat, start: Coordinate) -> bool {
        forall|c: Coordinate|
            in_table(n, c) && c != start && self.g(c).is_some() ==> #[trigger] self.linked_at(n, c)
    }

    /// A known cost to `c` is no less than the Manhattan distance from the
    /// start, stays below twice the grid's size, and the table of estimates
    /// agrees with it.
    spec fn scored_at(&self, n: nat, start: Coordinate, goal: Coordinate, c: Coordinate) -> bool {
        match self.g(c) {
            Some(k) => {
                &&& manhattan(start, c) <= k < 2 * n
                &&& self.f(c).is_some()
                &&& self.f(c).unwrap() == k + manhattan(c, goal)
            },
            None => self.f(c).is_none(),
        }
    }

    /// Every cell is scored in that way.
    spec fn scored(&self, n: nat, start: Coordinate, goal: Coordinate) -> bool {
        forall|c: Coordinate| in_table(n, c) ==> #[trigger] self.scored_at(n, start, goal, c)
    }

    /// A frontier entry names a reached cell of the grid, and its cost is no
    /// less than what is known of the cell now.
    spec fn entry_sound(&self, n: nat, goal: Coordinate, entry: State) -> bool {
        &&& in_table(n, entry.position)
        &&& self.g(entry.position).is_some()
        &&& self.g(entry.position).unwrap() + manhattan(entry.position, goal) <= entry.cost
    }

    /// Every frontier entry is sound.
    spec fn entries_sound(&self, n: nat, goal: Coordinate) -> bool {
        forall|i: int| 0 <= i < self.entries().len() ==> self.entry_sound(n, goal, #[trigger] self.entries()[i])
    }

    /// The frontier entry that carries the cost now known for `c`.
    spec fn current_entry(&self, goal: Coordinate, c: Coordinate) -> State {
        State { cost: (self.g(c).unwrap() + manhattan(c, goal)) as usize, position: c }
    }

    /// `c` waits on the frontier with the cost now known for it.
    spec fn waits(&self, goal: Coordinate, c: Coordinate) -> bool {
        self.entries().contains(self.current_entry(goal, c))
    }

    /// The neighbour `nb` of `c` is known to be reachable for at most one
    /// more than `c`.
    spec fn settled_toward(&self, c: Coordinate, nb: Coordinate) -> bool {
        &&& self.g(c).is_some()
        &&& self.g(nb).is_some()
        &&& self.g(nb).unwrap() <= self.g(c).unwrap() + 1
    }

    /// Every neighbour of `c` is settled in that way: expanding `c` again
    /// would change nothing.
    spec fn closed(&self, n: nat, c: Coordinate) -> bool {
        forall|nb: Coordinate| in_table(n, nb) && adjacent(c, nb) ==> #[trigger] self.settled_toward(c, nb)
    }

    /// `c` either waits on the frontier or is closed; the goal is never
    /// closed, since the search ends when the goal leaves the frontier.
    spec fn covered_at(&self, n: nat, goal: Coordinate, c: Coordinate) -> bool {
        self.waits(goal, c) || (c != goal && self.closed(n, c))
    }

    /// Every reached cell is covered, but for the cell `skip` that is being
    /// expanded, if any.
    spec fn covered_except(&self, n: nat, goal: Coordinate, skip: Option<Coordinate>) -> bool {
        forall|c: Coordinate|
            in_table(n, c) && self.g(c).is_some() && Some(c) != skip ==> #[trigger] self.covered_at(n, goal, c)
    }

    /// What holds of a search between two steps; while the cell `skip` is
    /// being expanded, that cell need not be covered.
    spec fn inv(&self, n: nat, start: Coordinate, goal: Coordinate, skip: Option<Coordinate>) -> bool {
        &&& 1 <= n
        &&& 2 * n <= usize::MAX
        &&& in_table(n, start)
        &&& in_table(n, goal)
        &&& self.shaped(n)
        &&& self.rooted(start)
        &&& self.linked(n, start)
        &&& self.scored(n, start, goal)
        &&& self.entries_sound(n, goal)
        &&& self.covered_except(n, goal, skip)
    }

    /// The progress measure: it falls with every entry that leaves the
    /// frontier, and an entry is only made when a cost falls.
    spec fn potential(&self, n: nat) -> nat {
        2 * table_weight(self.g_score@, 2 * n) + self.open_set@.len()
    }

    /// A fresh search: only the start is reached, at no cost, and it alone
    /// waits on the frontier.
    fn begin(grid: &Grid, start: Coordinate, goal: Coordinate) -> (search: Search)
        requires
            grid.wf(),
            grid.in_bounds(start),
            grid.in_bounds(goal),
        ensures
            search.inv(grid.size(), start, goal, None),
    {
        let n: usize = grid.side();
        let mut g_score: Vec<Vec<Option<usize>>> = filled(n, None);
        let mut f_score: Vec<Vec<Option<usize>>> = filled(n, None);
        let came_from: Vec<Vec<Option<Coordinate>>> = filled(n, None);
        let mut open_set: Frontier = Frontier::new();
        let estimate: usize = grid.heuristic(start, goal);
        let ghost g_before = g_score@;
        let ghost f_before = f_score@;
        store(&mut g_score, start, Some(0));
        store(&mut f_score, start, Some(estimate));
        open_set.push(State { cost: estimate, position: start });
        let search = Search { g_score, f_score, came_from, open_set };
        proof {
            lemma_store_cells(g_before, search.g_score@, n as nat, start, Some(0usize));
            lemma_store_cells(f_before, search.f_score@, n as nat, start, Some(estimate));
            assert forall|c: Coordinate| in_table(n as nat, c) implies #[trigger] search.scored_at(
                n as nat,
                start,
                goal,
                c,
            ) by {
                if c != start {
                    assert(cell(search.g_score@, c) == cell(g_before, c));
                    assert(cell(search.f_score@, c) == cell(f_before, c));
                }
            }
            assert forall|c: Coordinate|
                in_table(n as nat, c) && c != start && search.g(c).is_some() implies #[trigger] search.linked_at(
                n as nat,
                c,
            ) by {
                assert(cell(search.g_score@, c) == cell(g_before, c));
            }
            assert(search.entries()[0] == search.current_entry(goal, start));
            assert forall|c: Coordinate|
                in_table(n as nat, c) && search.g(c).is_some() implies #[trigger] search.covered_at(
                n as nat,
                goal,
                c,
            ) by {
                if c != start {
                    assert(cell(search.g_score@, c) == cell(g_before, c));
                }
            }
        }
        search
    }
}

/// A known cost stays known and does not rise.
spec fn no_worse(before: Option<usize>, after: Option<usize>) -> bool {
    before.is_some() ==> after.is_some() && after.unwrap() <= before.unwrap()
}

/// Each orthogonal step changes the Manhattan distance to a fixed cell by
/// exactly one.
proof fn lemma_step_changes_manhattan(a: Coordinate, b: Coordinate, to: Coordinate)
    requires
        adjacent(a, b),
    ensures
        manhattan(b, to) == manhattan(a, to) + 1 || manhattan(b, to) + 1 == manhattan(a, to),
        manhattan(to, b) == manhattan(b, to),
        manhattan(to, a) == manhattan(a, to),
{
}

/// Recording a cheaper way to the neighbour `nb` of the cell `current` that
/// is being expanded keeps the search in order.
proof fn lemma_relax_improves(
    before: Search,
    after: Search,
    n: nat,
    start: Coordinate,
    goal: Coordinate,
    current: Coordinate,
    nb: Coordinate,
    tentative: usize,
)
    requires
        before.inv(n, start, goal, Some(current)),
        in_table(n, current),
        in_table(n, nb),
        adjacent(current, nb),
        before.g(current) == Some(manhattan(start, current) as usize),
        manhattan(start, current) + manhattan(current, goal) == manhattan(start, goal),
        tentative == manhattan(start, current) + 1,
        before.g(nb).is_none() || tentative < before.g(nb).unwrap(),
        after.shaped(n),
        after.g(nb) == Some(tentative),
        after.f(nb) == Some((tentative + manhattan(nb, goal)) as usize),
        after.parent(nb) == Some(current),
        forall|c: Coordinate| in_table(n, c) && c != nb ==> #[trigger] after.g(c) == before.g(c),
        forall|c: Coordinate| in_table(n, c) && c != nb ==> #[trigger] after.f(c) == before.f(c),
        forall|c: Coordinate| in_table(n, c) && c != nb ==> #[trigger] after.parent(c) == before.parent(c),
        after.entries() == before.entries().push(
            State { cost: (tentative + manhattan(nb, goal)) as usize, position: nb },
        ),
    ensures
        after.inv(n, start, goal, Some(current)),
        after.settled_toward(current, nb),
        forall|c: Coordinate| in_table(n, c) ==> no_worse(before.g(c), #[trigger] after.g(c)),
{
    lemma_step_changes_manhattan(current, nb, start);
    lemma_step_changes_manhattan(current, nb, goal);
    assert(before.scored_at(n, start, goal, start));
    assert(before.scored_at(n, start, goal, nb));
    assert(before.scored_at(n, start, goal, current));
    assert(nb != start);
    assert(nb != current);
    assert(manhattan(start, goal) <= 2 * n - 2);
    assert(tentative + manhattan(nb, goal) <= usize::MAX);
    assert forall|c: Coordinate| in_table(n, c) implies no_worse(before.g(c), #[trigger] after.g(c)) by {
        if c != nb {
            assert(after.g(c) == before.g(c));
        }
    }
    assert forall|c: Coordinate|
        in_table(n, c) && c != start && after.g(c).is_some() implies #[trigger] after.linked_at(n, c) by {
        if c != nb {
            assert(after.g(c) == before.g(c));
            assert(after.parent(c) == before.parent(c));
            assert(before.linked_at(n, c));
            let p = before.parent(c).unwrap();
            assert(no_worse(before.g(p), after.g(p)));
        } else {
            assert(after.g(current) == before.g(current));
        }
    }
    assert forall|c: Coordinate| in_table(n, c) implies #[trigger] after.scored_at(n, start, goal, c) by {
        if c != nb {
            assert(after.g(c) == before.g(c));
            assert(after.f(c) == before.f(c));
            assert(before.scored_at(n, start, goal, c));
        }
    }
    let pushed = State { cost: (tentative + manhattan(nb, goal)) as usize, position: nb };
    assert forall|i: int| 0 <= i < after.entries().len() implies after.entry_sound(
        n,
        goal,
        #[trigger] after.entries()[i],
    ) by {
        if i < before.entries().len() {
            let entry = before.entries()[i];
            assert(after.entries()[i] == entry);
            assert(before.entry_sound(n, goal, entry));
            assert(no_worse(before.g(entry.position), after.g(entry.position)));
        } else {
            assert(after.entries()[i] == pushed);
        }
    }
    assert forall|c: Coordinate|
        in_table(n, c) && after.g(c).is_some() && Some(c) != Some(current) implies #[trigger] after.covered_at(
        n,
        goal,
        c,
    ) by {
        if c == nb {
            assert(after.entries()[before.entries().len() as int] == after.current_entry(goal, c));
        } else {
            assert(after.g(c) == before.g(c));
            assert(before.covered_at(n, goal, c));
            if before.waits(goal, c) {
                let i = choose|i: int|
                    0 <= i < before.entries().len() && before.entries()[i] == before.current_entry(goal, c);
                assert(after.entries()[i] == after.current_entry(goal, c));
            } else {
                assert forall|other: Coordinate| in_table(n, other) && adjacent(c, other) implies #[trigger] after.settled_toward(
                    c,
                    other,
                ) by {
                    assert(before.settled_toward(c, other));
                    assert(no_worse(before.g(other), after.g(other)));
                }
            }
        }
    }
    assert(after.g(current) == before.g(current));
}

impl Search {
    /// One relaxation: if the way to `neighbor` through `current` is
    /// strictly cheaper than the best known so far, or is the first found,
    /// it is recorded and `neighbor` enters the frontier with its new cost.
    /// Otherwise nothing changes.
    fn relax(&mut self, grid: &Grid, start: Coordinate, goal: Coordinate, current: Coordinate, neighbor: Coordinate)
        requires
            grid.wf(),
            old(self).inv(grid.size(), start, goal, Some(current)),
            grid.in_bounds(current),
            grid.in_bounds(neighbor),
            adjacent(current, neighbor),
            old(self).g(current) == Some(manhattan(start, current) as usize),
            manhattan(start, current) + manhattan(current, goal) == manhattan(start, goal),
        ensures
            final(self).inv(grid.size(), start, goal, Some(current)),
            final(self).g(current) == old(self).g(current),
            final(self).settled_toward(current, neighbor),
            forall|c: Coordinate|
                grid.in_bounds(c) ==> no_worse(old(self).g(c), #[trigger] final(self).g(c)),
            final(self).potential(grid.size()) <= old(self).potential(grid.size()),
    {
        let ghost n: nat = grid.size();
        let ghost before: Search = *self;
        proof {
            assert(self.scored_at(n, start, goal, current));
            assert(self.scored_at(n, start, goal, neighbor));
            assert(manhattan(start, goal) <= 2 * n - 2);
            lemma_step_changes_manhattan(current, neighbor, goal);
        }
        let step: usize = match grid.distance(current, neighbor) {
            Some(step) => step,
            None => {
                return ;
            },
        };
        let tentative: usize = match load(&self.g_score, current) {
            Some(reached) => reached + step,
            None => {
                return ;
            },
        };
        let improves: bool = match load(&self.g_score, neighbor) {
            Some(known) => tentative < known,
            None => true,
        };
        if improves {
            store(&mut self.came_from, neighbor, Some(current));
            store(&mut self.g_score, neighbor, Some(tentative));
            let estimate: usize = tentative + grid.heuristic(neighbor, goal);
            store(&mut self.f_score, neighbor, Some(estimate));
            self.open_set.push(State { cost: estimate, position: neighbor });
            proof {
                lemma_store_cells(before.came_from@, self.came_from@, n, neighbor, Some(current));
                lemma_store_cells(before.g_score@, self.g_score@, n, neighbor, Some(tentative));
                lemma_store_cells(before.f_score@, self.f_score@, n, neighbor, Some(estimate));
                lemma_relax_improves(before, *self, n, start, goal, current, neighbor, tentative);
                let r: int = neighbor.0 as int;
                lemma_table_weight_update(before.g_score@, self.g_score@, r, 2 * n);
                lemma_row_weight_update(before.g_score@[r]@, neighbor.1 as int, Some(tentative), 2 * n);
            }
        } else {
            proof {
                assert forall|c: Coordinate| grid.in_bounds(c) implies no_worse(
                    before.g(c),
                    #[trigger] self.g(c),
                ) by {}
            }
        }
    }
}

/// The cell next to `c` that lies one step nearer to `to`; `c` itself where
/// the two are the same cell.
spec fn step_toward(c: Coordinate, to: Coordinate) -> Coordinate {
    if c.0 > to.0 {
        ((c.0 - 1) as usize, c.1)
    } else if c.0 < to.0 {
        ((c.0 + 1) as usize, c.1)
    } else if c.1 > to.1 {
        (c.0, (c.1 - 1) as usize)
    } else if c.1 < to.1 {
        (c.0, (c.1 + 1) as usize)
    } else {
        c
    }
}

/// Some frontier entry costs no more than `bound`.
spec fn has_entry_within(entries: Seq<State>, bound: nat) -> bool {
    exists|i: int| 0 <= i < entries.len() && (#[trigger] entries[i]).cost <= bound
}

/// Between two steps of the search, take any cell `c` that lies on a
/// shortest way from the start to the goal. Then either the frontier holds
/// an entry that costs no more than the Manhattan distance from the start to
/// the goal, or `c` is closed at its true distance from the start.
proof fn lemma_cheap_entry_or_closed(search: Search, n: nat, start: Coordinate, goal: Coordinate, c: Coordinate)
    requires
        search.inv(n, start, goal, None),
        in_table(n, c),
        manhattan(start, c) + manhattan(c, goal) == manhattan(start, goal),
    ensures
        has_entry_within(search.entries(), manhattan(start, goal)) || (search.g(c) == Some(
            manhattan(start, c) as usize,
        ) && c != goal && search.closed(n, c)),
    decreases manhattan(start, c),
{
    if c != start {
        let p = step_toward(c, start);
        assert(adjacent(p, c));
        assert(manhattan(start, p) + 1 == manhattan(start, c));
        assert(manhattan(start, p) + manhattan(p, goal) == manhattan(start, goal));
        lemma_cheap_entry_or_closed(search, n, start, goal, p);
        if !has_entry_within(search.entries(), manhattan(start, goal)) {
            assert(search.settled_toward(p, c));
            assert(search.scored_at(n, start, goal, c));
        }
    }
    if !has_entry_within(search.entries(), manhattan(start, goal)) {
        assert(search.g(c) == Some(manhattan(start, c) as usize));
        assert(search.covered_at(n, goal, c));
        if search.waits(goal, c) {
            let i = choose|i: int|
                0 <= i < search.entries().len() && search.entries()[i] == search.current_entry(goal, c);
            assert(search.entries()[i].cost <= manhattan(start, goal));
        }
    }
}

/// Between two steps of the search the frontier holds an entry that costs
/// no more than the Manhattan distance from the start to the goal. So the
/// frontier is not empty, and its cheapest entry costs no more than that.
proof fn lemma_cheap_entry_waits(search: Search, n: nat, start: Coordinate, goal: Coordinate)
    requires
        search.inv(n, start, goal, None),
    ensures
        has_entry_within(search.entries(), manhattan(start, goal)),
{
    lemma_cheap_entry_or_closed(search, n, start, goal, goal);
}

/// Taking the cheapest entry off the frontier keeps the search in order,
/// but for the cell of that entry, which is now due to be expanded. That
/// cell lies on a shortest way from the start to the goal, and the cost
/// known for it is its true distance from the start.
proof fn lemma_pop_cheapest(before: Search, after: Search, n: nat, start: Coordinate, goal: Coordinate, i: int)
    requires
        before.inv(n, start, goal, None),
        is_first_cheapest(before.entries(), i),
        after.entries() == before.entries().remove(i),
        after.shaped(n),
        forall|c: Coordinate| in_table(n, c) ==> #[trigger] after.g(c) == before.g(c),
        forall|c: Coordinate| in_table(n, c) ==> #[trigger] after.f(c) == before.f(c),
        forall|c: Coordinate| in_table(n, c) ==> #[trigger] after.parent(c) == before.parent(c),
    ensures
        after.inv(n, start, goal, Some(before.entries()[i].position)),
        in_table(n, before.entries()[i].position),
        after.g(before.entries()[i].position) == Some(manhattan(start, before.entries()[i].position) as usize),
        manhattan(start, before.entries()[i].position) + manhattan(before.entries()[i].position, goal)
            == manhattan(start, goal),
{
    let popped = before.entries()[i];
    let position = popped.position;
    lemma_cheap_entry_waits(before, n, start, goal);
    let j = choose|j: int| 0 <= j < before.entries().len() && (#[trigger] before.entries()[j]).cost <= manhattan(start, goal);
    assert(popped.cost <= before.entries()[j].cost);
    assert(before.entry_sound(n, goal, popped));
    assert(before.scored_at(n, start, goal, position));
    lemma_triangle(start, position, goal);
    assert forall|c: Coordinate|
        in_table(n, c) && c != start && after.g(c).is_some() implies #[trigger] after.linked_at(n, c) by {
        assert(after.g(c) == before.g(c));
        assert(after.parent(c) == before.parent(c));
        assert(before.linked_at(n, c));
        let p = before.parent(c).unwrap();
        assert(after.g(p) == before.g(p));
    }
    assert forall|c: Coordinate| in_table(n, c) implies #[trigger] after.scored_at(n, start, goal, c) by {
        assert(after.g(c) == before.g(c));
        assert(after.f(c) == before.f(c));
        assert(before.scored_at(n, start, goal, c));
    }
    assert forall|k: int| 0 <= k < after.entries().len() implies after.entry_sound(
        n,
        goal,
        #[trigger] after.entries()[k],
    ) by {
        let source: int = if k < i {
            k
        } else {
            k + 1
        };
        let entry = before.entries()[source];
        assert(after.entries()[k] == entry);
        assert(before.entry_sound(n, goal, entry));
        assert(after.g(entry.position) == before.g(entry.position));
    }
    assert forall|c: Coordinate|
        in_table(n, c) && after.g(c).is_some() && Some(c) != Some(position) implies #[trigger] after.covered_at(
        n,
        goal,
        c,
    ) by {
        assert(after.g(c) == before.g(c));
        assert(before.covered_at(n, goal, c));
        if before.waits(goal, c) {
            let k = choose|k: int|
                0 <= k < before.entries().len() && before.entries()[k] == before.current_entry(goal, c);
            assert(k != i);
            let target: int = if k < i {
                k
            } else {
                k - 1
            };
            assert(after.entries()[target] == after.current_entry(goal, c));
        } else {
            assert forall|other: Coordinate| in_table(n, other) && adjacent(c, other) implies #[trigger] after.settled_toward(
                c,
                other,
            ) by {
                assert(before.settled_toward(c, other));
                assert(after.g(other) == before.g(other));
            }
        }
    }
    assert(after.g(start) == before.g(start));
    assert(after.parent(start) == before.parent(start));
    assert(after.g(position) == before.g(position));
}

/// The way over a third cell is no shorter than the direct one.
proof fn lemma_triangle(a: Coordinate, over: Coordinate, b: Coordinate)
    ensures
        manhattan(a, b) <= manhattan(a, over) + manhattan(over, b),
{
}

/// From any reached cell the predecessors lead back to the start, in no
/// more steps than the cost known for the cell, over adjacent cells of the
/// grid. The result is the number of steps.
proof fn lemma_predecessors_lead_to_start(search: Search, n: nat, start: Coordinate, c: Coordinate) -> (steps: nat)
    requires
        search.shaped(n),
        in_table(n, start),
        search.rooted(start),
        search.linked(n, start),
        in_table(n, c),
        search.g(c).is_some(),
    ensures
        traces_back(search.came_from@, c, steps),
        steps <= search.g(c).unwrap(),
        trace(search.came_from@, c, steps).len() == steps + 1,
        trace(search.came_from@, c, steps)[0] == c,
        trace(search.came_from@, c, steps)[steps as int] == start,
        forall|i: int| 0 <= i <= steps ==> in_table(n, #[trigger] trace(search.came_from@, c, steps)[i]),
        forall|i: int|
            0 <= i < steps ==> adjacent(
                #[trigger] trace(search.came_from@, c, steps)[i],
                trace(search.came_from@, c, steps)[i + 1],
            ),
    decreases search.g(c).unwrap(),
{
    if c == start {
        0
    } else {
        assert(search.linked_at(n, c));
        let p = search.parent(c).unwrap();
        let shorter = lemma_predecessors_lead_to_start(search, n, start, p);
        let steps = shorter + 1;
        let tail = trace(search.came_from@, p, shorter);
        let whole = trace(search.came_from@, c, steps);
        assert(whole == seq![c] + tail);
        assert forall|i: int| 0 <= i <= steps implies in_table(n, #[trigger] whole[i]) by {
            if i > 0 {
                assert(whole[i] == tail[i - 1]);
            }
        }
        assert forall|i: int| 0 <= i < steps implies adjacent(#[trigger] whole[i], whole[i + 1]) by {
            assert(whole[i + 1] == tail[i]);
            if i > 0 {
                assert(whole[i] == tail[i - 1]);
            } else {
                lemma_step_changes_manhattan(p, c, c);
            }
        }
        steps
    }
}

/// `route` is a cheapest route from `start` to `goal` over `grid`: a route
/// with exactly as many steps as the Manhattan distance between its ends.
pub open spec fn is_shortest_route(grid: Grid, route: Seq<Coordinate>, start: Coordinate, goal: Coordinate) -> bool {
    &&& is_route(grid, route, start, goal)
    &&& route_cost(route) == manhattan(start, goal)
}

impl Search {
    /// Takes the cheapest entry off the frontier. Between two steps of a
    /// search there always is one, and its cell lies on a shortest way from
    /// the start to the goal, at its true distance from the start.
    fn take_cheapest(&mut self, grid: &Grid, start: Coordinate, goal: Coordinate) -> (popped: Option<State>)
        requires
            grid.wf(),
            old(self).inv(grid.size(), start, goal, None),
        ensures
            popped.is_some(),
            final(self).inv(grid.size(), start, goal, Some(popped.unwrap().position)),
            grid.in_bounds(popped.unwrap().position),
            final(self).g(popped.unwrap().position) == Some(manhattan(start, popped.unwrap().position) as usize),
            manhattan(start, popped.unwrap().position) + manhattan(popped.unwrap().position, goal) == manhattan(
                start,
                goal,
            ),
            final(self).potential(grid.size()) < old(self).potential(grid.size()),
    {
        let ghost before: Search = *self;
        proof {
            lemma_cheap_entry_waits(before, grid.size(), start, goal);
        }
        let popped: Option<State> = self.open_set.pop();
        proof {
            let i = choose|i: int|
                {
                    &&& is_first_cheapest(before.entries(), i)
                    &&& popped == Some(before.entries()[i])
                    &&& self.entries() == before.entries().remove(i)
                };
            lemma_pop_cheapest(before, *self, grid.size(), start, goal, i);
        }
        popped
    }
}

impl Search {
    /// Expands `current`: relaxes each of its neighbours in turn. Afterwards
    /// `current` is closed.
    fn expand(&mut self, grid: &Grid, start: Coordinate, goal: Coordinate, current: Coordinate)
        requires
            grid.wf(),
            old(self).inv(grid.size(), start, goal, Some(current)),
            grid.in_bounds(current),
            current != goal,
            old(self).g(current) == Some(manhattan(start, current) as usize),
            manhattan(start, current) + manhattan(current, goal) == manhattan(start, goal),
        ensures
            final(self).inv(grid.size(), start, goal, None),
            final(self).potential(grid.size()) <= old(self).potential(grid.size()),
    {
        let ghost n: nat = grid.size();
        let ghost initial: Search = *self;
        let neighbors: Vec<Coordinate> = grid.neighbors(current);
        let mut i: usize = 0;
        while i < neighbors.len()
            invariant
                grid.wf(),
                n == grid.size(),
                neighbors@ == grid.neighbors_of(current),
                i <= neighbors.len(),
                grid.in_bounds(current),
                self.inv(n, start, goal, Some(current)),
                self.g(current) == Some(manhattan(start, current) as usize),
                manhattan(start, current) + manhattan(current, goal) == manhattan(start, goal),
                forall|j: int| 0 <= j < i ==> self.settled_toward(current, #[trigger] neighbors@[j]),
                self.potential(n) <= initial.potential(n),
            decreases neighbors.len() - i,
        {
            let neighbor: Coordinate = neighbors[i];
            let ghost before: Search = *self;
            proof {
                assert(neighbors@.contains(neighbor));
                lemma_neighbors_are_adjacent_cells(*grid, current, neighbor);
            }
            self.relax(grid, start, goal, current, neighbor);
            proof {
                assert forall|j: int| 0 <= j < i + 1 implies self.settled_toward(
                    current,
                    #[trigger] neighbors@[j],
                ) by {
                    if j < i {
                        let earlier = neighbors@[j];
                        assert(neighbors@.contains(earlier));
                        lemma_neighbors_are_adjacent_cells(*grid, current, earlier);
                        assert(before.settled_toward(current, earlier));
                        assert(no_worse(before.g(earlier), self.g(earlier)));
                    }
                }
            }
            i += 1;
        }
        proof {
            assert forall|nb: Coordinate| in_table(n, nb) && adjacent(current, nb) implies #[trigger] self.settled_toward(
                current,
                nb,
            ) by {
                lemma_neighbors_are_adjacent_cells(*grid, current, nb);
                let j = choose|j: int| 0 <= j < neighbors@.len() && neighbors@[j] == nb;
                assert(self.settled_toward(current, neighbors@[j]));
            }
            assert(self.closed(n, current));
            assert forall|c: Coordinate|
                in_table(n, c) && self.g(c).is_some() && Some(c) != None::<Coordinate> implies #[trigger] self.covered_at(
                n,
                goal,
                c,
            ) by {}
        }
    }
}

/// Why a route could not be planned.
#[derive(Clone, Copy, Debug, PartialEq, Eq)]
pub enum PathError {
    /// The start or the goal is not a cell of the grid.
    InvalidCoordinate,
}

/// Finds a cheapest route from `start` to `goal`, both cells of `grid`.
///
/// The route begins at `start`, ends at `goal`, moves one orthogonal step
/// at a time, and has as many steps as the Manhattan distance between the
/// two cells: no route is cheaper. Where several routes are that cheap, the
/// contract does not say which of them is returned. On a grid in use a route
/// always exists, so the result is never `None`.
pub fn find_path(grid: &Grid, start: Coordinate, goal: Coordinate) -> (found: Option<Vec<Coordinate>>)
    requires
        grid.wf(),
        grid.in_bounds(start),
        grid.in_bounds(goal),
    ensures
        found.is_some(),
        is_shortest_route(*grid, found.unwrap()@, start, goal),
        start == goal ==> found.unwrap()@ == seq![start],
{
    let ghost n: nat = grid.size();
    let mut search: Search = Search::begin(grid, start, goal);
    loop
        invariant
            grid.wf(),
            n == grid.size(),
            search.inv(n, start, goal, None),
        decreases search.potential(n),
    {
        match search.take_cheapest(grid, start, goal) {
            None => {
                return None;
            },
            Some(state) => {
                let position: Coordinate = state.position;
                if position.0 == goal.0 && position.1 == goal.1 {
                    let ghost steps: nat = lemma_predecessors_lead_to_start(search, n, start, goal);
                    let route: Vec<Coordinate> = reconstruct_path(&search.came_from, position);
                    proof {
                        let back = trace(search.came_from@, goal, steps);
                        assert(route@ == back.reverse());
                        assert forall|i: int| 0 <= i < route@.len() implies grid.in_bounds(#[trigger] route@[i]) by {
                            assert(route@[i] == back[steps - i]);
                        }
                        assert forall|i: int| 0 <= i < route@.len() - 1 implies adjacent(
                            #[trigger] route@[i],
                            route@[i + 1],
                        ) by {
                            assert(route@[i] == back[steps - i]);
                            assert(route@[i + 1] == back[steps - i - 1]);
                            assert(adjacent(back[steps - i - 1], back[steps - i - 1 + 1]));
                            lemma_step_changes_manhattan(back[steps - i - 1], back[steps - i], back[steps - i]);
                        }
                        assert(route@[0] == back[steps as int]);
                        assert(route@[route@.len() - 1] == back[0]);
                        lemma_walk_at_least_manhattan(route@);
                        if start == goal {
                            assert(route@ =~= seq![start]);
                        }
                    }
                    return Some(route);
                }
                search.expand(grid, start, goal, position);
            },
        }
    }
}

/// Plans a route between two coordinates that have not been checked yet:
/// refuses a start or a goal outside the grid, and otherwise searches.
pub fn checked_find_path(grid: &Grid, start: Coordinate, goal: Coordinate) -> (planned: Result<
    Option<Vec<Coordinate>>,
    PathError,
>)
    requires
        grid.wf(),
    ensures
        !(grid.in_bounds(start) && grid.in_bounds(goal)) ==> planned == Err::<Option<Vec<Coordinate>>, PathError>(
            PathError::InvalidCoordinate,
        ),
        grid.in_bounds(start) && grid.in_bounds(goal) ==> {
            &&& planned.is_ok()
            &&& planned.unwrap().is_some()
            &&& is_shortest_route(*grid, planned.unwrap().unwrap()@, start, goal)
            &&& start == goal ==> planned.unwrap().unwrap()@ == seq![start]
        },
{
    if !grid.contains(start) || !grid.contains(goal) {
        return Err(PathError::InvalidCoordinate);
    }
    Ok(find_path(grid, start, goal))
}

/// A shortest route is as cheap as any route between the same two cells.
pub proof fn lemma_shortest_route_is_cheapest(
    grid: Grid,
    shortest: Seq<Coordinate>,
    other: Seq<Coordinate>,
    start: Coordinate,
    goal: Coordinate,
)
    requires
        is_shortest_route(grid, shortest, start, goal),
        is_route(grid, other, start, goal),
    ensures
        route_cost(shortest) <= route_cost(other),
{
    lemma_walk_at_least_manhattan(other);
}

/// Two searches between the same cells may return different routes, but
/// never routes of different cost.
pub proof fn lemma_shortest_routes_cost_the_same(
    grid: Grid,
    first: Seq<Coordinate>,
    second: Seq<Coordinate>,
    start: Coordinate,
    goal: Coordinate,
)
    requires
        is_shortest_route(grid, first, start, goal),
        is_shortest_route(grid, second, start, goal),
    ensures
        route_cost(first) == route_cost(second),
        first.len() == second.len(),
{
}

/// A route from a cell to itself that is as cheap as can be is that cell
/// alone.
pub proof fn lemma_shortest_route_to_itself(grid: Grid, route: Seq<Coordinate>, start: Coordinate)
    requires
        is_shortest_route(grid, route, start, start),
    ensures
        route == seq![start],
{
    assert(route =~= seq![start]);
}

} // verus!
