//! The occupancy grid: a square surface of cells, the four-connected
//! neighbourhood of a cell, and the two distances the planner works with.

use vstd::prelude::*;

verus! {

/// A cell of the grid, as `(row, column)`.
pub type Coordinate = (usize, usize);

/// The distance between two numbers on a line.
pub open spec fn gap(a: int, b: int) -> nat {
    if a >= b {
        (a - b) as nat
    } else {
        (b - a) as nat
    }
}

/// Manhattan distance: the number of orthogonal unit steps between two cells.
pub open spec fn manhattan(a: Coordinate, b: Coordinate) -> nat {
    gap(a.0 as int, b.0 as int) + gap(a.1 as int, b.1 as int)
}

/// The square of the Euclidean distance between two cells.
pub open spec fn squared_distance(a: Coordinate, b: Coordinate) -> nat {
    gap(a.0 as int, b.0 as int) * gap(a.0 as int, b.0 as int) + gap(a.1 as int, b.1 as int) * gap(
        a.1 as int,
        b.1 as int,
    )
}

/// Two cells are adjacent when they are one orthogonal step apart.
pub open spec fn adjacent(a: Coordinate, b: Coordinate) -> bool {
    manhattan(a, b) == 1
}

/// `root` is the square root of `square`.
pub open spec fn is_root(root: nat, square: nat) -> bool {
    root * root == square
}

/// A square occupancy grid. Every cell carries a marker that says whether it
/// is blocked; a grid in use has no blocked cell.
#[derive(Debug)]
pub struct Grid {
    cells: Vec<Vec<bool>>,
}

impl Grid {
    /// The number of rows, which is also the number of columns.
    pub closed spec fn size(&self) -> nat {
        self.cells.len() as nat
    }

    /// Every row is as long as the grid is high.
    pub closed spec fn is_square(&self) -> bool {
        forall|r: int| 0 <= r < self.cells.len() ==> (#[trigger] self.cells[r]).len() == self.cells.len()
    }

    /// Whether the marker of cell `c` says that it is blocked. Cells outside
    /// the grid count as blocked.
    pub closed spec fn blocked(&self, c: Coordinate) -> bool {
        c.0 < self.cells.len() && c.1 < self.cells[c.0 as int].len() ==> self.cells[c.0 as int][c.1 as int]
    }

    /// Whether `c` names a cell of this grid.
    pub open spec fn in_bounds(&self, c: Coordinate) -> bool {
        c.0 < self.size() && c.1 < self.size()
    }

    /// A grid in use: square, with at least one cell, small enough that every
    /// route cost fits in a `usize`, and without blocked cells.
    pub open spec fn wf(&self) -> bool {
        &&& self.is_square()
        &&& 1 <= self.size()
        &&& 2 * self.size() <= usize::MAX
        &&& forall|c: Coordinate| self.in_bounds(c) ==> !#[trigger] self.blocked(c)
    }

    /// The cell one row up from `c`, if there is one and it is free.
    pub open spec fn up(&self, c: Coordinate) -> Seq<Coordinate> {
        if c.0 > 0 && !self.blocked(((c.0 - 1) as usize, c.1)) {
            seq![((c.0 - 1) as usize, c.1)]
        } else {
            seq![]
        }
    }

    /// The cell one row down from `c`, if there is one and it is free.
    pub open spec fn down(&self, c: Coordinate) -> Seq<Coordinate> {
        if c.0 + 1 < self.size() && !self.blocked(((c.0 + 1) as usize, c.1)) {
            seq![((c.0 + 1) as usize, c.1)]
        } else {
            seq![]
        }
    }

    /// The cell one column left of `c`, if there is one and it is free.
    pub open spec fn left(&self, c: Coordinate) -> Seq<Coordinate> {
        if c.1 > 0 && !self.blocked((c.0, (c.1 - 1) as usize)) {
            seq![(c.0, (c.1 - 1) as usize)]
        } else {
            seq![]
        }
    }

    /// The cell one column right of `c`, if there is one and it is free.
    pub open spec fn right(&self, c: Coordinate) -> Seq<Coordinate> {
        if c.1 + 1 < self.size() && !self.blocked((c.0, (c.1 + 1) as usize)) {
            seq![(c.0, (c.1 + 1) as usize)]
        } else {
            seq![]
        }
    }

    /// The free orthogonal neighbours of `c` inside the grid, in the order
    /// up, down, left, right.
    pub open spec fn neighbors_of(&self, c: Coordinate) -> Seq<Coordinate> {
        self.up(c) + self.down(c) + self.left(c) + self.right(c)
    }

    /// An open grid of `size` rows and `size` columns.
    pub fn new(size: usize) -> (grid: Grid)
        requires
            1 <= size,
            2 * size <= usize::MAX,
        ensures
            grid.wf(),
            grid.size() == size,
    {
        let row: Vec<bool> = vec![false; size];
        Grid { cells: vec![row; size] }
    }

    /// The number of rows and of columns.
    pub fn side(&self) -> (n: usize)
        ensures
            n == self.size(),
    {
        self.cells.len()
    }

    /// Whether `c` lies inside the grid.
    pub fn contains(&self, c: Coordinate) -> (inside: bool)
        ensures
            inside == self.in_bounds(c),
    {
        c.0 < self.cells.len() && c.1 < self.cells.len()
    }

    /// Reads the marker of cell `c`: whether it is blocked. On a grid in use no cell is.
    pub fn is_blocked(&self, c: Coordinate) -> (b: bool)
        requires
            self.is_square(),
            self.in_bounds(c),
        ensures
            b == self.blocked(c),
            self.wf() ==> !b,
    {
        self.cells[c.0][c.1]
    }

    /// The free orthogonal neighbours of `c`: at most four cells, in the
    /// order up, down, left, right. No diagonal cell is among them.
    pub fn neighbors(&self, c: Coordinate) -> (cells: Vec<Coordinate>)
        requires
            self.wf(),
            self.in_bounds(c),
        ensures
            cells@ == self.neighbors_of(c),
    {
        let n: usize = self.cells.len();
        let mut cells: Vec<Coordinate> = Vec::new();
        if c.0 > 0 && !self.is_blocked((c.0 - 1, c.1)) {
            cells.push((c.0 - 1, c.1));
        }
        assert(cells@ =~= self.up(c));
        if c.0 < n - 1 && !self.is_blocked((c.0 + 1, c.1)) {
            cells.push((c.0 + 1, c.1));
        }
        assert(cells@ =~= self.up(c) + self.down(c));
        if c.1 > 0 && !self.is_blocked((c.0, c.1 - 1)) {
            cells.push((c.0, c.1 - 1));
        }
        assert(cells@ =~= self.up(c) + self.down(c) + self.left(c));
        if c.1 < n - 1 && !self.is_blocked((c.0, c.1 + 1)) {
            cells.push((c.0, c.1 + 1));
        }
        assert(cells@ =~= self.neighbors_of(c));
        cells
    }

    /// The Manhattan distance between two cells of the grid: the planner's
    /// estimate of the cost still to go.
    pub fn heuristic(&self, a: Coordinate, b: Coordinate) -> (h: usize)
        requires
            self.wf(),
            self.in_bounds(a),
            self.in_bounds(b),
        ensures
            h == manhattan(a, b),
    {
        let rows: usize = if a.0 >= b.0 { a.0 - b.0 } else { b.0 - a.0 };
        let cols: usize = if a.1 >= b.1 { a.1 - b.1 } else { b.1 - a.1 };
        rows + cols
    }

    /// The square of the Euclidean distance between two cells of the grid.
    pub fn distance_squared(&self, a: Coordinate, b: Coordinate) -> (square: u128)
        requires
            self.wf(),
            self.in_bounds(a),
            self.in_bounds(b),
        ensures
            square == squared_distance(a, b),
    {
        let rows: u128 = (if a.0 >= b.0 { a.0 - b.0 } else { b.0 - a.0 }) as u128;
        let cols: u128 = (if a.1 >= b.1 { a.1 - b.1 } else { b.1 - a.1 }) as u128;
        assert(rows * rows <= 0x7fff_ffff_ffff_ffff * 0x7fff_ffff_ffff_ffff) by (nonlinear_arith)
            requires
                rows <= 0x7fff_ffff_ffff_ffff,
        ;
        assert(cols * cols <= 0x7fff_ffff_ffff_ffff * 0x7fff_ffff_ffff_ffff) by (nonlinear_arith)
            requires
                cols <= 0x7fff_ffff_ffff_ffff,
        ;
        rows * rows + cols * cols
    }

    /// The Euclidean distance between two cells of the grid, where it is a
    /// whole number of cells, as it is between a cell and each of its
    /// neighbours; `None` where it is not, as between (0, 0) and (1, 1).
    /// The distance is one exactly between adjacent cells.
    pub fn distance(&self, a: Coordinate, b: Coordinate) -> (d: Option<usize>)
        requires
            self.wf(),
            self.in_bounds(a),
            self.in_bounds(b),
        ensures
            d.is_some() <==> exists|root: nat| is_root(root, squared_distance(a, b)),
            d.is_some() ==> is_root(d.unwrap() as nat, squared_distance(a, b)),
            d == Some(1usize) <==> adjacent(a, b),
    {
        let square: u128 = self.distance_squared(a, b);
        let steps: usize = self.heuristic(a, b);
        let mut low: u128 = 0;
        let mut high: u128 = steps as u128;
        proof {
            lemma_square_below_square_of_sum(gap(a.0 as int, b.0 as int), gap(a.1 as int, b.1 as int));
        }
        while low < high
            invariant
                low <= high <= steps,
                low * low <= square,
                square < (high + 1) * (high + 1),
            decreases high - low,
        {
            let mid: u128 = low + (high - low + 1) / 2;
            assert(mid * mid <= 0xffff_ffff_ffff_ffff * 0xffff_ffff_ffff_ffff) by (nonlinear_arith)
                requires
                    mid <= 0xffff_ffff_ffff_ffff,
            ;
            if mid * mid <= square {
                low = mid;
            } else {
                high = mid - 1;
            }
        }
        proof {
            lemma_adjacent_distance(a, b, low as nat);
        }
        if low * low == square {
            assert(is_root(low as nat, squared_distance(a, b)));
            Some(low as usize)
        } else {
            proof {
                lemma_no_root_between(low as nat, square as nat);
                assert(!is_root(1, squared_distance(a, b)));
            }
            None
        }
    }
}

/// The sum of two squares lies below the square of the sum plus one.
proof fn lemma_square_below_square_of_sum(x: nat, y: nat)
    ensures
        x * x + y * y < (x + y + 1) * (x + y + 1),
{
    assert(x * x + y * y < (x + y + 1) * (x + y + 1)) by (nonlinear_arith);
}

/// A number that lies strictly between two neighbouring squares has no
/// whole root.
proof fn lemma_no_root_between(low: nat, square: nat)
    requires
        low * low < square < (low + 1) * (low + 1),
    ensures
        forall|root: nat| !is_root(root, square),
{
    assert forall|root: nat| !is_root(root, square) by {
        if root <= low {
            assert(root * root <= low * low) by (nonlinear_arith)
                requires
                    root <= low,
            ;
        } else {
            assert(root * root >= (low + 1) * (low + 1)) by (nonlinear_arith)
                requires
                    root >= low + 1,
            ;
        }
    }
}

/// Two cells are adjacent exactly when their Euclidean distance is one.
pub proof fn lemma_adjacent_distance(a: Coordinate, b: Coordinate, d: nat)
    ensures
        adjacent(a, b) <==> squared_distance(a, b) == 1,
        is_root(d, squared_distance(a, b)) ==> (d == 1 <==> adjacent(a, b)),
{
    let x = gap(a.0 as int, b.0 as int);
    let y = gap(a.1 as int, b.1 as int);
    assert(x + y == 1 <==> x * x + y * y == 1) by (nonlinear_arith);
    assert(d * d == 1 ==> d == 1) by (nonlinear_arith);
}

/// On a grid in use, the neighbours of a cell are exactly the cells of the
/// grid that are adjacent to it.
pub proof fn lemma_neighbors_are_adjacent_cells(grid: Grid, c: Coordinate, n: Coordinate)
    requires
        grid.wf(),
        grid.in_bounds(c),
    ensures
        grid.neighbors_of(c).contains(n) <==> grid.in_bounds(n) && adjacent(c, n),
{
    let up = grid.up(c);
    let down = grid.down(c);
    let left = grid.left(c);
    let right = grid.right(c);
    let all = grid.neighbors_of(c);
    if grid.in_bounds(n) && adjacent(c, n) {
        assert(!grid.blocked(n));
        if n.0 + 1 == c.0 {
            assert(up[0] == n);
            assert(all[0] == n);
        } else if n.0 == c.0 + 1 {
            assert(down[0] == n);
            assert(all[up.len() as int] == n);
        } else if n.1 + 1 == c.1 {
            assert(left[0] == n);
            assert(all[(up.len() + down.len()) as int] == n);
        } else {
            assert(right[0] == n);
            assert(all[(up.len() + down.len() + left.len()) as int] == n);
        }
    }
    if all.contains(n) {
        let i = choose|i: int| 0 <= i < all.len() && all[i] == n;
        assert(all[i] == n);
    }
}

} // verus!
