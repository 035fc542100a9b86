//! Square tables with one entry per grid cell, as the planner keeps them.

use crate::grid::Coordinate;
use vstd::prelude::*;

verus! {

/// `rows` has `n` rows of `n` entries each.
pub open spec fn is_table<T>(rows: Seq<Vec<T>>, n: nat) -> bool {
    &&& rows.len() == n
    &&& forall|r: int| 0 <= r < n ==> (#[trigger] rows[r]).len() == n
}

/// `c` names an entry of a table of `n` rows and columns.
pub open spec fn in_table(n: nat, c: Coordinate) -> bool {
    c.0 < n && c.1 < n
}

/// The entry of `rows` for cell `c`.
pub open spec fn cell<T>(rows: Seq<Vec<T>>, c: Coordinate) -> T {
    rows[c.0 as int][c.1 as int]
}

/// A table of `n` rows and columns that holds `value` everywhere.
pub fn filled<T: Copy>(n: usize, value: T) -> (rows: Vec<Vec<T>>)
    ensures
        is_table(rows@, n as nat),
        forall|c: Coordinate| in_table(n as nat, c) ==> #[trigger] cell(rows@, c) == value,
{
    let mut rows: Vec<Vec<T>> = Vec::new();
    let mut r: usize = 0;
    while r < n
        invariant
            r <= n,
            rows.len() == r,
            forall|i: int| 0 <= i < r ==> (#[trigger] rows[i]).len() == n,
            forall|i: int, j: int| 0 <= i < r && 0 <= j < n ==> rows[i][j] == value,
        decreases n - r,
    {
        let mut row: Vec<T> = Vec::new();
        let mut k: usize = 0;
        while k < n
            invariant
                k <= n,
                row.len() == k,
                forall|j: int| 0 <= j < k ==> row[j] == value,
            decreases n - k,
        {
            row.push(value);
            k += 1;
        }
        rows.push(row);
        r += 1;
    }
    assert forall|c: Coordinate| in_table(n as nat, c) implies #[trigger] cell(rows@, c) == value by {
        assert(rows[c.0 as int][c.1 as int] == value);
    }
    rows
}

/// Reads the entry for cell `c`.
pub fn load<T: Copy>(rows: &Vec<Vec<T>>, c: Coordinate) -> (value: T)
    requires
        c.0 < rows.len(),
        c.1 < rows[c.0 as int].len(),
    ensures
        value == cell(rows@, c),
{
    rows[c.0][c.1]
}

/// Writes `value` into the entry for cell `c` and leaves every other entry
/// as it was.
pub fn store<T>(rows: &mut Vec<Vec<T>>, c: Coordinate, value: T)
    requires
        c.0 < old(rows).len(),
        c.1 < old(rows)[c.0 as int].len(),
    ensures
        final(rows).len() == old(rows).len(),
        forall|r: int| 0 <= r < old(rows).len() && r != c.0 ==> final(rows)[r] == old(rows)[r],
        final(rows)[c.0 as int]@ == old(rows)[c.0 as int]@.update(c.1 as int, value),
{
    rows[c.0][c.1] = value;
}

/// What `store` means cell by cell, on a square table.
pub proof fn lemma_store_cells<T>(before: Seq<Vec<T>>, after: Seq<Vec<T>>, n: nat, c: Coordinate, value: T)
    requires
        is_table(before, n),
        in_table(n, c),
        after.len() == before.len(),
        forall|r: int| 0 <= r < before.len() && r != c.0 ==> after[r] == before[r],
        after[c.0 as int]@ == before[c.0 as int]@.update(c.1 as int, value),
    ensures
        is_table(after, n),
        cell(after, c) == value,
        forall|other: Coordinate| in_table(n, other) && other != c ==> #[trigger] cell(after, other) == cell(before, other),
{
    assert forall|r: int| 0 <= r < n implies (#[trigger] after[r]).len() == n by {
        if r != c.0 {
            assert(after[r] == before[r]);
        }
    }
    assert forall|other: Coordinate| in_table(n, other) && other != c implies #[trigger] cell(after, other) == cell(
        before,
        other,
    ) by {
        if other.0 != c.0 {
            assert(after[other.0 as int] == before[other.0 as int]);
        }
    }
}

} // verus!
