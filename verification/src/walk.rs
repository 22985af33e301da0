//! What a walk through the cells of a query yields, and in which order.

use vstd::prelude::*;
use crate::grid::{Cell, Coordinate, Grid};
use crate::query::{scan_cell, Query};

verus! {

/// Those of `entries` whose position the region of `query` holds, in order.
pub open spec fn matching<Q: Query>(query: &Q, entries: Seq<(u64, Coordinate)>) -> Seq<
    (u64, Coordinate),
>
    decreases entries.len(),
{
    if entries.len() == 0 {
        Seq::empty()
    } else if query.spec_in_range(entries[0].1) {
        seq![entries[0]] + matching(query, entries.drop_first())
    } else {
        matching(query, entries.drop_first())
    }
}

/// What a walk that stands at `cell` yields from the cells that follow, where
/// `entries` gives the entries filed under a cell: cell after cell in the
/// order of the walk, and of each cell the entries that the region holds.
pub open spec fn walk_after<Q: Query>(
    query: &Q,
    grid: Grid,
    entries: spec_fn(Cell) -> Seq<(u64, Coordinate)>,
    cell: Cell,
) -> Seq<(u64, Coordinate)>
    decreases query.cells_left(cell, grid),
    when grid.wf()
{
    match query.spec_next_cell(cell, grid) {
        None => Seq::empty(),
        Some(next) => {
            proof {
                query.lemma_walk_advances(cell, grid);
            }
            matching(query, entries(next)) + walk_after(query, grid, entries, next)
        },
    }
}

/// What a whole walk yields: what the region holds of the first cell, then of
/// the cells that follow.
pub open spec fn walk<Q: Query>(
    query: &Q,
    grid: Grid,
    entries: spec_fn(Cell) -> Seq<(u64, Coordinate)>,
) -> Seq<(u64, Coordinate)> {
    matching(query, entries(query.spec_first_cell(grid))) + walk_after(
        query,
        grid,
        entries,
        query.spec_first_cell(grid),
    )
}

/// Under every cell each entry is filed once, and only entries whose position
/// lies in the cell.
pub open spec fn filed_in_cells(
    entries: spec_fn(Cell) -> Seq<(u64, Coordinate)>,
    grid: Grid,
) -> bool {
    forall|cell: Cell|
        {
            &&& (#[trigger] entries(cell)).no_duplicates()
            &&& forall|found: (u64, Coordinate)| #[trigger]
                entries(cell).contains(found) ==> grid.cell_of(found.1) == cell
        }
}

/// Two sequences laid end to end hold what either of them holds.
proof fn lemma_concat_contains<A>(left: Seq<A>, right: Seq<A>)
    ensures
        forall|item: A|
            #![trigger (left + right).contains(item)]
            #![trigger left.contains(item)]
            #![trigger right.contains(item)]
            (left + right).contains(item) <==> left.contains(item) || right.contains(item),
{
    let both = left + right;
    assert forall|item: A|
        both.contains(item) <==> left.contains(item) || right.contains(item) by {
        if both.contains(item) {
            let i = choose|i: int| 0 <= i < both.len() && both[i] == item;
            if i < left.len() {
                assert(left[i] == item);
            } else {
                assert(right[i - left.len()] == item);
            }
        }
        if left.contains(item) {
            let i = choose|i: int| 0 <= i < left.len() && left[i] == item;
            assert(both[i] == item);
        }
        if right.contains(item) {
            let i = choose|i: int| 0 <= i < right.len() && right[i] == item;
            assert(both[left.len() + i] == item);
        }
    }
}

/// Two sequences without duplicates that share no item have no duplicates
/// when laid end to end.
proof fn lemma_concat_no_duplicates<A>(left: Seq<A>, right: Seq<A>)
    requires
        left.no_duplicates(),
        right.no_duplicates(),
        forall|item: A| !(left.contains(item) && right.contains(item)),
    ensures
        (left + right).no_duplicates(),
{
    assert forall|i: int, j: int|
        0 <= i < left.len() && 0 <= j < right.len() implies left[i] != right[j] by {
        assert(left.contains(left[i]));
        assert(right.contains(right[j]));
    }
    vstd::seq_lib::lemma_no_dup_in_concat(left, right);
}

/// `matching` keeps exactly the entries that the region holds, and brings in
/// no duplicates.
pub proof fn lemma_matching<Q: Query>(query: &Q, entries: Seq<(u64, Coordinate)>)
    ensures
        forall|found: (u64, Coordinate)| #[trigger]
            matching(query, entries).contains(found) <==> entries.contains(found)
                && query.spec_in_range(found.1),
        entries.no_duplicates() ==> matching(query, entries).no_duplicates(),
    decreases entries.len(),
{
    if entries.len() > 0 {
        let head = seq![entries[0]];
        let rest = entries.drop_first();
        let kept = matching(query, rest);
        lemma_matching(query, rest);
        assert(entries =~= head + rest);
        lemma_concat_contains(head, rest);
        lemma_concat_contains(head, kept);
        assert(head.contains(entries[0])) by {
            assert(head[0] == entries[0]);
        }
        if entries.no_duplicates() {
            assert(rest.no_duplicates()) by {
                assert forall|i: int, j: int|
                    0 <= i < rest.len() && 0 <= j < rest.len() && i != j implies rest[i]
                    != rest[j] by {
                    assert(entries[i + 1] != entries[j + 1]);
                }
            }
            assert(!rest.contains(entries[0])) by {
                if rest.contains(entries[0]) {
                    let i = choose|i: int| 0 <= i < rest.len() && rest[i] == entries[0];
                    assert(entries[i + 1] == entries[0]);
                }
            }
            if query.spec_in_range(entries[0].1) {
                lemma_concat_no_duplicates(head, kept);
            }
        }
    }
}

/// What the cells after `cell` yield lies in the region, is filed under the
/// cell of its position, and comes from a cell that the walk has yet to
/// reach; and nothing is yielded twice.
pub proof fn lemma_walk_after<Q: Query>(
    query: &Q,
    grid: Grid,
    entries: spec_fn(Cell) -> Seq<(u64, Coordinate)>,
    cell: Cell,
)
    requires
        grid.wf(),
        filed_in_cells(entries, grid),
    ensures
        forall|found: (u64, Coordinate)| #[trigger]
            walk_after(query, grid, entries, cell).contains(found) ==> {
                &&& query.spec_in_range(found.1)
                &&& entries(grid.cell_of(found.1)).contains(found)
                &&& query.cells_left(grid.cell_of(found.1), grid) < query.cells_left(cell, grid)
            },
        walk_after(query, grid, entries, cell).no_duplicates(),
    decreases query.cells_left(cell, grid),
{
    match query.spec_next_cell(cell, grid) {
        None => {},
        Some(next) => {
            let here = matching(query, entries(next));
            let later = walk_after(query, grid, entries, next);
            query.lemma_walk_advances(cell, grid);
            lemma_walk_after(query, grid, entries, next);
            lemma_matching(query, entries(next));
            lemma_concat_contains(here, later);
            lemma_concat_no_duplicates(here, later);
        },
    }
}

/// A walk keeps what lies ahead of it: whatever is to come after a cell that
/// the walk reaches from `start`, and what that cell itself holds if it is
/// not `start`, is to come after `start`.
proof fn lemma_walk_keeps_ahead<Q: Query>(
    query: &Q,
    grid: Grid,
    entries: spec_fn(Cell) -> Seq<(u64, Coordinate)>,
    start: Cell,
    count: nat,
    reached: Cell,
)
    requires
        grid.wf(),
        scan_cell(|cell: Cell| query.spec_next_cell(cell, grid), start, count) == Some(reached),
    ensures
        forall|found: (u64, Coordinate)| #[trigger]
            walk_after(query, grid, entries, reached).contains(found) ==> walk_after(
                query,
                grid,
                entries,
                start,
            ).contains(found),
        count > 0 ==> forall|found: (u64, Coordinate)| #[trigger]
            matching(query, entries(reached)).contains(found) ==> walk_after(
                query,
                grid,
                entries,
                start,
            ).contains(found),
    decreases count,
{
    if count > 0 {
        let step = |cell: Cell| query.spec_next_cell(cell, grid);
        let before = scan_cell(step, start, (count - 1) as nat).unwrap();
        let here = matching(query, entries(reached));
        let later = walk_after(query, grid, entries, reached);
        lemma_walk_keeps_ahead(query, grid, entries, start, (count - 1) as nat, before);
        assert(query.spec_next_cell(before, grid) == Some(reached));
        assert(walk_after(query, grid, entries, before) == here + later);
        lemma_concat_contains(here, later);
    }
}

/// A whole walk yields every entry that is filed under the cell of its
/// position, at a position that the region holds: each of them, each once,
/// and nothing else.
pub proof fn lemma_walk<Q: Query>(
    query: &Q,
    grid: Grid,
    entries: spec_fn(Cell) -> Seq<(u64, Coordinate)>,
)
    requires
        grid.wf(),
        filed_in_cells(entries, grid),
    ensures
        walk(query, grid, entries).no_duplicates(),
        forall|found: (u64, Coordinate)| #[trigger]
            walk(query, grid, entries).contains(found) <==> query.spec_in_range(found.1)
                && entries(grid.cell_of(found.1)).contains(found),
{
    let first = query.spec_first_cell(grid);
    let here = matching(query, entries(first));
    let later = walk_after(query, grid, entries, first);
    let step = |cell: Cell| query.spec_next_cell(cell, grid);
    lemma_matching(query, entries(first));
    lemma_walk_after(query, grid, entries, first);
    lemma_concat_contains(here, later);
    lemma_concat_no_duplicates(here, later);
    assert forall|found: (u64, Coordinate)| #[trigger]
        (here + later).contains(found) <==> query.spec_in_range(found.1) && entries(
            grid.cell_of(found.1),
        ).contains(found) by {
        let home = grid.cell_of(found.1);
        if query.spec_in_range(found.1) && entries(home).contains(found) {
            lemma_matching(query, entries(home));
            assert(matching(query, entries(home)).contains(found));
            query.lemma_walk_covers(found.1, grid);
            let count = choose|count: nat| scan_cell(step, first, count) == Some(home);
            if count > 0 {
                lemma_walk_keeps_ahead(query, grid, entries, first, count, home);
            }
        }
    }
}

} // verus!
