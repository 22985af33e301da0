use spatial_hashing::grid::{Cell, Coordinate, Grid};
use spatial_hashing::query::{Query, SquareQuery};

fn walk(query: &SquareQuery, grid: Grid) -> Vec<Cell> {
    let mut cells = vec![query.first_cell(grid)];
    let mut cell = cells[0];
    while let Some(next) = query.next_cell(cell, grid) {
        cells.push(next);
        cell = next;
    }
    cells
}

#[test]
fn in_range_keeps_the_lower_edges_and_drops_the_upper_ones() {
    let query = SquareQuery::new(Coordinate { x: 10, y: -10 }, 5);
    assert!(query.in_range(Coordinate { x: 10, y: -10 }));
    assert!(query.in_range(Coordinate { x: 5, y: -15 }));
    assert!(query.in_range(Coordinate { x: 14, y: -6 }));
    assert!(!query.in_range(Coordinate { x: 15, y: -10 }));
    assert!(!query.in_range(Coordinate { x: 10, y: -5 }));
    assert!(!query.in_range(Coordinate { x: 4, y: -10 }));
    assert!(!query.in_range(Coordinate { x: 10, y: -16 }));
}

#[test]
fn in_range_of_an_empty_square_is_never_true() {
    let none = SquareQuery::new(Coordinate { x: 0, y: 0 }, 0);
    assert!(!none.in_range(Coordinate { x: 0, y: 0 }));
    let inverted = SquareQuery::new(Coordinate { x: 0, y: 0 }, -3);
    assert!(!inverted.in_range(Coordinate { x: 0, y: 0 }));
    assert!(!inverted.in_range(Coordinate { x: -3, y: -3 }));
    assert!(!inverted.in_range(Coordinate { x: 2, y: 2 }));
}

#[test]
fn in_range_at_the_ends_of_the_ordinates() {
    let query = SquareQuery::new(Coordinate { x: i32::MAX, y: i32::MIN }, i32::MAX);
    assert!(query.in_range(Coordinate { x: i32::MAX, y: i32::MIN }));
    assert!(query.in_range(Coordinate { x: 0, y: -2 }));
    assert!(!query.in_range(Coordinate { x: -1, y: i32::MIN }));
    assert!(!query.in_range(Coordinate { x: i32::MAX, y: -1 }));
}

#[test]
fn first_cell_holds_the_least_corner() {
    let grid = Grid { spacing: 10 };
    let query = SquareQuery::new(Coordinate { x: 5, y: 5 }, 1);
    assert_eq!(query.first_cell(grid), Cell { x: 0, y: 0 });
    let wide = SquareQuery::new(Coordinate { x: 0, y: 0 }, 2000);
    assert_eq!(wide.first_cell(grid), Cell { x: -200, y: -200 });
    let across = SquareQuery::new(Coordinate { x: 3, y: 12 }, 4);
    assert_eq!(across.first_cell(grid), Cell { x: -1, y: 0 });
}

#[test]
fn first_cell_may_lie_beyond_the_cells_that_hold_points() {
    let grid = Grid { spacing: 1 };
    let query = SquareQuery::new(Coordinate { x: i32::MIN, y: i32::MIN }, 5);
    assert_eq!(
        query.first_cell(grid),
        Cell { x: i32::MIN as i64 - 5, y: i32::MIN as i64 - 5 }
    );
}

#[test]
fn next_cell_walks_row_by_row() {
    let grid = Grid { spacing: 10 };
    let query = SquareQuery::new(Coordinate { x: 0, y: 0 }, 15);
    let cells = walk(&query, grid);
    let mut expected = Vec::new();
    for y in -2..=1 {
        for x in -2..=1 {
            expected.push(Cell { x, y });
        }
    }
    assert_eq!(cells, expected);
}

#[test]
fn next_cell_visits_a_cell_that_starts_on_the_upper_bound() {
    let grid = Grid { spacing: 10 };
    let query = SquareQuery::new(Coordinate { x: 5, y: 5 }, 5);
    assert_eq!(
        walk(&query, grid),
        vec![
            Cell { x: 0, y: 0 },
            Cell { x: 1, y: 0 },
            Cell { x: 0, y: 1 },
            Cell { x: 1, y: 1 },
        ]
    );
}

#[test]
fn next_cell_ends_after_a_single_cell() {
    let grid = Grid { spacing: 10 };
    let query = SquareQuery::new(Coordinate { x: 5, y: 5 }, 1);
    assert_eq!(query.next_cell(Cell { x: 0, y: 0 }, grid), None);
    assert_eq!(walk(&query, grid), vec![Cell { x: 0, y: 0 }]);
}

#[test]
fn next_cell_steps_one_along_or_starts_the_next_row() {
    let grid = Grid { spacing: 10 };
    let query = SquareQuery::new(Coordinate { x: 0, y: 0 }, 15);
    assert_eq!(query.next_cell(Cell { x: -2, y: -2 }, grid), Some(Cell { x: -1, y: -2 }));
    assert_eq!(query.next_cell(Cell { x: 1, y: -2 }, grid), Some(Cell { x: -2, y: -1 }));
    assert_eq!(query.next_cell(Cell { x: 1, y: 1 }, grid), None);
    assert_eq!(query.next_cell(Cell { x: 0, y: 2 }, grid), None);
    assert_eq!(query.next_cell(Cell { x: 40, y: 0 }, grid), Some(Cell { x: -2, y: 1 }));
    assert_eq!(query.next_cell(Cell { x: -40, y: 0 }, grid), Some(Cell { x: -39, y: 0 }));
}

#[test]
fn next_cell_from_the_last_cell_there_is() {
    let grid = Grid { spacing: 1 };
    let query = SquareQuery::new(Coordinate { x: 0, y: 0 }, 3);
    assert_eq!(query.next_cell(Cell { x: i64::MAX, y: i64::MAX }, grid), None);
    assert_eq!(query.next_cell(Cell { x: i64::MAX, y: 0 }, grid), Some(Cell { x: -3, y: 1 }));
    assert_eq!(query.next_cell(Cell { x: i64::MIN, y: i64::MIN }, grid), Some(Cell {
        x: i64::MIN + 1,
        y: i64::MIN,
    }));
}

#[test]
fn walk_of_an_inverted_square_ends_at_once() {
    let grid = Grid { spacing: 10 };
    let query = SquareQuery::new(Coordinate { x: 0, y: 0 }, -25);
    assert_eq!(query.first_cell(grid), Cell { x: 2, y: 2 });
    assert_eq!(query.next_cell(Cell { x: 2, y: 2 }, grid), None);
}

#[test]
fn walk_comes_by_the_cell_of_every_point_in_range() {
    let grid = Grid { spacing: 7 };
    let query = SquareQuery::new(Coordinate { x: -4, y: 9 }, 20);
    let cells = walk(&query, grid);
    for x in -30..30 {
        for y in -20..40 {
            let position = Coordinate { x, y };
            if query.in_range(position) {
                assert!(cells.contains(&grid.index2d(position)));
            }
        }
    }
    let mut seen = cells.clone();
    seen.dedup();
    assert_eq!(seen.len(), cells.len());
    assert_eq!(cells.len(), 7 * 7);
}
