use spatial_hashing::bucket::Bucket;
use spatial_hashing::spatial_hashmap::{Coordinate, Grid, Query, SpatialHashmap, SquareQuery};

fn at(x: i32, y: i32) -> Coordinate {
    Coordinate { x, y }
}

fn found(map: &SpatialHashmap, center: Coordinate, radius: i32) -> Vec<(u64, Coordinate)> {
    let mut items = map.query(SquareQuery::new(center, radius)).collect();
    items.sort_by_key(|item| (item.0, item.1.x, item.1.y));
    items
}

#[test]
fn two_entities_far_apart() {
    let mut map = SpatialHashmap::new(10);
    map.insert(at(5, 5), 1);
    map.insert(at(-995, -495), 2);
    assert_eq!(found(&map, at(5, 5), 1), vec![(1, at(5, 5))]);
    assert_eq!(found(&map, at(0, 0), 2000), vec![(1, at(5, 5)), (2, at(-995, -495))]);
}

#[test]
fn new_keeps_the_spacing() {
    let map = SpatialHashmap::new(25);
    assert_eq!(map.grid.spacing, 25);
    assert_eq!(found(&map, at(0, 0), 1000), vec![]);
}

#[test]
fn wide_query_finds_every_entity_once() {
    let mut map = SpatialHashmap::new(16);
    let mut expected = Vec::new();
    let mut entity: u64 = 0;
    for x in -12..12 {
        for y in -7..7 {
            let position = at(x * 9 + 1, y * 13 - 2);
            map.insert(position, entity);
            expected.push((entity, position));
            entity += 1;
        }
    }
    let items = found(&map, at(0, 0), 500);
    assert_eq!(items.len(), 24 * 14);
    assert_eq!(items, expected);
}

#[test]
fn query_yields_only_what_is_in_range() {
    let mut map = SpatialHashmap::new(10);
    // All four lie in the cell from (0, 0) to (10, 10).
    map.insert(at(2, 2), 1);
    map.insert(at(4, 4), 2);
    map.insert(at(7, 7), 3);
    map.insert(at(8, 4), 4);
    let mut walk = map.query(SquareQuery::new(at(5, 5), 3));
    let query = SquareQuery::new(at(5, 5), 3);
    let mut entities = Vec::new();
    while let Some((entity, position)) = walk.next() {
        assert!(query.in_range(position));
        entities.push(entity);
    }
    entities.sort();
    assert_eq!(entities, vec![1, 2, 3]);
}

#[test]
fn query_leaves_out_the_upper_edges() {
    let mut map = SpatialHashmap::new(10);
    map.insert(at(0, 0), 1);
    map.insert(at(10, 0), 2);
    map.insert(at(0, 10), 3);
    map.insert(at(-10, -10), 4);
    map.insert(at(9, 9), 5);
    assert_eq!(
        found(&map, at(0, 0), 10),
        vec![(1, at(0, 0)), (4, at(-10, -10)), (5, at(9, 9))]
    );
}

#[test]
fn next_stays_at_none_once_the_walk_has_ended() {
    let mut map = SpatialHashmap::new(10);
    map.insert(at(1, 1), 7);
    let mut walk = map.query(SquareQuery::new(at(0, 0), 5));
    assert_eq!(walk.next(), Some((7, at(1, 1))));
    assert_eq!(walk.next(), None);
    assert_eq!(walk.next(), None);
    assert_eq!(walk.collect(), vec![]);
}

#[test]
fn collect_hands_out_what_next_has_left() {
    let mut map = SpatialHashmap::new(10);
    map.insert(at(1, 1), 1);
    map.insert(at(2, 2), 2);
    map.insert(at(13, 1), 3);
    let mut walk = map.query(SquareQuery::new(at(10, 0), 20));
    let first = walk.next().unwrap();
    let mut rest = walk.collect();
    assert_eq!(rest.len(), 2);
    assert!(!rest.contains(&first));
    rest.push(first);
    rest.sort_by_key(|item| item.0);
    assert_eq!(rest, vec![(1, at(1, 1)), (2, at(2, 2)), (3, at(13, 1))]);
}

#[test]
fn query_yields_cell_by_cell_in_the_order_of_the_walk() {
    let mut map = SpatialHashmap::new(10);
    map.insert(at(15, 5), 1);
    map.insert(at(5, 15), 2);
    map.insert(at(-5, -5), 3);
    map.insert(at(5, 5), 4);
    map.insert(at(15, 15), 5);
    let items = map.query(SquareQuery::new(at(5, 5), 15)).collect();
    assert_eq!(
        items,
        vec![(3, at(-5, -5)), (4, at(5, 5)), (1, at(15, 5)), (2, at(5, 15)), (5, at(15, 15))]
    );
}

#[test]
fn query_over_cells_without_a_bucket() {
    let mut map = SpatialHashmap::new(5);
    map.insert(at(100, 100), 1);
    assert_eq!(found(&map, at(0, 0), 50), vec![]);
    assert_eq!(found(&map, at(90, 90), 11), vec![(1, at(100, 100))]);
}

#[test]
fn update_across_a_cell_boundary() {
    let mut map = SpatialHashmap::new(10);
    map.insert(at(5, 5), 1);
    map.insert(at(6, 6), 2);
    map.update(1, at(5, 5), at(15, 5));
    // A query that stays within the old cell.
    assert_eq!(found(&map, at(5, 5), 5), vec![(2, at(6, 6))]);
    // A query that covers the new cell.
    assert_eq!(found(&map, at(15, 5), 5), vec![(1, at(15, 5))]);
    assert_eq!(found(&map, at(0, 0), 100), vec![(1, at(15, 5)), (2, at(6, 6))]);
}

#[test]
fn update_within_a_cell_overwrites_the_position() {
    let mut map = SpatialHashmap::new(10);
    map.insert(at(5, 5), 1);
    map.update(1, at(5, 5), at(7, 2));
    assert_eq!(found(&map, at(0, 0), 100), vec![(1, at(7, 2))]);
}

#[test]
fn update_of_an_entity_that_is_not_there_files_it() {
    let mut map = SpatialHashmap::new(10);
    map.update(9, at(-50, -50), at(3, 3));
    assert_eq!(found(&map, at(0, 0), 100), vec![(9, at(3, 3))]);
}

#[test]
fn update_with_a_wrong_previous_position_leaves_the_old_entry() {
    let mut map = SpatialHashmap::new(10);
    map.insert(at(5, 5), 1);
    map.update(1, at(25, 25), at(45, 45));
    assert_eq!(found(&map, at(0, 0), 100), vec![(1, at(5, 5)), (1, at(45, 45))]);
}

#[test]
fn remove_takes_the_entity_out() {
    let mut map = SpatialHashmap::new(10);
    map.insert(at(5, 5), 1);
    map.insert(at(6, 6), 2);
    map.remove(at(5, 5), 1);
    assert_eq!(found(&map, at(5, 5), 5), vec![(2, at(6, 6))]);
    map.remove(at(5, 5), 1);
    assert_eq!(found(&map, at(5, 5), 5), vec![(2, at(6, 6))]);
}

#[test]
fn remove_goes_by_the_cell_and_not_by_the_exact_position() {
    let mut map = SpatialHashmap::new(10);
    map.insert(at(5, 5), 1);
    map.remove(at(15, 5), 1);
    assert_eq!(found(&map, at(0, 0), 100), vec![(1, at(5, 5))]);
    map.remove(at(9, 0), 1);
    assert_eq!(found(&map, at(0, 0), 100), vec![]);
}

#[test]
fn remove_from_an_empty_index() {
    let mut map = SpatialHashmap::new(10);
    map.remove(at(5, 5), 1);
    assert_eq!(found(&map, at(0, 0), 100), vec![]);
}

#[test]
fn insert_again_in_the_same_cell_replaces_the_position() {
    let mut map = SpatialHashmap::new(10);
    map.insert(at(5, 5), 1);
    map.insert(at(6, 7), 1);
    assert_eq!(found(&map, at(0, 0), 100), vec![(1, at(6, 7))]);
}

#[test]
fn insert_again_in_another_cell_files_the_entity_twice() {
    let mut map = SpatialHashmap::new(10);
    map.insert(at(5, 5), 1);
    map.insert(at(25, 5), 1);
    assert_eq!(found(&map, at(0, 0), 100), vec![(1, at(5, 5)), (1, at(25, 5))]);
}

#[test]
fn entities_at_the_ends_of_the_plane() {
    let mut map = SpatialHashmap::new(i32::MAX);
    map.insert(at(i32::MAX, i32::MAX), 1);
    map.insert(at(i32::MIN, i32::MIN), 2);
    map.insert(at(-i32::MAX, i32::MAX - 1), 3);
    map.insert(at(0, 0), u64::MAX);
    assert_eq!(
        found(&map, at(0, 0), i32::MAX),
        vec![(3, at(-i32::MAX, i32::MAX - 1)), (u64::MAX, at(0, 0))]
    );
    assert_eq!(found(&map, at(i32::MAX, i32::MAX), 1), vec![(1, at(i32::MAX, i32::MAX))]);
    assert_eq!(found(&map, at(i32::MIN, i32::MIN), 1), vec![(2, at(i32::MIN, i32::MIN))]);
}

#[test]
fn many_moves_keep_every_entity_in_one_place() {
    let mut map = SpatialHashmap::new(8);
    let mut positions = Vec::new();
    for entity in 0..50u64 {
        let position = at(entity as i32 * 3 - 70, 40 - entity as i32 * 2);
        map.insert(position, entity);
        positions.push(position);
    }
    for round in 1..20 {
        for entity in 0..50u64 {
            let previous = positions[entity as usize];
            let next = at(previous.x + round - 7, previous.y - round + 11);
            map.update(entity, previous, next);
            positions[entity as usize] = next;
        }
    }
    let items = found(&map, at(0, 0), 10_000);
    let expected: Vec<(u64, Coordinate)> =
        positions.iter().enumerate().map(|(entity, position)| (entity as u64, *position)).collect();
    assert_eq!(items, expected);
}

#[test]
fn grid_of_the_index_gives_the_cells() {
    let map = SpatialHashmap::new(10);
    let grid: Grid = map.grid;
    assert_eq!(grid.index1d(-1), -1);
    assert_eq!(SquareQuery::new(at(5, 5), 1).first_cell(grid), grid.index2d(at(4, 4)));
}

#[test]
fn bucket_records_one_position_for_each_entity() {
    let mut bucket = Bucket::new();
    assert_eq!(bucket.len(), 0);
    assert_eq!(bucket.get(1), None);
    bucket.insert(1, at(1, 1));
    bucket.insert(2, at(2, 2));
    bucket.insert(1, at(3, 3));
    assert_eq!(bucket.len(), 2);
    assert_eq!(bucket.get(1), Some(at(3, 3)));
    assert_eq!(bucket.get(2), Some(at(2, 2)));
    bucket.remove(1);
    assert_eq!(bucket.len(), 1);
    assert_eq!(bucket.get(1), None);
    assert_eq!(bucket.get(2), Some(at(2, 2)));
    bucket.remove(1);
    assert_eq!(bucket.len(), 1);
}

#[test]
fn bucket_cursor_hands_out_every_entry_once() {
    let mut bucket = Bucket::new();
    bucket.insert(5, at(1, 0));
    bucket.insert(6, at(2, 0));
    bucket.insert(7, at(3, 0));
    bucket.remove(5);
    let mut cursor = bucket.iter();
    let mut entries = Vec::new();
    while let Some(entry) = cursor.next() {
        entries.push(entry);
    }
    assert_eq!(cursor.next(), None);
    entries.sort_by_key(|entry| entry.0);
    assert_eq!(entries, vec![(6, at(2, 0)), (7, at(3, 0))]);
}
