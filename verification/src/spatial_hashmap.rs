//! The index itself: buckets of entities keyed by grid cell, and the walk
//! that answers a query.

use vstd::prelude::*;
use std::collections::HashMap;
use crate::bucket::{lemma_positions, Bucket, BucketIter};
pub use crate::grid::{Cell, Coordinate, Grid};
pub use crate::query::{Query, SquareQuery};
use crate::walk::{lemma_walk, matching, walk, walk_after};

verus! {

/// The cells that can hold a point: those whose indices fit 32 bits.
spec fn has_key(cell: Cell) -> bool {
    &&& -0x8000_0000 <= cell.x < 0x8000_0000
    &&& -0x8000_0000 <= cell.y < 0x8000_0000
}

/// The key under which the bucket of `cell` is kept: both indices, shifted to
/// be non-negative, side by side.
spec fn key_of(cell: Cell) -> u64 {
    ((cell.x + 0x8000_0000) * 0x1_0000_0000 + (cell.y + 0x8000_0000)) as u64
}

/// The key of `cell`, if the cell can hold a point.
fn cell_key(cell: Cell) -> (key: Option<u64>)
    ensures
        key == (if has_key(cell) {
            Some(key_of(cell))
        } else {
            None
        }),
{
    if -0x8000_0000 <= cell.x && cell.x < 0x8000_0000 && -0x8000_0000 <= cell.y && cell.y
        < 0x8000_0000 {
        let column: u64 = (cell.x + 0x8000_0000) as u64;
        let row: u64 = (cell.y + 0x8000_0000) as u64;
        Some(column * 0x1_0000_0000 + row)
    } else {
        None
    }
}

/// The key of the cell that holds `position`.
fn position_key(grid: Grid, position: Coordinate) -> (key: u64)
    requires
        grid.wf(),
    ensures
        has_key(grid.cell_of(position)),
        key == key_of(grid.cell_of(position)),
{
    proof {
        grid.lemma_cell_index_magnitude(position.x as int);
        grid.lemma_cell_index_magnitude(position.y as int);
    }
    let key = cell_key(grid.index2d(position));
    key.unwrap()
}

/// Every bucket holds each entity once, and only entities whose position lies
/// in the cell that the bucket is kept for.
spec fn consistent(buckets: Map<u64, Bucket>, grid: Grid) -> bool {
    forall|key: u64| #[trigger]
        buckets.contains_key(key) ==> buckets[key].wf() && filed_under(buckets[key]@, key, grid)
}

/// Every position in `bucket` lies in the cell that `key` stands for.
spec fn filed_under(bucket: Map<u64, Coordinate>, key: u64, grid: Grid) -> bool {
    forall|entity: u64| #[trigger]
        bucket.contains_key(entity) ==> key_of(grid.cell_of(bucket[entity])) == key
}

/// Which entity is filed under which cell, and at which position.
spec fn memberships(buckets: Map<u64, Bucket>) -> Map<(Cell, u64), Coordinate> {
    Map::new(
        |place: (Cell, u64)|
            has_key(place.0) && buckets.contains_key(key_of(place.0)) && buckets[key_of(
                place.0,
            )]@.contains_key(place.1),
        |place: (Cell, u64)| buckets[key_of(place.0)]@[place.1],
    )
}

/// Every entity of `index` is filed under the cell that holds its position.
pub open spec fn filed_by_position(index: Map<(Cell, u64), Coordinate>, grid: Grid) -> bool {
    forall|cell: Cell, entity: u64| #[trigger]
        index.contains_key((cell, entity)) ==> grid.cell_of(index[(cell, entity)]) == cell
}

/// No entity of `index` is filed under two cells.
pub open spec fn single_cell(index: Map<(Cell, u64), Coordinate>) -> bool {
    forall|first: Cell, second: Cell, entity: u64|
        #[trigger] index.contains_key((first, entity)) && #[trigger] index.contains_key(
            (second, entity),
        ) ==> first == second
}

/// The entities of `index`, each with its position.
pub open spec fn population(index: Map<(Cell, u64), Coordinate>) -> Set<(u64, Coordinate)> {
    Set::new(
        |found: (u64, Coordinate)|
            exists|cell: Cell| #[trigger] index.contains_pair((cell, found.0), found.1),
    )
}

/// What `query` is to find in `index`: the entities that are filed under the
/// cell of their position, at a position that the region holds.
pub open spec fn answer<Q: Query>(
    index: Map<(Cell, u64), Coordinate>,
    grid: Grid,
    query: &Q,
) -> Set<(u64, Coordinate)> {
    Set::new(
        |found: (u64, Coordinate)|
            query.spec_in_range(found.1) && index.contains_pair(
                (grid.cell_of(found.1), found.0),
                found.1,
            ),
    )
}

/// The index after `entity` has moved from `previous_position` to
/// `new_position`: gone from the old cell where the move crosses a cell
/// boundary, and filed under the new cell at the new position.
pub open spec fn moved(
    index: Map<(Cell, u64), Coordinate>,
    grid: Grid,
    entity: u64,
    previous_position: Coordinate,
    new_position: Coordinate,
) -> Map<(Cell, u64), Coordinate> {
    let left = if grid.cell_of(previous_position) != grid.cell_of(new_position) {
        index.remove((grid.cell_of(previous_position), entity))
    } else {
        index
    };
    left.insert((grid.cell_of(new_position), entity), new_position)
}

/// The entities that `index` files under `cell`, each with its position.
spec fn bucket_of(index: Map<(Cell, u64), Coordinate>, cell: Cell) -> Map<u64, Coordinate> {
    Map::new(|entity: u64| index.contains_key((cell, entity)), |entity: u64| index[(cell, entity)])
}

/// `index` with `bucket` in place of what it files under `cell`.
spec fn with_bucket(
    index: Map<(Cell, u64), Coordinate>,
    cell: Cell,
    bucket: Map<u64, Coordinate>,
) -> Map<(Cell, u64), Coordinate> {
    Map::new(
        |place: (Cell, u64)|
            if place.0 == cell {
                bucket.contains_key(place.1)
            } else {
                index.contains_key(place)
            },
        |place: (Cell, u64)|
            if place.0 == cell {
                bucket[place.1]
            } else {
                index[place]
            },
    )
}

/// Distinct cells that can hold a point have distinct keys.
proof fn lemma_keys_differ(first: Cell, second: Cell)
    requires
        has_key(first),
        has_key(second),
        key_of(first) == key_of(second),
    ensures
        first == second,
{
}

/// A spatial hash of point entities. Each entity is filed, with its position,
/// under the grid cell that holds the position.
///
/// The view maps a cell and an entity to the position at which the entity is
/// filed under that cell.
#[derive(Debug)]
pub struct SpatialHashmap {
    pub grid: Grid,
    hashmap: HashMap<u64, Bucket>,
}

impl View for SpatialHashmap {
    type V = Map<(Cell, u64), Coordinate>;

    closed spec fn view(&self) -> Map<(Cell, u64), Coordinate> {
        memberships(self.hashmap@)
    }
}

impl SpatialHashmap {
    /// The grid that the index files its entities by.
    pub closed spec fn spec_grid(&self) -> Grid {
        self.grid
    }

    /// The grid has cells of positive size, and every bucket belongs to the
    /// cell that it is kept under.
    pub closed spec fn wf(&self) -> bool {
        &&& self.grid.wf()
        &&& consistent(self.hashmap@, self.grid)
    }

    /// The entries filed under `cell`, in the order in which a walk hands
    /// them out; none for a cell that holds no entity.
    pub closed spec fn entries(&self, cell: Cell) -> Seq<(u64, Coordinate)> {
        entries_at(self.hashmap@, cell)
    }

    /// The entries filed under a cell are the entities that the index holds
    /// for it, each once.
    pub proof fn lemma_entries(&self, cell: Cell)
        requires
            self.wf(),
        ensures
            self.entries(cell).no_duplicates(),
            forall|found: (u64, Coordinate)| #[trigger]
                self.entries(cell).contains(found) <==> self@.contains_pair(
                    (cell, found.0),
                    found.1,
                ),
    {
        lemma_entries_at(self.grid, self.hashmap@, cell);
    }

    /// In a well-formed index every entity is filed under the cell of its
    /// position.
    pub proof fn lemma_filed_by_position(&self)
        requires
            self.wf(),
        ensures
            self.grid().wf(),
            filed_by_position(self@, self.grid()),
    {
        let buckets = self.hashmap@;
        assert forall|cell: Cell, entity: u64| #[trigger]
            self@.contains_key((cell, entity)) implies self.grid.cell_of(self@[(cell, entity)])
            == cell by {
            let key = key_of(cell);
            assert(buckets.contains_key(key));
            assert(buckets[key]@.contains_key(entity));
            let position = buckets[key]@[entity];
            self.grid.lemma_cell_index_magnitude(position.x as int);
            self.grid.lemma_cell_index_magnitude(position.y as int);
            lemma_keys_differ(self.grid.cell_of(position), cell);
        }
    }

    /// An empty index over a grid of cells with side `grid_size`.
    pub fn new(grid_size: i32) -> (map: Self)
        requires
            grid_size > 0,
        ensures
            map.wf(),
            map.grid().spacing == grid_size,
            map@ == Map::<(Cell, u64), Coordinate>::empty(),
    {
        let map = SpatialHashmap { grid: Grid { spacing: grid_size }, hashmap: HashMap::new() };
        assert(map@ =~= Map::<(Cell, u64), Coordinate>::empty());
        map
    }

    /// The grid that the index files its entities by.
    #[verifier::when_used_as_spec(spec_grid)]
    pub fn grid(&self) -> (grid: Grid)
        ensures
            grid == self.spec_grid(),
    {
        self.grid
    }

    /// Takes the bucket of `cell` out of the map; an empty one where none is
    /// kept.
    fn take_bucket(&mut self, key: u64, Ghost(cell): Ghost<Cell>) -> (bucket: Bucket)
        requires
            old(self).wf(),
            has_key(cell),
            key == key_of(cell),
        ensures
            final(self).wf(),
            final(self).grid == old(self).grid,
            bucket.wf(),
            filed_under(bucket@, key, old(self).grid),
            bucket@ == bucket_of(old(self)@, cell),
            final(self)@ == with_bucket(old(self)@, cell, Map::empty()),
    {
        broadcast use vstd::std_specs::hash::group_hash_axioms;

        let taken = self.hashmap.remove(&key);
        let bucket = match taken {
            Some(bucket) => bucket,
            None => Bucket::new(),
        };
        proof {
            assert forall|place: (Cell, u64)| has_key(place.0) && key_of(place.0)
                == key implies place.0 == cell by {
                lemma_keys_differ(place.0, cell);
            }
            assert(bucket@ =~= bucket_of(old(self)@, cell));
            assert(self@ =~= with_bucket(old(self)@, cell, Map::empty()));
        }
        bucket
    }

    /// Files `bucket` as the bucket of `cell`.
    fn put_bucket(&mut self, key: u64, bucket: Bucket, Ghost(cell): Ghost<Cell>)
        requires
            old(self).wf(),
            bucket.wf(),
            has_key(cell),
            key == key_of(cell),
            filed_under(bucket@, key, old(self).grid),
        ensures
            final(self).wf(),
            final(self).grid == old(self).grid,
            final(self)@ == with_bucket(old(self)@, cell, bucket@),
    {
        broadcast use vstd::std_specs::hash::group_hash_axioms;

        self.hashmap.insert(key, bucket);
        proof {
            assert forall|place: (Cell, u64)| has_key(place.0) && key_of(place.0)
                == key implies place.0 == cell by {
                lemma_keys_differ(place.0, cell);
            }
            assert(self@ =~= with_bucket(old(self)@, cell, bucket@));
        }
    }

    /// Files `entity` at `position`, under the cell that holds `position`. An
    /// entry for `entity` under that cell is replaced. Entries under other
    /// cells stay: an entity that is filed elsewhere is to be moved with
    /// `update`, not inserted again.
    pub fn insert(&mut self, position: Coordinate, entity: u64)
        requires
            old(self).wf(),
        ensures
            final(self).wf(),
            final(self).grid() == old(self).grid(),
            final(self)@ == old(self)@.insert(
                (old(self).grid().cell_of(position), entity),
                position,
            ),
    {
        let ghost cell = self.grid.cell_of(position);
        let key = position_key(self.grid, position);
        let mut bucket = self.take_bucket(key, Ghost(cell));
        bucket.insert(entity, position);
        self.put_bucket(key, bucket, Ghost(cell));
        assert(self@ =~= old(self)@.insert((cell, entity), position));
    }

    /// Takes `entity` out of the cell that holds `position`. Where the entity
    /// is not filed under that cell, nothing changes.
    pub fn remove(&mut self, position: Coordinate, entity: u64)
        requires
            old(self).wf(),
        ensures
            final(self).wf(),
            final(self).grid() == old(self).grid(),
            final(self)@ == old(self)@.remove((old(self).grid().cell_of(position), entity)),
    {
        let ghost cell = self.grid.cell_of(position);
        let key = position_key(self.grid, position);
        let mut bucket = self.take_bucket(key, Ghost(cell));
        bucket.remove(entity);
        self.put_bucket(key, bucket, Ghost(cell));
        assert(self@ =~= old(self)@.remove((cell, entity)));
    }

    /// Moves `entity` from `previous_position` to `new_position`. Where the
    /// two lie in different cells the entity leaves the bucket of the old
    /// cell, if it was there; in either case the bucket of the new cell then
    /// holds it at `new_position`.
    pub fn update(&mut self, entity: u64, previous_position: Coordinate, new_position: Coordinate)
        requires
            old(self).wf(),
        ensures
            final(self).wf(),
            final(self).grid() == old(self).grid(),
            final(self)@ == moved(
                old(self)@,
                old(self).grid(),
                entity,
                previous_position,
                new_position,
            ),
    {
        let prev_index = self.grid.index2d(previous_position);
        let new_index = self.grid.index2d(new_position);
        if new_index != prev_index {
            self.remove(previous_position, entity);
        }
        self.insert(new_position, entity);
    }
}

/// The entries filed under `cell`, in the order of their bucket; none where
/// no bucket is kept for the cell.
spec fn entries_at(buckets: Map<u64, Bucket>, cell: Cell) -> Seq<(u64, Coordinate)> {
    if has_key(cell) && buckets.contains_key(key_of(cell)) {
        buckets[key_of(cell)].entries()
    } else {
        Seq::empty()
    }
}

/// The entries filed under a cell are those that the index holds for it,
/// each entity once, and each at a position that lies in the cell.
proof fn lemma_entries_at(grid: Grid, buckets: Map<u64, Bucket>, cell: Cell)
    requires
        grid.wf(),
        consistent(buckets, grid),
    ensures
        entries_at(buckets, cell).no_duplicates(),
        forall|found: (u64, Coordinate)| #[trigger]
            entries_at(buckets, cell).contains(found) <==> memberships(buckets).contains_pair(
                (cell, found.0),
                found.1,
            ),
        forall|found: (u64, Coordinate)| #[trigger]
            entries_at(buckets, cell).contains(found) ==> grid.cell_of(found.1) == cell,
{
    let entries = entries_at(buckets, cell);
    if has_key(cell) && buckets.contains_key(key_of(cell)) {
        let bucket = buckets[key_of(cell)];
        lemma_positions(entries);
        assert forall|found: (u64, Coordinate)| #[trigger]
            entries.contains(found) implies grid.cell_of(found.1) == cell by {
            assert(bucket@.contains_pair(found.0, found.1));
            assert(bucket@.contains_key(found.0));
            grid.lemma_cell_index_magnitude(found.1.x as int);
            grid.lemma_cell_index_magnitude(found.1.y as int);
            lemma_keys_differ(grid.cell_of(found.1), cell);
        }
        assert forall|i: int, j: int|
            0 <= i < entries.len() && 0 <= j < entries.len() && i != j implies entries[i]
            != entries[j] by {
            if i < j {
                assert(entries[i].0 != entries[j].0);
            } else {
                assert(entries[j].0 != entries[i].0);
            }
        }
    }
}

/// A cursor before the first entry of the bucket of `cell`; none where no
/// bucket is kept for the cell.
fn cursor_at<'a>(buckets: &'a HashMap<u64, Bucket>, cell: Cell) -> (cursor: Option<BucketIter<'a>>)
    ensures
        match cursor {
            Some(cursor) => cursor.wf() && cursor.remaining() == entries_at(buckets@, cell),
            None => entries_at(buckets@, cell) == Seq::<(u64, Coordinate)>::empty(),
        },
{
    broadcast use vstd::std_specs::hash::group_hash_axioms;

    match cell_key(cell) {
        Some(key) => match buckets.get(&key) {
            Some(bucket) => Some(bucket.iter()),
            None => None,
        },
        None => None,
    }
}

/// A walk through the cells that a query can touch, which hands out one by
/// one the entities that the query finds. It reads the index that it was made
/// from and keeps nothing but its place in it.
pub struct SpatialHashmapIterator<'a, Q: Query> {
    query: Q,
    current_cell: Cell,
    entity_iterator: Option<BucketIter<'a>>,
    shm: &'a HashMap<u64, Bucket>,
    grid: Grid,
}

impl<'a, Q: Query> SpatialHashmapIterator<'a, Q> {
    /// The walk stands in a well-formed index, at a place of the bucket that
    /// it reads.
    pub closed spec fn wf(&self) -> bool {
        &&& self.grid.wf()
        &&& consistent(self.shm@, self.grid)
        &&& self.entity_iterator matches Some(cursor) ==> cursor.wf()
    }

    /// The query that the walk answers.
    pub closed spec fn query(&self) -> Q {
        self.query
    }

    /// The entries of the bucket under the walk that it has yet to look at.
    spec fn unread(&self) -> Seq<(u64, Coordinate)> {
        match self.entity_iterator {
            Some(cursor) => cursor.remaining(),
            None => Seq::empty(),
        }
    }

    /// What the walk has yet to hand out, in the order in which it will.
    pub closed spec fn pending(&self) -> Seq<(u64, Coordinate)> {
        matching(&self.query, self.unread()) + walk_after(
            &self.query,
            self.grid,
            |cell: Cell| entries_at(self.shm@, cell),
            self.current_cell,
        )
    }

    /// A bound on the cells that the walk has yet to enter.
    spec fn cells_ahead(&self) -> nat {
        self.query.cells_left(self.current_cell, self.grid)
    }

    /// A bound on the steps that the walk takes within the bucket under it.
    spec fn entries_ahead(&self) -> nat {
        match self.entity_iterator {
            Some(cursor) => cursor.remaining().len() + 1,
            None => 0,
        }
    }

    /// Hands out the next pair that the query finds, or `None` once the walk
    /// has been through every cell. After `None` it stays at `None`.
    pub fn next(&mut self) -> (item: Option<(u64, Coordinate)>)
        requires
            old(self).wf(),
        ensures
            final(self).wf(),
            final(self).query() == old(self).query(),
            old(self).pending().len() == 0 ==> item is None && final(self).pending()
                == old(self).pending(),
            old(self).pending().len() > 0 ==> item == Some(old(self).pending()[0])
                && final(self).pending() == old(self).pending().drop_first(),
            item matches Some(found) ==> old(self).query().spec_in_range(found.1),
    {
        loop
            invariant
                self.wf(),
                self.query == old(self).query,
                self.grid == old(self).grid,
                self.shm == old(self).shm,
                self.pending() == old(self).pending(),
            decreases self.cells_ahead(), self.entries_ahead(),
        {
            let ghost unread = self.unread();
            let ghost later = walk_after(
                &self.query,
                self.grid,
                |cell: Cell| entries_at(self.shm@, cell),
                self.current_cell,
            );
            match self.entity_iterator {
                Some(mut cursor) => {
                    match cursor.next() {
                        Some(entry) => {
                            self.entity_iterator = Some(cursor);
                            if self.query.in_range(entry.1) {
                                proof {
                                    let kept = matching(&self.query, unread.drop_first());
                                    assert(old(self).pending() == (seq![entry] + kept) + later);
                                    assert(self.pending() =~= old(self).pending().drop_first());
                                }
                                return Some(entry);
                            }
                        },
                        None => {
                            self.entity_iterator = None;
                        },
                    }
                },
                None => {
                    match self.query.next_cell(self.current_cell, self.grid) {
                        None => {
                            return None;
                        },
                        Some(cell) => {
                            proof {
                                self.query.lemma_walk_advances(self.current_cell, self.grid);
                            }
                            self.current_cell = cell;
                            self.entity_iterator = cursor_at(self.shm, cell);
                        },
                    }
                },
            }
        }
    }

    /// Hands out at once, in order, all that the walk has yet to hand out.
    pub fn collect(&mut self) -> (items: Vec<(u64, Coordinate)>)
        requires
            old(self).wf(),
        ensures
            final(self).wf(),
            final(self).query() == old(self).query(),
            items@ == old(self).pending(),
            final(self).pending().len() == 0,
    {
        let mut items: Vec<(u64, Coordinate)> = Vec::new();
        loop
            invariant
                self.wf(),
                self.query() == old(self).query(),
                items@ + self.pending() == old(self).pending(),
            decreases self.pending().len(),
        {
            let ghost before = self.pending();
            match self.next() {
                Some(found) => {
                    items.push(found);
                    assert(items@ + self.pending() =~= old(self).pending()) by {
                        assert(before =~= seq![found] + before.drop_first());
                    }
                },
                None => {
                    assert(items@ =~= items@ + self.pending());
                    return items;
                },
            }
        }
    }
}

impl SpatialHashmap {
    /// Starts a walk that hands out the entities that `query` finds in the
    /// index as it now is: each entity that is filed at a position in the
    /// region, once. They come cell by cell in the order of the walk, and
    /// within a cell in the order of its entries.
    pub fn query<Q: Query>(&self, query: Q) -> (found: SpatialHashmapIterator<'_, Q>)
        requires
            self.wf(),
        ensures
            found.wf(),
            found.query() == query,
            found.pending() == walk(&query, self.grid(), |cell: Cell| self.entries(cell)),
            found.pending().no_duplicates(),
            found.pending().to_set() == answer(self@, self.grid(), &query),
    {
        let first_cell = query.first_cell(self.grid);
        let found = SpatialHashmapIterator {
            query,
            current_cell: first_cell,
            entity_iterator: cursor_at(&self.hashmap, first_cell),
            shm: &self.hashmap,
            grid: self.grid,
        };
        proof {
            let entries = |cell: Cell| entries_at(self.hashmap@, cell);
            assert(entries =~= (|cell: Cell| self.entries(cell)));
            assert forall|cell: Cell| {
                &&& (#[trigger] entries(cell)).no_duplicates()
                &&& forall|entry: (u64, Coordinate)| #[trigger]
                    entries(cell).contains(entry) ==> self.grid.cell_of(entry.1) == cell
            } by {
                lemma_entries_at(self.grid, self.hashmap@, cell);
            }
            lemma_walk(&query, self.grid, entries);
            assert forall|item: (u64, Coordinate)|
                found.pending().to_set().contains(item) <==> answer(
                    self@,
                    self.grid,
                    &query,
                ).contains(item) by {
                lemma_entries_at(self.grid, self.hashmap@, self.grid.cell_of(item.1));
            }
            assert(found.pending().to_set() =~= answer(self@, self.grid, &query));
        }
        found
    }
}

/// An empty index holds no entity.
pub proof fn lemma_empty_population()
    ensures
        population(Map::<(Cell, u64), Coordinate>::empty()) == Set::<(u64, Coordinate)>::empty(),
{
    assert(population(Map::<(Cell, u64), Coordinate>::empty()) =~= Set::<
        (u64, Coordinate),
    >::empty());
}

/// Inserting an entity that the index does not hold adds that entity at its
/// position to the population, and nothing else.
pub proof fn lemma_insert_grows_population(
    index: Map<(Cell, u64), Coordinate>,
    grid: Grid,
    position: Coordinate,
    entity: u64,
)
    requires
        forall|cell: Cell| !index.contains_key((cell, entity)),
    ensures
        population(index.insert((grid.cell_of(position), entity), position)) == population(
            index,
        ).insert((entity, position)),
        single_cell(index) ==> single_cell(
            index.insert((grid.cell_of(position), entity), position),
        ),
{
    let home = grid.cell_of(position);
    let after = index.insert((home, entity), position);
    assert forall|found: (u64, Coordinate)|
        population(after).contains(found) <==> population(index).insert(
            (entity, position),
        ).contains(found) by {
        if population(after).contains(found) {
            let cell = choose|cell: Cell| #[trigger] after.contains_pair((cell, found.0), found.1);
            if found.0 != entity {
                assert(index.contains_pair((cell, found.0), found.1));
            }
        }
        if population(index).contains(found) {
            let cell = choose|cell: Cell| #[trigger] index.contains_pair((cell, found.0), found.1);
            assert(after.contains_pair((cell, found.0), found.1));
        }
        if found == (entity, position) {
            assert(after.contains_pair((home, found.0), found.1));
        }
    }
    assert(population(after) =~= population(index).insert((entity, position)));
    if single_cell(index) {
        assert forall|first: Cell, second: Cell, other: u64|
            #[trigger] after.contains_key((first, other)) && #[trigger] after.contains_key(
                (second, other),
            ) implies first == second by {
            if other != entity {
                assert(index.contains_key((first, other)));
                assert(index.contains_key((second, other)));
            }
        }
    }
}

/// A query whose region holds every position of the index finds the whole
/// population.
pub proof fn lemma_covering_query_finds_all<Q: Query>(
    index: Map<(Cell, u64), Coordinate>,
    grid: Grid,
    query: &Q,
)
    requires
        filed_by_position(index, grid),
        forall|cell: Cell, entity: u64| #[trigger]
            index.contains_key((cell, entity)) ==> query.spec_in_range(index[(cell, entity)]),
    ensures
        answer(index, grid, query) == population(index),
{
    assert forall|found: (u64, Coordinate)|
        answer(index, grid, query).contains(found) <==> population(index).contains(found) by {
        if population(index).contains(found) {
            let cell = choose|cell: Cell| #[trigger] index.contains_pair((cell, found.0), found.1);
            assert(index.contains_key((cell, found.0)));
        }
        if answer(index, grid, query).contains(found) {
            assert(index.contains_pair((grid.cell_of(found.1), found.0), found.1));
        }
    }
    assert(answer(index, grid, query) =~= population(index));
}

/// After a move across a cell boundary no query finds the entity at a
/// position in the old cell, and every query whose region holds the new
/// position finds it there. Where the entity was filed under no cell but the
/// old one, queries find it nowhere else.
pub proof fn lemma_update_moves<Q: Query>(
    index: Map<(Cell, u64), Coordinate>,
    grid: Grid,
    entity: u64,
    previous_position: Coordinate,
    new_position: Coordinate,
    query: &Q,
)
    requires
        grid.cell_of(previous_position) != grid.cell_of(new_position),
    ensures
        forall|position: Coordinate|
            grid.cell_of(position) == grid.cell_of(previous_position) ==> !answer(
                moved(index, grid, entity, previous_position, new_position),
                grid,
                query,
            ).contains((entity, position)),
        query.spec_in_range(new_position) ==> answer(
            moved(index, grid, entity, previous_position, new_position),
            grid,
            query,
        ).contains((entity, new_position)),
        (forall|cell: Cell| #[trigger]
            index.contains_key((cell, entity)) ==> cell == grid.cell_of(previous_position))
            ==> forall|position: Coordinate| #[trigger]
            answer(
                moved(index, grid, entity, previous_position, new_position),
                grid,
                query,
            ).contains((entity, position)) ==> position == new_position,
{
    let after = moved(index, grid, entity, previous_position, new_position);
    if forall|cell: Cell| #[trigger]
        index.contains_key((cell, entity)) ==> cell == grid.cell_of(previous_position) {
        assert forall|position: Coordinate| #[trigger]
            answer(after, grid, query).contains((entity, position)) implies position
            == new_position by {
            if grid.cell_of(position) != grid.cell_of(new_position) {
                assert(index.contains_key((grid.cell_of(position), entity)));
            }
        }
    }
}

/// A move keeps an entity in one cell, provided that it was filed nowhere
/// but under the cell of the position that it is said to come from.
pub proof fn lemma_update_keeps_single_cell(
    index: Map<(Cell, u64), Coordinate>,
    grid: Grid,
    entity: u64,
    previous_position: Coordinate,
    new_position: Coordinate,
)
    requires
        single_cell(index),
        forall|cell: Cell| #[trigger]
            index.contains_key((cell, entity)) ==> cell == grid.cell_of(previous_position),
    ensures
        single_cell(moved(index, grid, entity, previous_position, new_position)),
        forall|cell: Cell| #[trigger]
            moved(index, grid, entity, previous_position, new_position).contains_key(
                (cell, entity),
            ) <==> cell == grid.cell_of(new_position),
{
    let after = moved(index, grid, entity, previous_position, new_position);
    assert forall|first: Cell, second: Cell, other: u64|
        #[trigger] after.contains_key((first, other)) && #[trigger] after.contains_key(
            (second, other),
        ) implies first == second by {
        if other != entity {
            assert(index.contains_key((first, other)));
            assert(index.contains_key((second, other)));
        } else {
            if first != grid.cell_of(new_position) {
                assert(index.contains_key((first, entity)));
            }
            if second != grid.cell_of(new_position) {
                assert(index.contains_key((second, entity)));
            }
        }
    }
    assert forall|cell: Cell| #[trigger]
        after.contains_key((cell, entity)) implies cell == grid.cell_of(new_position) by {
        if cell != grid.cell_of(new_position) {
            assert(index.contains_key((cell, entity)));
        }
    }
}

/// After a removal no query finds the entity at a position in the cell that
/// it was taken from, and none finds it at all where it was filed under no
/// other cell. Removing it once more changes nothing.
pub proof fn lemma_remove_hides<Q: Query>(
    index: Map<(Cell, u64), Coordinate>,
    grid: Grid,
    position: Coordinate,
    entity: u64,
    query: &Q,
)
    ensures
        forall|other: Coordinate|
            grid.cell_of(other) == grid.cell_of(position) ==> !answer(
                index.remove((grid.cell_of(position), entity)),
                grid,
                query,
            ).contains((entity, other)),
        index.remove((grid.cell_of(position), entity)).remove((grid.cell_of(position), entity))
            == index.remove((grid.cell_of(position), entity)),
        single_cell(index) ==> single_cell(index.remove((grid.cell_of(position), entity))),
        (forall|cell: Cell| #[trigger]
            index.contains_key((cell, entity)) ==> cell == grid.cell_of(position))
            ==> forall|other: Coordinate|
            !answer(index.remove((grid.cell_of(position), entity)), grid, query).contains(
                (entity, other),
            ),
{
    let after = index.remove((grid.cell_of(position), entity));
    assert(after.remove((grid.cell_of(position), entity)) =~= after);
    if forall|cell: Cell| #[trigger]
        index.contains_key((cell, entity)) ==> cell == grid.cell_of(position) {
        assert forall|other: Coordinate| !answer(after, grid, query).contains(
            (entity, other),
        ) by {
            if after.contains_key((grid.cell_of(other), entity)) {
                assert(index.contains_key((grid.cell_of(other), entity)));
            }
        }
    }
    if single_cell(index) {
        assert forall|first: Cell, second: Cell, other: u64|
            #[trigger] after.contains_key((first, other)) && #[trigger] after.contains_key(
                (second, other),
            ) implies first == second by {
            assert(index.contains_key((first, other)));
            assert(index.contains_key((second, other)));
        }
    }
}

} // verus!
