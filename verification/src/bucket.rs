//! The points filed under one cell.

use vstd::prelude::*;
use crate::grid::Coordinate;

verus! {

/// No entity occurs twice among `entries`.
pub open spec fn distinct_entities(entries: Seq<(u64, Coordinate)>) -> bool {
    forall|i: int, j: int|
        0 <= i < j < entries.len() ==> (#[trigger] entries[i]).0 != (#[trigger] entries[j]).0
}

/// Some entry of `entries` is about `entity`.
pub open spec fn holds_entity(entries: Seq<(u64, Coordinate)>, entity: u64) -> bool {
    exists|i: int| 0 <= i < entries.len() && (#[trigger] entries[i]).0 == entity
}

/// The place of an entry about `entity` among `entries`.
pub open spec fn place_of(entries: Seq<(u64, Coordinate)>, entity: u64) -> int {
    choose|i: int| 0 <= i < entries.len() && (#[trigger] entries[i]).0 == entity
}

/// The position that `entries` record for each entity.
pub open spec fn positions(entries: Seq<(u64, Coordinate)>) -> Map<u64, Coordinate> {
    Map::new(
        |entity: u64| holds_entity(entries, entity),
        |entity: u64| entries[place_of(entries, entity)].1,
    )
}

/// Where no entity occurs twice, the recorded positions are the entries
/// themselves.
pub proof fn lemma_positions(entries: Seq<(u64, Coordinate)>)
    requires
        distinct_entities(entries),
    ensures
        forall|i: int|
            0 <= i < entries.len() ==> positions(entries).contains_pair(
                (#[trigger] entries[i]).0,
                entries[i].1,
            ),
        forall|entity: u64, position: Coordinate|
            positions(entries).contains_pair(entity, position) <==> entries.contains(
                (entity, position),
            ),
{
    assert forall|i: int| 0 <= i < entries.len() implies positions(entries).contains_pair(
        (#[trigger] entries[i]).0,
        entries[i].1,
    ) by {
        let entity = entries[i].0;
        assert(holds_entity(entries, entity));
        let place = place_of(entries, entity);
        assert(place == i) by {
            if place < i {
                assert(entries[place].0 != entries[i].0);
            } else if i < place {
                assert(entries[i].0 != entries[place].0);
            }
        }
    }
    assert forall|entity: u64, position: Coordinate|
        positions(entries).contains_pair(entity, position) <==> entries.contains(
            (entity, position),
        ) by {
        if positions(entries).contains_pair(entity, position) {
            let place = place_of(entries, entity);
            assert(entries[place] == (entity, position));
        }
        if entries.contains((entity, position)) {
            let i = choose|i: int| 0 <= i < entries.len() && entries[i] == (entity, position);
            assert(positions(entries).contains_pair(entries[i].0, entries[i].1));
        }
    }
}

/// Two maps that hold the same pairs are the same map.
proof fn lemma_same_pairs(left: Map<u64, Coordinate>, right: Map<u64, Coordinate>)
    requires
        forall|e: u64, p: Coordinate| left.contains_pair(e, p) <==> right.contains_pair(e, p),
    ensures
        left == right,
{
    assert forall|e: u64| left.contains_key(e) <==> right.contains_key(e) by {
        if left.contains_key(e) {
            assert(left.contains_pair(e, left[e]));
        }
        if right.contains_key(e) {
            assert(right.contains_pair(e, right[e]));
        }
    }
    assert forall|e: u64| left.contains_key(e) implies left[e] == right[e] by {
        assert(left.contains_pair(e, left[e]));
    }
    assert(left =~= right);
}

/// Writing a new position over the entry at `place` records that position
/// for the entity of the entry and leaves the other entities as they were.
proof fn lemma_overwrite(entries: Seq<(u64, Coordinate)>, place: int, position: Coordinate)
    requires
        distinct_entities(entries),
        0 <= place < entries.len(),
    ensures
        distinct_entities(entries.update(place, (entries[place].0, position))),
        positions(entries.update(place, (entries[place].0, position))) == positions(
            entries,
        ).insert(entries[place].0, position),
{
    let entity = entries[place].0;
    let after = entries.update(place, (entity, position));
    assert forall|i: int, j: int| 0 <= i < j < after.len() implies (#[trigger] after[i]).0 != (
    #[trigger] after[j]).0 by {
        assert(entries[i].0 != entries[j].0);
    }
    lemma_positions(entries);
    lemma_positions(after);
    assert forall|e: u64, p: Coordinate|
        positions(after).contains_pair(e, p) <==> positions(entries).insert(
            entity,
            position,
        ).contains_pair(e, p) by {
        if after.contains((e, p)) {
            let i = choose|i: int| 0 <= i < after.len() && after[i] == (e, p);
            if i != place {
                assert(entries[i] == (e, p));
                if i < place {
                    assert(entries[i].0 != entries[place].0);
                } else {
                    assert(entries[place].0 != entries[i].0);
                }
            }
        }
        if entries.contains((e, p)) && e != entity {
            let i = choose|i: int| 0 <= i < entries.len() && entries[i] == (e, p);
            assert(after[i] == (e, p));
        }
        if e == entity && p == position {
            assert(after[place] == (e, p));
        }
    }
    lemma_same_pairs(positions(after), positions(entries).insert(entity, position));
}

/// Adding an entry for an entity that has none records its position and
/// leaves the other entities as they were.
proof fn lemma_append(entries: Seq<(u64, Coordinate)>, entity: u64, position: Coordinate)
    requires
        distinct_entities(entries),
        !holds_entity(entries, entity),
    ensures
        distinct_entities(entries.push((entity, position))),
        positions(entries.push((entity, position))) == positions(entries).insert(
            entity,
            position,
        ),
{
    let after = entries.push((entity, position));
    assert forall|i: int, j: int| 0 <= i < j < after.len() implies (#[trigger] after[i]).0 != (
    #[trigger] after[j]).0 by {
        if j < entries.len() {
            assert(entries[i].0 != entries[j].0);
        } else {
            assert(entries[i].0 != entity);
        }
    }
    lemma_positions(entries);
    lemma_positions(after);
    assert forall|e: u64, p: Coordinate|
        positions(after).contains_pair(e, p) <==> positions(entries).insert(
            entity,
            position,
        ).contains_pair(e, p) by {
        if after.contains((e, p)) {
            let i = choose|i: int| 0 <= i < after.len() && after[i] == (e, p);
            if i < entries.len() {
                assert(entries[i] == (e, p));
                assert(entries[i].0 != entity);
            }
        }
        if entries.contains((e, p)) {
            let i = choose|i: int| 0 <= i < entries.len() && entries[i] == (e, p);
            assert(after[i] == (e, p));
            assert(entries[i].0 != entity);
        }
        if e == entity && p == position {
            assert(after[entries.len() as int] == (e, p));
        }
    }
    lemma_same_pairs(positions(after), positions(entries).insert(entity, position));
}

/// Taking out the entry at `place`, with the last entry moved into the gap,
/// forgets the entity of that entry and leaves the other entities as they
/// were.
proof fn lemma_swap_remove(entries: Seq<(u64, Coordinate)>, place: int)
    requires
        distinct_entities(entries),
        0 <= place < entries.len(),
    ensures
        distinct_entities(entries.update(place, entries.last()).drop_last()),
        positions(entries.update(place, entries.last()).drop_last()) == positions(
            entries,
        ).remove(entries[place].0),
{
    let entity = entries[place].0;
    let after = entries.update(place, entries.last()).drop_last();
    let last = entries.len() - 1;
    let origin = |i: int|
        if i == place {
            last
        } else {
            i
        };
    assert forall|i: int| 0 <= i < after.len() implies #[trigger] after[i] == entries[origin(i)]
        && origin(i) != place by {}
    assert forall|i: int, j: int| 0 <= i < j < after.len() implies (#[trigger] after[i]).0 != (
    #[trigger] after[j]).0 by {
        if origin(i) < origin(j) {
            assert(entries[origin(i)].0 != entries[origin(j)].0);
        } else {
            assert(entries[origin(j)].0 != entries[origin(i)].0);
        }
    }
    lemma_positions(entries);
    lemma_positions(after);
    assert forall|e: u64, p: Coordinate|
        positions(after).contains_pair(e, p) <==> positions(entries).remove(entity).contains_pair(
            e,
            p,
        ) by {
        if after.contains((e, p)) {
            let i = choose|i: int| 0 <= i < after.len() && after[i] == (e, p);
            let from = origin(i);
            assert(entries[from] == (e, p));
            if from < place {
                assert(entries[from].0 != entries[place].0);
            } else {
                assert(entries[place].0 != entries[from].0);
            }
        }
        if entries.contains((e, p)) && e != entity {
            let i = choose|i: int| 0 <= i < entries.len() && entries[i] == (e, p);
            if i == last {
                assert(after[place] == (e, p));
            } else {
                assert(after[i] == (e, p));
            }
        }
    }
    lemma_same_pairs(positions(after), positions(entries).remove(entity));
}

/// The entities filed under one cell, each with its last known position.
#[derive(Debug)]
pub struct Bucket {
    entries: Vec<(u64, Coordinate)>,
}

impl View for Bucket {
    type V = Map<u64, Coordinate>;

    /// The position recorded for each entity of the bucket.
    open spec fn view(&self) -> Map<u64, Coordinate> {
        positions(self.entries())
    }
}

impl Bucket {
    /// The entries in the order in which a cursor hands them out.
    pub closed spec fn entries(&self) -> Seq<(u64, Coordinate)> {
        self.entries@
    }

    /// A bucket holds each entity at most once.
    pub open spec fn wf(&self) -> bool {
        distinct_entities(self.entries())
    }

    /// A bucket without entries.
    pub fn new() -> (bucket: Self)
        ensures
            bucket.wf(),
            bucket.entries() == Seq::<(u64, Coordinate)>::empty(),
            bucket@ == Map::<u64, Coordinate>::empty(),
    {
        let bucket = Bucket { entries: Vec::new() };
        assert(bucket@ =~= Map::<u64, Coordinate>::empty());
        bucket
    }

    /// The number of entities in the bucket.
    pub fn len(&self) -> (count: usize)
        ensures
            count == self.entries().len(),
    {
        self.entries.len()
    }

    /// The place of `entity` among the entries, if the bucket holds it.
    fn find(&self, entity: u64) -> (place: Option<usize>)
        ensures
            match place {
                Some(i) => i < self.entries().len() && self.entries()[i as int].0 == entity,
                None => !holds_entity(self.entries(), entity),
            },
    {
        let mut i: usize = 0;
        while i < self.entries.len()
            invariant
                i <= self.entries.len(),
                forall|j: int| 0 <= j < i ==> (#[trigger] self.entries@[j]).0 != entity,
            decreases self.entries.len() - i,
        {
            if self.entries[i].0 == entity {
                return Some(i);
            }
            i += 1;
        }
        None
    }

    /// The position recorded for `entity`, if the bucket holds it.
    pub fn get(&self, entity: u64) -> (position: Option<Coordinate>)
        requires
            self.wf(),
        ensures
            position == (if self@.contains_key(entity) {
                Some(self@[entity])
            } else {
                None
            }),
    {
        proof {
            lemma_positions(self.entries());
        }
        match self.find(entity) {
            Some(i) => Some(self.entries[i].1),
            None => None,
        }
    }

    /// Records `position` for `entity`, in place of what was recorded for it
    /// before.
    pub fn insert(&mut self, entity: u64, position: Coordinate)
        requires
            old(self).wf(),
        ensures
            final(self).wf(),
            final(self)@ == old(self)@.insert(entity, position),
    {
        match self.find(entity) {
            Some(place) => {
                proof {
                    lemma_overwrite(self.entries@, place as int, position);
                }
                self.entries[place] = (entity, position);
            },
            None => {
                proof {
                    lemma_append(self.entries@, entity, position);
                }
                self.entries.push((entity, position));
            },
        }
    }

    /// Takes `entity` out of the bucket. A bucket that does not hold it stays
    /// as it is.
    pub fn remove(&mut self, entity: u64)
        requires
            old(self).wf(),
        ensures
            final(self).wf(),
            final(self)@ == old(self)@.remove(entity),
    {
        match self.find(entity) {
            Some(place) => {
                proof {
                    lemma_swap_remove(self.entries@, place as int);
                }
                self.entries.swap_remove(place);
            },
            None => {
                assert(self@ =~= self@.remove(entity));
            },
        }
    }

    /// A cursor that stands before the first entry.
    pub fn iter(&self) -> (cursor: BucketIter<'_>)
        ensures
            cursor.wf(),
            cursor.remaining() == self.entries(),
    {
        BucketIter { bucket: self, place: 0 }
    }
}

/// A place in the walk through the entries of one bucket.
#[derive(Clone, Copy, Debug)]
pub struct BucketIter<'a> {
    bucket: &'a Bucket,
    place: usize,
}

impl<'a> BucketIter<'a> {
    /// The cursor stands at an entry of its bucket, or behind the last one.
    pub closed spec fn wf(&self) -> bool {
        self.place <= self.bucket.entries().len()
    }

    /// The entries that the cursor has yet to hand out, in order.
    pub closed spec fn remaining(&self) -> Seq<(u64, Coordinate)> {
        self.bucket.entries().skip(self.place as int)
    }

    /// Hands out the entry at which the cursor stands and moves on, or tells
    /// that none is left.
    pub fn next(&mut self) -> (entry: Option<(u64, Coordinate)>)
        requires
            old(self).wf(),
        ensures
            final(self).wf(),
            old(self).remaining().len() == 0 ==> entry is None && final(self).remaining()
                == old(self).remaining(),
            old(self).remaining().len() > 0 ==> entry == Some(old(self).remaining()[0])
                && final(self).remaining() == old(self).remaining().drop_first(),
    {
        if self.place < self.bucket.entries.len() {
            let entry = self.bucket.entries[self.place];
            self.place += 1;
            assert(self.remaining() =~= old(self).remaining().drop_first());
            Some(entry)
        } else {
            None
        }
    }
}

} // verus!
