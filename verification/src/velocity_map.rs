//! The step-scoped snapshot of every body's velocity before the step, looked
//! up by the body's position.
//!
//! Positions and velocities are held by their bit patterns: two positions
//! are the same key exactly when their bits agree.

use crate::geometry::PointKey;
use crate::geometry::Velocity;
use hashbrown::HashMap;
use vstd::prelude::*;

verus! {

/// A `hashbrown::HashMap` from position bits to velocity bits. Nothing is
/// known of it but what the functions below state of [`entries`].
#[verifier::external_body]
pub struct Table {
    inner: HashMap<(u64, u64, u64), (u64, u64)>,
}

/// The key-value pairs that a table holds.
pub uninterp spec fn entries(table: Table) -> Map<(u64, u64, u64), (u64, u64)>;

/// What an empty table holds.
pub open spec fn no_entries() -> Map<(u64, u64, u64), (u64, u64)> {
    Map::empty()
}

/// `hashbrown::HashMap::new`: the table it makes holds nothing.
#[verifier::external_body]
fn table_new() -> (table: Table)
    ensures
        entries(table) == no_entries(),
{
    Table { inner: HashMap::new() }
}

/// `hashbrown::HashMap::clear`: the table holds nothing afterwards.
#[verifier::external_body]
fn table_clear(table: &mut Table)
    ensures
        entries(*final(table)) == no_entries(),
{
    table.inner.clear()
}

/// `hashbrown::HashMap::insert`: the key maps to the new value afterwards and
/// every other key is as before; the value that the key had, if any, is
/// returned.
#[verifier::external_body]
fn table_insert(table: &mut Table, key: (u64, u64, u64), value: (u64, u64)) -> (previous: Option<
    (u64, u64),
>)
    ensures
        entries(*final(table)) == entries(*old(table)).insert(key, value),
        previous == if entries(*old(table)).dom().contains(key) {
            Some(entries(*old(table))[key])
        } else {
            None
        },
{
    table.inner.insert(key, value)
}

/// `hashbrown::HashMap::get`: the value that the key maps to, if the table
/// holds the key.
#[verifier::external_body]
fn table_get(table: &Table, key: (u64, u64, u64)) -> (found: Option<(u64, u64)>)
    ensures
        found == if entries(*table).dom().contains(key) {
            Some(entries(*table)[key])
        } else {
            None
        },
{
    table.inner.get(&key).copied()
}

/// `hashbrown::HashMap::contains_key`: whether the table holds the key.
#[verifier::external_body]
fn table_contains_key(table: &Table, key: (u64, u64, u64)) -> (held: bool)
    ensures
        held == entries(*table).dom().contains(key),
{
    table.inner.contains_key(&key)
}

/// The velocity snapshot of one step.
pub struct VelocityMap {
    table: Table,
}

/// The table key that stands for a position.
pub open spec fn key_of(position: PointKey) -> (u64, u64, u64) {
    (position.x, position.y, position.mass)
}

impl View for VelocityMap {
    type V = Map<PointKey, Velocity>;

    /// The snapshot as a map from position to velocity.
    closed spec fn view(&self) -> Map<PointKey, Velocity> {
        Map::new(
            |position: PointKey| entries(self.table).dom().contains(key_of(position)),
            |position: PointKey|
                Velocity {
                    x: entries(self.table)[key_of(position)].0,
                    y: entries(self.table)[key_of(position)].1,
                },
        )
    }
}

/// The snapshot that publishing `bodies` in order into an empty map leaves:
/// of two bodies at one position the later is kept.
pub open spec fn published(bodies: Seq<(PointKey, Velocity)>) -> Map<PointKey, Velocity>
    decreases bodies.len(),
{
    if bodies.len() == 0 {
        Map::empty()
    } else {
        published(bodies.drop_last()).insert(bodies.last().0, bodies.last().1)
    }
}

impl VelocityMap {
    /// An empty snapshot.
    pub fn new() -> (fresh: VelocityMap)
        ensures
            fresh@ == Map::<PointKey, Velocity>::empty(),
    {
        let fresh = VelocityMap { table: table_new() };
        assert(fresh@ =~= Map::<PointKey, Velocity>::empty());
        fresh
    }

    /// Forgets every velocity, as at the start of a step.
    pub fn clear(&mut self)
        ensures
            final(self)@ == Map::<PointKey, Velocity>::empty(),
    {
        table_clear(&mut self.table);
        assert(self@ =~= Map::<PointKey, Velocity>::empty());
    }

    /// Records the velocity of the body at `position`, in place of any
    /// velocity recorded for that position before.
    pub fn insert(&mut self, position: PointKey, velocity: Velocity)
        ensures
            final(self)@ == old(self)@.insert(position, velocity),
    {
        let _ = table_insert(
            &mut self.table,
            (position.x, position.y, position.mass),
            (velocity.x, velocity.y),
        );
        assert(self@ =~= old(self)@.insert(position, velocity)) by {
            assert forall|p: PointKey| key_of(p) == key_of(position) implies p == position by {}
        }
    }

    /// The velocity recorded for the body at `position`, if there is one.
    pub fn get(&self, position: &PointKey) -> (found: Option<Velocity>)
        ensures
            found == if self@.dom().contains(*position) {
                Some(self@[*position])
            } else {
                None
            },
    {
        match table_get(&self.table, (position.x, position.y, position.mass)) {
            Some(pair) => Some(Velocity { x: pair.0, y: pair.1 }),
            None => None,
        }
    }

    /// Whether a velocity is recorded for the body at `position`.
    pub fn contains_key(&self, position: &PointKey) -> (held: bool)
        ensures
            held == self@.dom().contains(*position),
    {
        table_contains_key(&self.table, (position.x, position.y, position.mass))
    }

    /// Starts a step: forgets the last step's velocities and records those of
    /// `bodies`, in order.
    pub fn snapshot(&mut self, bodies: &Vec<(PointKey, Velocity)>)
        ensures
            final(self)@ == published(bodies@),
    {
        self.clear();
        let mut i: usize = 0;
        while i < bodies.len()
            invariant
                i <= bodies@.len(),
                self@ == published(bodies@.take(i as int)),
            decreases bodies@.len() - i,
        {
            let body: (PointKey, Velocity) = bodies[i];
            self.insert(body.0, body.1);
            proof {
                let next = bodies@.take(i + 1);
                assert(next.drop_last() =~= bodies@.take(i as int));
                assert(next.last() == bodies@[i as int]);
            }
            i += 1;
        }
        assert(bodies@.take(i as int) =~= bodies@);
    }
}

/// After a snapshot every body finds a velocity at its position.
pub proof fn lemma_published_holds_all(bodies: Seq<(PointKey, Velocity)>, i: int)
    requires
        0 <= i < bodies.len(),
    ensures
        published(bodies).dom().contains(bodies[i].0),
    decreases bodies.len(),
{
    if i < bodies.len() - 1 {
        lemma_published_holds_all(bodies.drop_last(), i);
    }
}

/// After a snapshot a body finds its own velocity at its position unless a
/// later body shares that position.
pub proof fn lemma_published_last_wins(bodies: Seq<(PointKey, Velocity)>, i: int)
    requires
        0 <= i < bodies.len(),
        forall|j: int| i < j < bodies.len() ==> (#[trigger] bodies[j]).0 != bodies[i].0,
    ensures
        published(bodies)[bodies[i].0] == bodies[i].1,
    decreases bodies.len(),
{
    if i < bodies.len() - 1 {
        let rest = bodies.drop_last();
        assert forall|j: int| i < j < rest.len() implies (#[trigger] rest[j]).0 != rest[i].0 by {
            assert(rest[j] == bodies[j]);
        }
        lemma_published_last_wins(rest, i);
        assert(bodies.last() == bodies[bodies.len() - 1]);
    }
}

/// A snapshot holds nothing but the positions of the bodies it was taken of.
pub proof fn lemma_published_holds_only(bodies: Seq<(PointKey, Velocity)>, position: PointKey)
    requires
        published(bodies).dom().contains(position),
    ensures
        exists|i: int| 0 <= i < bodies.len() && (#[trigger] bodies[i]).0 == position,
    decreases bodies.len(),
{
    if bodies.len() > 0 {
        if bodies.last().0 == position {
            assert(bodies[bodies.len() - 1].0 == position);
        } else {
            lemma_published_holds_only(bodies.drop_last(), position);
            let i = choose|i: int|
                0 <= i < bodies.drop_last().len() && (#[trigger] bodies.drop_last()[i]).0
                    == position;
            assert(bodies[i].0 == position);
        }
    }
}

} // verus!
