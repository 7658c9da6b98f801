use vstd::prelude::*;

use crate::ability::{Ability, Cooldown, Effect};
use crate::bullet::TimeToLive;
use crate::health::{Damage, Health, RespawnTimer};
use crate::input::Input;
use crate::net::{Connection, Cosmetic};
use crate::physics::{
    Collider, FixedBody, Gravity, Grounded, KinematicBody, TimeScale, Transform,
};
use crate::player::Player;

verus! {

/// Identifier of an entity, shared verbatim by the server and its clients.
#[derive(Debug, Clone, Copy, PartialEq, Eq, Structural, Hash)]
pub struct Entity {
    pub id: u32,
}

impl Entity {
    pub fn id(&self) -> (r: u32)
        ensures
            r == self.id,
    {
        self.id
    }
}

/// Marks an entity whose position is sent to clients every tick.
#[derive(Debug, Clone, Copy, PartialEq, Eq, Structural)]
pub struct NetworkPosition;

/// One populated entity and the components it holds.
#[derive(Debug, Clone, Copy, PartialEq, Eq)]
pub struct EntityRecord {
    pub entity: Entity,
    pub transform: Option<Transform>,
    pub body: Option<KinematicBody>,
    pub collider: Option<Collider>,
    pub fixed: Option<FixedBody>,
    /// Whether the entity keeps a set of what it collides with.
    pub senses_collisions: bool,
    pub gravity: Option<Gravity>,
    pub grounded: Option<Grounded>,
    pub time_scale: Option<TimeScale>,
    pub health: Option<Health>,
    pub damage: Option<Damage>,
    pub ability: Option<Ability>,
    pub cooldown: Option<Cooldown>,
    pub effect: Option<Effect>,
    pub input: Option<Input>,
    pub connection: Option<Connection>,
    pub player: Option<Player>,
    pub ttl: Option<TimeToLive>,
    pub network_position: Option<NetworkPosition>,
    pub respawn: Option<RespawnTimer>,
    pub owned: Option<OwnedPlayer>,
    /// A cosmetic effect the entity shows on a client.
    pub cosmetic: Option<Cosmetic>,
}

/// Marks, on a client, the player that this client controls.
#[derive(Debug, Clone, Copy, PartialEq, Eq, Structural)]
pub struct OwnedPlayer;

impl EntityRecord {
    /// A record of `entity` that holds no component.
    pub fn empty(entity: Entity) -> (r: EntityRecord)
        ensures
            r == Self::empty_spec(entity),
    {
        EntityRecord {
            entity,
            transform: None,
            body: None,
            collider: None,
            fixed: None,
            senses_collisions: false,
            gravity: None,
            grounded: None,
            time_scale: None,
            health: None,
            damage: None,
            ability: None,
            cooldown: None,
            effect: None,
            input: None,
            connection: None,
            player: None,
            ttl: None,
            network_position: None,
            respawn: None,
            owned: None,
            cosmetic: None,
        }
    }

    pub open spec fn empty_spec(entity: Entity) -> EntityRecord {
        EntityRecord {
            entity,
            transform: None,
            body: None,
            collider: None,
            fixed: None,
            senses_collisions: false,
            gravity: None,
            grounded: None,
            time_scale: None,
            health: None,
            damage: None,
            ability: None,
            cooldown: None,
            effect: None,
            input: None,
            connection: None,
            player: None,
            ttl: None,
            network_position: None,
            respawn: None,
            owned: None,
            cosmetic: None,
        }
    }
}

/// The entities of one simulation, and the next identifier to hand out.
pub struct World {
    pub entities: Vec<EntityRecord>,
    pub next_id: u64,
}

/// No two records share an identifier.
pub open spec fn ids_unique(s: Seq<EntityRecord>) -> bool {
    forall|i: int, j: int| 0 <= i < s.len() && 0 <= j < s.len() && i != j ==> s[i].entity != s[j].entity
}

/// `e` is the identifier of a record of `s`.
pub open spec fn alive(s: Seq<EntityRecord>, e: Entity) -> bool {
    exists|i: int| 0 <= i < s.len() && s[i].entity == e
}

impl World {
    /// Identifiers are unique and all below `next_id`, so that every
    /// identifier handed out later is fresh.
    pub open spec fn wf(&self) -> bool {
        &&& ids_unique(self.entities@)
        &&& self.next_id <= u32::MAX + 1
        &&& forall|i: int| 0 <= i < self.entities@.len() ==> self.entities@[i].entity.id < self.next_id
    }

    /// An empty world.
    pub fn new() -> (w: World)
        ensures
            w.wf(),
            w.entities@.len() == 0,
    {
        World { entities: Vec::new(), next_id: 0 }
    }

    /// Position of `e`'s record, if it is alive.
    pub fn find(&self, e: Entity) -> (r: Option<usize>)
        ensures
            match r {
                Some(i) => i < self.entities@.len() && self.entities@[i as int].entity == e,
                None => !alive(self.entities@, e),
            },
    {
        let mut i: usize = 0;
        while i < self.entities.len()
            invariant
                i <= self.entities@.len(),
                forall|j: int| 0 <= j < i ==> self.entities@[j].entity != e,
            decreases self.entities@.len() - i,
        {
            if self.entities[i].entity == e {
                return Some(i);
            }
            i = i + 1;
        }
        None
    }

    /// Reserves a fresh identifier, to be populated later with `spawn_at`.
    /// Fails only when every identifier has been handed out.
    pub fn reserve_entity(&mut self) -> (r: Option<Entity>)
        requires
            old(self).wf(),
        ensures
            final(self).wf(),
            final(self).entities@ == old(self).entities@,
            final(self).next_id == (if old(self).next_id <= u32::MAX { old(self).next_id + 1 } else { old(self).next_id as int }),
            old(self).next_id <= u32::MAX ==> r == Some(Entity { id: old(self).next_id as u32 }),
            old(self).next_id > u32::MAX ==> r.is_none(),
            match r {
                Some(e) => !alive(old(self).entities@, e),
                None => true,
            },
    {
        if self.next_id <= u32::MAX as u64 {
            let e = Entity { id: self.next_id as u32 };
            self.next_id = self.next_id + 1;
            Some(e)
        } else {
            None
        }
    }

    /// Populates `record.entity`: replaces its record where it is alive,
    /// else adds the record.
    pub fn spawn_at(&mut self, record: EntityRecord)
        requires
            old(self).wf(),
        ensures
            final(self).wf(),
            final(self).next_id == (if record.entity.id >= old(self).next_id { record.entity.id + 1 } else { old(self).next_id as int }),
            alive(final(self).entities@, record.entity),
            alive(old(self).entities@, record.entity) ==> final(self).entities@.len() == old(self).entities@.len(),
            !alive(old(self).entities@, record.entity) ==> final(self).entities@ == old(self).entities@.push(record),
            forall|i: int| 0 <= i < final(self).entities@.len() && final(self).entities@[i].entity == record.entity
                ==> final(self).entities@[i] == record,
            forall|e: Entity| e != record.entity ==> (alive(final(self).entities@, e) == alive(old(self).entities@, e)),
            forall|r: EntityRecord| old(self).entities@.contains(r) && r.entity != record.entity ==> final(self).entities@.contains(r),
    {
        match self.find(record.entity) {
            Some(i) => {
                let ghost s0 = self.entities@;
                self.entities.set(i, record);
                assert forall|r: EntityRecord| s0.contains(r) && r.entity != record.entity implies self.entities@.contains(r) by {
                    let j = choose|j: int| 0 <= j < s0.len() && s0[j] == r;
                    assert(j != i);
                    assert(self.entities@[j] == r);
                }
                if (record.entity.id as u64) >= self.next_id {
                    self.next_id = record.entity.id as u64 + 1;
                }
                assert forall|e: Entity| e != record.entity implies (alive(self.entities@, e) == alive(old(self).entities@, e)) by {
                    if alive(old(self).entities@, e) {
                        let j = choose|j: int| 0 <= j < old(self).entities@.len() && old(self).entities@[j].entity == e;
                        assert(self.entities@[j].entity == e);
                    }
                    if alive(self.entities@, e) {
                        let j = choose|j: int| 0 <= j < self.entities@.len() && self.entities@[j].entity == e;
                        assert(old(self).entities@[j].entity == e);
                    }
                }
                assert(self.entities@[i as int].entity == record.entity);
            },
            None => {
                let ghost s0 = self.entities@;
                self.entities.push(record);
                assert forall|r: EntityRecord| s0.contains(r) && r.entity != record.entity implies self.entities@.contains(r) by {
                    let j = choose|j: int| 0 <= j < s0.len() && s0[j] == r;
                    assert(self.entities@[j] == r);
                }
                if (record.entity.id as u64) >= self.next_id {
                    self.next_id = record.entity.id as u64 + 1;
                }
                let ghost n = old(self).entities@.len();
                assert(self.entities@[n as int].entity == record.entity);
                assert forall|e: Entity| e != record.entity implies (alive(self.entities@, e) == alive(old(self).entities@, e)) by {
                    if alive(old(self).entities@, e) {
                        let j = choose|j: int| 0 <= j < old(self).entities@.len() && old(self).entities@[j].entity == e;
                        assert(self.entities@[j].entity == e);
                    }
                    if alive(self.entities@, e) {
                        let j = choose|j: int| 0 <= j < self.entities@.len() && self.entities@[j].entity == e;
                        assert(old(self).entities@[j].entity == e);
                    }
                }
            },
        }
    }

    /// Adds `record` under a fresh identifier, which it returns. Fails only
    /// when every identifier has been handed out.
    pub fn spawn(&mut self, record: EntityRecord) -> (r: Option<Entity>)
        requires
            old(self).wf(),
        ensures
            final(self).wf(),
            final(self).next_id == (if old(self).next_id <= u32::MAX { old(self).next_id + 1 } else { old(self).next_id as int }),
            old(self).next_id <= u32::MAX ==> r == Some(Entity { id: old(self).next_id as u32 }),
            old(self).next_id > u32::MAX ==> r.is_none() && final(self).entities@ == old(self).entities@,
            match r {
                Some(e) => final(self).entities@ == old(self).entities@.push(EntityRecord { entity: e, ..record }),
                None => true,
            },
    {
        match self.reserve_entity() {
            Some(e) => {
                self.spawn_at(EntityRecord { entity: e, ..record });
                Some(e)
            },
            None => None,
        }
    }

    /// Removes `e`'s record; false where it was not alive.
    pub fn despawn(&mut self, e: Entity) -> (found: bool)
        requires
            old(self).wf(),
        ensures
            final(self).wf(),
            found == alive(old(self).entities@, e),
            final(self).next_id == old(self).next_id,
            !alive(final(self).entities@, e),
            forall|f: Entity| f != e ==> (alive(final(self).entities@, f) == alive(old(self).entities@, f)),
            forall|r: EntityRecord| r.entity != e ==> (old(self).entities@.contains(r) == final(self).entities@.contains(r)),
            !found ==> final(self).entities@ == old(self).entities@,
            found ==> final(self).entities@.len() == old(self).entities@.len() - 1,
            forall|r: EntityRecord| final(self).entities@.contains(r) ==> old(self).entities@.contains(r),
    {
        match self.find(e) {
            Some(i) => {
                let ghost s = self.entities@;
                self.entities.remove(i);
                assert(self.entities@ == s.remove(i as int));
                assert forall|f: Entity| f != e implies (alive(self.entities@, f) == alive(s, f)) by {
                    if alive(s, f) {
                        let j = choose|j: int| 0 <= j < s.len() && s[j].entity == f;
                        if j < i {
                            assert(self.entities@[j].entity == f);
                        } else {
                            assert(self.entities@[j - 1].entity == f);
                        }
                    }
                    if alive(self.entities@, f) {
                        let j = choose|j: int| 0 <= j < self.entities@.len() && self.entities@[j].entity == f;
                        if j < i {
                            assert(s[j].entity == f);
                        } else {
                            assert(s[j + 1].entity == f);
                        }
                    }
                }
                assert forall|r: EntityRecord| r.entity != e implies (s.contains(r) == self.entities@.contains(r)) by {
                    if s.contains(r) {
                        let j = choose|j: int| 0 <= j < s.len() && s[j] == r;
                        if j < i {
                            assert(self.entities@[j] == r);
                        } else {
                            assert(j != i);
                            assert(self.entities@[j - 1] == r);
                        }
                    }
                    if self.entities@.contains(r) {
                        let j = choose|j: int| 0 <= j < self.entities@.len() && self.entities@[j] == r;
                        if j < i {
                            assert(s[j] == r);
                        } else {
                            assert(s[j + 1] == r);
                        }
                    }
                }
                proof {
                    assert forall|r: EntityRecord| self.entities@.contains(r) implies s.contains(r) by {
                        let j = choose|j: int| 0 <= j < self.entities@.len() && self.entities@[j] == r;
                        if j < i {
                            assert(s[j] == r);
                        } else {
                            assert(s[j + 1] == r);
                        }
                    }
                    if alive(self.entities@, e) {
                        let j = choose|j: int| 0 <= j < self.entities@.len() && self.entities@[j].entity == e;
                        if j < i {
                            assert(s[j].entity == e);
                        } else {
                            assert(s[j + 1].entity == e);
                        }
                    }
                }
                true
            },
            None => false,
        }
    }
}

} // verus!
