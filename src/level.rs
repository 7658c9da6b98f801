use vstd::prelude::*;

use crate::health::Health;
use crate::math::Vec2;
use crate::physics::{Collider, FixedBody, Transform};
use crate::world::{ids_unique, EntityRecord, World};

verus! {

/// Height below which an entity has fallen off the arena.
pub const VOID_DEPTH: i32 = -1000;

/// The record of a platform `width` wide centred at `pos`.
pub open spec fn platform_record(e: crate::world::Entity, pos: Vec2, width: u32) -> EntityRecord {
    EntityRecord {
        collider: Some(Collider::Rect { width, height: 20 }),
        fixed: Some(FixedBody),
        transform: Some(Transform { translation: pos, rotation: 0 }),
        ..EntityRecord::empty_spec(e)
    }
}

fn platform(world: &mut World, x: i32, y: i32, width: u32)
    requires
        old(world).wf(),
    ensures
        final(world).wf(),
        final(world).entities@.len() >= old(world).entities@.len(),
        forall|i: int| 0 <= i < old(world).entities@.len() ==> final(world).entities@[i] == old(world).entities@[i],
        old(world).next_id <= u32::MAX ==> final(world).entities@ == old(world).entities@.push(
            platform_record(crate::world::Entity { id: old(world).next_id as u32 }, Vec2 { x, y }, width),
        ),
{
    let rec = EntityRecord {
        collider: Some(Collider::rect(width, 20)),
        fixed: Some(FixedBody),
        transform: Some(Transform { translation: Vec2 { x, y }, rotation: 0 }),
        ..EntityRecord::empty(crate::world::Entity { id: 0 })
    };
    let _ = world.spawn(rec);
}

/// Adds the arena's platforms.
pub fn instantiate(world: &mut World)
    requires
        old(world).wf(),
    ensures
        final(world).wf(),
        forall|i: int| 0 <= i < old(world).entities@.len() ==> final(world).entities@[i] == old(world).entities@[i],
{
    platform(world, 125, 130, 275);
    platform(world, 500, 200, 300);
    platform(world, 400, 500, 500);
    platform(world, 800, 50, 400);
    platform(world, 1200, 350, 200);
    platform(world, 950, 250, 250);
    platform(world, 850, 400, 100);
}

/// `r` after the void check: an entity with health below the void loses
/// all of it.
pub open spec fn void_step(r: EntityRecord) -> EntityRecord {
    match (r.health, r.transform) {
        (Some(h), Some(t)) => if t.translation.y < VOID_DEPTH {
            EntityRecord { health: Some(Health { now: 0, ..h }), ..r }
        } else {
            r
        },
        _ => r,
    }
}

/// Kills every entity with health that fell below the arena.
pub fn void_damage(world: &mut World)
    requires
        old(world).wf(),
    ensures
        final(world).wf(),
        final(world).entities@.len() == old(world).entities@.len(),
        forall|i: int| 0 <= i < old(world).entities@.len() ==> final(world).entities@[i] == void_step(old(world).entities@[i]),
{
    let ghost s = world.entities@;
    let n = world.entities.len();
    let mut i: usize = 0;
    while i < n
        invariant
            s == old(world).entities@,
            ids_unique(s),
            n == s.len(),
            world.next_id == old(world).next_id,
            world.next_id <= u32::MAX + 1,
            n == world.entities@.len(),
            i <= n,
            forall|k: int| 0 <= k < s.len() ==> s[k].entity.id < world.next_id,
            forall|k: int| 0 <= k < i ==> world.entities@[k] == void_step(s[k]),
            forall|k: int| i <= k < n ==> world.entities@[k] == s[k],
        decreases n - i,
    {
        let r = world.entities[i];
        match (r.health, r.transform) {
            (Some(h), Some(t)) => {
                if t.translation.y < VOID_DEPTH {
                    world.entities.set(i, EntityRecord { health: Some(Health { now: 0, ..h }), ..r });
                }
            },
            _ => {},
        }
        i = i + 1;
    }
    proof {
        let w = world.entities@;
        assert forall|a: int, b: int| 0 <= a < w.len() && 0 <= b < w.len() && a != b implies w[a].entity != w[b].entity by {
            assert(w[a].entity == s[a].entity);
            assert(w[b].entity == s[b].entity);
        }
        assert forall|a: int| 0 <= a < w.len() implies w[a].entity.id < world.next_id by {
            assert(w[a].entity == s[a].entity);
        }
    }
}

} // verus!
