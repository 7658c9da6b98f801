use vstd::prelude::*;

use crate::ability::{cool, gun_fires, gun_step, index_of, lemma_index_of, owner_input, Cooldown, Effect, Gun, GunKind};
use crate::bullet::TimeToLive;
use crate::health::Damage;
use crate::input::{axis_value, Input};
use crate::math::{abs, clamp_i32, div_toward_zero, saturate_i32, trunc_div, Vec2};
use crate::physics::lemma_trunc_div_bound;
use crate::net::{Outbound, Packet};
use crate::physics::{Collider, KinematicBody, Transform};
use crate::time::Time;
use crate::effects::{cooldown_msgs, cooldown_notice};
use crate::world::{alive, ids_unique, Entity, EntityRecord, World};

verus! {

/// What one trigger of a gun produces.
#[derive(Debug, Clone, Copy, PartialEq, Eq, Structural)]
pub struct GunStats {
    /// Projectiles per shot.
    pub pellets: u32,
    /// Largest deviation of a projectile from the aim, in milliradians.
    pub spread: i32,
    /// Projectile speed at full aim, in units per second.
    pub speed: i32,
    /// Damage of each projectile.
    pub damage: u32,
    /// Lifetime of each projectile, in milliseconds.
    pub ttl: u32,
    /// Push on the shooter against the aim, at full aim.
    pub recoil: i32,
}

pub open spec fn stats_of(kind: GunKind) -> GunStats {
    match kind {
        GunKind::Shotgun => GunStats { pellets: 10, spread: 50, speed: 1500, damage: 5, ttl: 300, recoil: 250 },
        GunKind::AssaultRifle => GunStats { pellets: 1, spread: 25, speed: 2000, damage: 2, ttl: 1000, recoil: 0 },
        GunKind::DualGun => GunStats { pellets: 1, spread: 5, speed: 1500, damage: 5, ttl: 1000, recoil: 0 },
    }
}

/// The stats of a kind of gun.
pub fn stats(kind: GunKind) -> (r: GunStats)
    ensures
        r == stats_of(kind),
{
    match kind {
        GunKind::Shotgun => GunStats { pellets: 10, spread: 50, speed: 1500, damage: 5, ttl: 300, recoil: 250 },
        GunKind::AssaultRifle => GunStats { pellets: 1, spread: 25, speed: 2000, damage: 2, ttl: 1000, recoil: 0 },
        GunKind::DualGun => GunStats { pellets: 1, spread: 5, speed: 1500, damage: 5, ttl: 1000, recoil: 0 },
    }
}

/// The gun's own cooldown after each shot.
pub fn gun_of(kind: GunKind) -> (g: Gun)
    ensures
        g.kind == kind,
        g.cooldown == Cooldown(match kind {
            GunKind::Shotgun => 1500u32,
            GunKind::AssaultRifle => 70u32,
            GunKind::DualGun => 200u32,
        }),
{
    let ms: u32 = match kind {
        GunKind::Shotgun => 1500,
        GunKind::AssaultRifle => 70,
        GunKind::DualGun => 200,
    };
    Gun { cooldown: Cooldown(ms), kind }
}

/// Velocity of a projectile: `speed` scaled by the aim axes, turned by
/// `spread` milliradians (to first order: the perpendicular is added in
/// proportion).
pub open spec fn pellet_velocity(aim: Input, speed: int, spread: int) -> Vec2 {
    let bx = trunc_div(speed * axis_value(aim.ax), 127);
    let by = trunc_div(speed * axis_value(aim.ay), 127);
    Vec2 {
        x: clamp_i32(bx - trunc_div(spread * by, 1000)) as i32,
        y: clamp_i32(by + trunc_div(spread * bx, 1000)) as i32,
    }
}

/// Executable `pellet_velocity`.
pub fn pellet_velocity_exec(aim: &Input, speed: i32, spread: i32) -> (v: Vec2)
    ensures
        v == pellet_velocity(*aim, speed as int, spread as int),
{
    let ax = aim.ax() as i128;
    let ay = aim.ay() as i128;
    proof {
        assert(abs((speed as int) * ax) <= 0x8000_0000 * 127) by (nonlinear_arith)
            requires
                -0x8000_0000 <= speed < 0x8000_0000,
                -127 <= ax <= 127,
        ;
        assert(abs((speed as int) * ay) <= 0x8000_0000 * 127) by (nonlinear_arith)
            requires
                -0x8000_0000 <= speed < 0x8000_0000,
                -127 <= ay <= 127,
        ;
    }
    let bx = div_toward_zero(speed as i128 * ax, 127);
    let by = div_toward_zero(speed as i128 * ay, 127);
    proof {
        lemma_trunc_div_bound((speed as int) * ax, 127, 0x8000_0000);
        lemma_trunc_div_bound((speed as int) * ay, 127, 0x8000_0000);
        assert(abs((spread as int) * by) <= 0x4000_0000_0000_0000 * 1000) by (nonlinear_arith)
            requires
                -0x8000_0000 <= spread < 0x8000_0000,
                abs(by as int) <= 0x8000_0000,
        ;
        assert(abs((spread as int) * bx) <= 0x4000_0000_0000_0000 * 1000) by (nonlinear_arith)
            requires
                -0x8000_0000 <= spread < 0x8000_0000,
                abs(bx as int) <= 0x8000_0000,
        ;
        lemma_trunc_div_bound((spread as int) * by, 1000, 0x4000_0000_0000_0000);
        lemma_trunc_div_bound((spread as int) * bx, 1000, 0x4000_0000_0000_0000);
    }
    let tx = div_toward_zero(spread as i128 * by, 1000);
    let ty = div_toward_zero(spread as i128 * bx, 1000);
    Vec2 { x: saturate_i32(bx - tx), y: saturate_i32(by + ty) }
}

/// Relies on fastrand::i32 (global generator): the value lies in the
/// inclusive range given, which must not be empty.
#[verifier::external_body]
fn random_in(low: i32, high: i32) -> (r: i32)
    requires
        low <= high,
    ensures
        low <= r <= high,
{
    fastrand::i32(low..=high)
}

/// A gun that fired this tick.
#[derive(Debug, Clone, Copy, PartialEq, Eq, Structural)]
pub struct Shot {
    pub owner: Entity,
    pub binding: usize,
    pub origin: Vec2,
    pub aim: Input,
    pub gun: Gun,
}

/// Position of the owner `e`, where it is alive and has one.
pub open spec fn owner_position(s: Seq<EntityRecord>, e: Entity) -> Option<Vec2> {
    if alive(s, e) {
        match s[index_of(s, e)].transform {
            Some(t) => Some(t.translation),
            None => None,
        }
    } else {
        None
    }
}

/// `r` after one tick of its gun, where its owner has an input and a
/// position.
pub open spec fn gun_record_step(s: Seq<EntityRecord>, r: EntityRecord, dt: u32) -> EntityRecord {
    match (r.ability, r.effect, r.cooldown, owner_position(s, r.ability.unwrap().owner)) {
        (Some(a), Some(Effect::Gun(g)), Some(c), Some(_)) => match owner_input(s, a.owner) {
            Some(inp) => EntityRecord {
                cooldown: Some(
                    if gun_fires(c, a.active, inp.button_spec(4), dt) {
                        g.cooldown
                    } else {
                        Cooldown(cool(c.0, dt))
                    },
                ),
                ..r
            },
            None => r,
        },
        _ => r,
    }
}

/// Shots fired by the guns among the first `n` records of `s`, in order.
pub open spec fn shots_of(s: Seq<EntityRecord>, dt: u32, n: nat) -> Seq<Shot>
    decreases n,
{
    if n == 0 || n > s.len() {
        Seq::empty()
    } else {
        let prev = shots_of(s, dt, (n - 1) as nat);
        let r = s[n - 1];
        match (r.ability, r.effect, r.cooldown, owner_position(s, r.ability.unwrap().owner)) {
            (Some(a), Some(Effect::Gun(g)), Some(c), Some(p)) => match owner_input(s, a.owner) {
                Some(inp) => if gun_fires(c, a.active, inp.button_spec(4), dt) {
                    prev.push(Shot { owner: a.owner, binding: a.binding, origin: p, aim: inp, gun: g })
                } else {
                    prev
                },
                None => prev,
            },
            _ => prev,
        }
    }
}

/// Runs every gun's cooldown down and fires the guns that are active,
/// ready and triggered, restarting their cooldown; a shot leaves from the
/// owner's position. Guns whose owner has no input or no position are left
/// as they are. Returns the shots, in order.
pub fn gun_triggers(world: &mut World, dt: u32) -> (r: Vec<Shot>)
    requires
        old(world).wf(),
    ensures
        final(world).wf(),
        final(world).next_id == old(world).next_id,
        final(world).entities@.len() == old(world).entities@.len(),
        forall|i: int| 0 <= i < old(world).entities@.len()
            ==> final(world).entities@[i] == gun_record_step(old(world).entities@, old(world).entities@[i], dt),
        r@ == shots_of(old(world).entities@, dt, old(world).entities@.len()),
{
    let ghost s = world.entities@;
    let n = world.entities.len();
    let mut shots: Vec<Shot> = Vec::new();
    let mut i: usize = 0;
    while i < n
        invariant
            s == old(world).entities@,
            ids_unique(s),
            n == s.len(),
            world.next_id == old(world).next_id,
            world.next_id <= u32::MAX + 1,
            n == world.entities@.len(),
            i <= n,
            forall|k: int| 0 <= k < s.len() ==> s[k].entity.id < world.next_id,
            forall|k: int| 0 <= k < i ==> world.entities@[k] == gun_record_step(s, s[k], dt),
            forall|k: int| i <= k < n ==> world.entities@[k] == s[k],
            forall|k: int| 0 <= k < n ==> world.entities@[k].entity == s[k].entity && world.entities@[k].input == s[k].input
                && world.entities@[k].transform == s[k].transform,
            shots@ == shots_of(s, dt, i as nat),
        decreases n - i,
    {
        let r = world.entities[i];
        match (r.ability, r.effect, r.cooldown) {
            (Some(a), Some(Effect::Gun(g)), Some(c)) => {
                match world.find(a.owner) {
                    Some(k) => {
                        proof {
                            lemma_index_of(s, k as int);
                        }
                        let o = world.entities[k];
                        match (o.input, o.transform) {
                            (Some(inp), Some(t)) => {
                                let (c2, fired) = gun_step(c, g, a.active, inp.fire(), dt);
                                world.entities.set(i, EntityRecord { cooldown: Some(c2), ..r });
                                if fired {
                                    shots.push(Shot { owner: a.owner, binding: a.binding, origin: t.translation, aim: inp, gun: g });
                                }
                            },
                            _ => {},
                        }
                    },
                    None => {
                        proof {
                            if alive(s, a.owner) {
                                let k = choose|k: int| 0 <= k < s.len() && s[k].entity == a.owner;
                                assert(world.entities@[k].entity == a.owner);
                            }
                        }
                    },
                }
            },
            _ => {},
        }
        i = i + 1;
    }
    proof {
        let w = world.entities@;
        assert forall|a: int, b: int| 0 <= a < w.len() && 0 <= b < w.len() && a != b implies w[a].entity != w[b].entity by {
            assert(w[a].entity == s[a].entity);
            assert(w[b].entity == s[b].entity);
        }
        assert forall|a: int| 0 <= a < w.len() implies w[a].entity.id < world.next_id by {
            assert(w[a].entity == s[a].entity);
        }
    }
    shots
}

/// The record of a projectile fired by `owner` from `origin`.
pub open spec fn projectile(id: Entity, owner: Entity, origin: Vec2, velocity: Vec2, st: GunStats) -> EntityRecord {
    EntityRecord {
        transform: Some(Transform { translation: origin, rotation: 0 }),
        body: Some(KinematicBody { velocity }),
        collider: Some(Collider::Circle { radius: 3 }),
        senses_collisions: true,
        damage: Some(Damage { amount: st.damage, exclude: Some(owner), destroy: true }),
        ttl: Some(TimeToLive::Millis(st.ttl)),
        ..EntityRecord::empty_spec(id)
    }
}

/// Cooldowns longer than this are announced to the owner's client.
pub const IMPATIENCE: u32 = 700;

/// `rec` is a projectile of `shot` under an identifier from `first_id` on,
/// turned by a spread within the gun's limit.
pub open spec fn projectile_of_shot(rec: EntityRecord, shot: Shot, first_id: nat) -> bool {
    let st = stats_of(shot.gun.kind);
    &&& rec.entity.id >= first_id
    &&& exists|sp: int| -st.spread <= sp <= st.spread
        && rec == projectile(rec.entity, shot.owner, shot.origin, pellet_velocity(shot.aim, st.speed as int, sp), st)
}

/// Velocity `v` after the recoil of a shot aimed by `aim` with strength
/// `recoil`: pushed against the aim.
pub open spec fn recoiled(v: Vec2, aim: Input, recoil: int) -> Vec2 {
    let push = pellet_velocity(aim, recoil, 0);
    Vec2 { x: clamp_i32(v.x - push.x) as i32, y: clamp_i32(v.y - push.y) as i32 }
}

/// The notice of a long cooldown that a shot sends its owner's client.
pub open spec fn shot_notice(s: Seq<EntityRecord>, shot: Shot) -> Seq<Outbound> {
    if shot.gun.cooldown.0 > IMPATIENCE {
        cooldown_msgs(s, shot.owner, shot.binding, shot.gun.cooldown.0)
    } else {
        Seq::empty()
    }
}

/// The broadcast of a projectile of `shot` moving at `v`.
pub open spec fn projectile_notice(shot: Shot, v: Vec2) -> Outbound {
    Outbound::Broadcast(Packet::ProjectileSpawn { origin: shot.origin, velocity: v, ttl: stats_of(shot.gun.kind).ttl })
}

/// Fires `shot`: adds its projectiles, each turned by its own random spread
/// within the gun's limit, broadcasts each, pushes the shooter back by the
/// gun's recoil, and tells the owner's client of a long cooldown.
pub fn fire(world: &mut World, shot: Shot) -> (r: Vec<Outbound>)
    requires
        old(world).wf(),
    ensures
        final(world).wf(),
        final(world).entities@.len() >= old(world).entities@.len(),
        forall|k: int| old(world).entities@.len() <= k < final(world).entities@.len()
            ==> projectile_of_shot(#[trigger] final(world).entities@[k], shot, old(world).next_id as nat),
        old(world).next_id + stats_of(shot.gun.kind).pellets <= u32::MAX + 1
            ==> final(world).entities@.len() == old(world).entities@.len() + stats_of(shot.gun.kind).pellets,
        forall|e: Entity| alive(old(world).entities@, e) ==> alive(final(world).entities@, e),
        forall|k: int| 0 <= k < old(world).entities@.len()
            ==> #[trigger] final(world).entities@[k] == (EntityRecord { body: final(world).entities@[k].body, ..old(world).entities@[k] }),
        forall|k: int| 0 <= k < old(world).entities@.len() && old(world).entities@[k].entity != shot.owner
            ==> #[trigger] final(world).entities@[k] == old(world).entities@[k],
        forall|k: int| 0 <= k < old(world).entities@.len() && old(world).entities@[k].entity == shot.owner
            ==> #[trigger] final(world).entities@[k] == (if stats_of(shot.gun.kind).recoil > 0 && old(world).entities@[k].body is Some {
                EntityRecord {
                    body: Some(KinematicBody {
                        velocity: recoiled(old(world).entities@[k].body.unwrap().velocity, shot.aim, stats_of(shot.gun.kind).recoil as int),
                    }),
                    ..old(world).entities@[k]
                }
            } else {
                old(world).entities@[k]
            }),
        final(world).next_id == (if old(world).next_id + stats_of(shot.gun.kind).pellets <= u32::MAX + 1 {
            old(world).next_id + stats_of(shot.gun.kind).pellets
        } else {
            u32::MAX + 1
        }),
        ({
            let cd = shot_notice(old(world).entities@, shot);
            let n0 = old(world).entities@.len();
            &&& r@.len() == cd.len() + final(world).entities@.len() - n0
            &&& r@.subrange(0, cd.len() as int) == cd
            &&& forall|k: int| n0 <= k < final(world).entities@.len()
                ==> r@[cd.len() + k - n0] == projectile_notice(shot, (#[trigger] final(world).entities@[k]).body.unwrap().velocity)
        }),
{
    let st = stats(shot.gun.kind);
    let mut out: Vec<Outbound> = Vec::new();
    if shot.gun.cooldown.0 > IMPATIENCE {
        match cooldown_notice(world, shot.owner, shot.binding, shot.gun.cooldown.0) {
            Some(m) => {
                out.push(m);
            },
            None => {},
        }
    }
    let ghost cd = out@;
    assert(cd =~= shot_notice(old(world).entities@, shot));
    let base = world.entities.len();
    let ghost n0 = world.entities@.len();
    let ghost id0 = world.next_id;
    let mut p: u32 = 0;
    while p < st.pellets
        invariant
            world.wf(),
            st == stats_of(shot.gun.kind),
            p <= st.pellets,
            world.entities@.len() >= old(world).entities@.len(),
            n0 == old(world).entities@.len(),
            id0 == old(world).next_id,
            forall|k: int| 0 <= k < n0 ==> world.entities@[k] == old(world).entities@[k],
            forall|k: int| n0 <= k < world.entities@.len() ==> projectile_of_shot(#[trigger] world.entities@[k], shot, id0 as nat),
            world.next_id == (if id0 + p <= u32::MAX + 1 { id0 + p } else { u32::MAX + 1 }),
            id0 + p <= u32::MAX + 1 ==> world.entities@.len() == n0 + p,
            base == n0,
            out@.len() == cd.len() + world.entities@.len() - n0,
            out@.subrange(0, cd.len() as int) == cd,
            forall|k: int| n0 <= k < world.entities@.len()
                ==> out@[cd.len() + k - n0] == projectile_notice(shot, (#[trigger] world.entities@[k]).body.unwrap().velocity),
        decreases st.pellets - p,
    {
        let sp = random_in(-st.spread, st.spread);
        let v = pellet_velocity_exec(&shot.aim, st.speed, sp);
        let ghost before = world.entities@;
        let rec = EntityRecord {
            transform: Some(Transform { translation: shot.origin, rotation: 0 }),
            body: Some(KinematicBody { velocity: v }),
            collider: Some(Collider::circle(3)),
            senses_collisions: true,
            damage: Some(Damage { amount: st.damage, exclude: Some(shot.owner), destroy: true }),
            ttl: Some(TimeToLive::Millis(st.ttl)),
            ..EntityRecord::empty(shot.owner)
        };
        match world.spawn(rec) {
            Some(id) => {
                let last = (world.entities.len() - 1) as usize;
                assert(world.entities@[last as int] == projectile(id, shot.owner, shot.origin, v, st));
                assert(-st.spread <= sp <= st.spread && v == pellet_velocity(shot.aim, st.speed as int, sp as int));
                assert(projectile_of_shot(world.entities@[last as int], shot, id0 as nat));
                assert forall|k: int| n0 <= k < world.entities@.len() implies projectile_of_shot(#[trigger] world.entities@[k], shot, id0 as nat) by {
                    if k < last {
                        assert(world.entities@[k] == before[k]);
                    }
                }
                let ghost po = out@;
                out.push(Outbound::Broadcast(Packet::ProjectileSpawn { origin: shot.origin, velocity: v, ttl: st.ttl }));
                proof {
                    assert(out@.subrange(0, cd.len() as int) =~= po.subrange(0, cd.len() as int));
                    assert forall|k: int| n0 <= k < world.entities@.len()
                        implies out@[cd.len() + k - n0] == projectile_notice(shot, (#[trigger] world.entities@[k]).body.unwrap().velocity) by {
                        if k < last {
                            assert(world.entities@[k] == before[k]);
                            assert(out@[cd.len() + k - n0] == po[cd.len() + k - n0]);
                        }
                    }
                }
            },
            None => {},
        }
        p = p + 1;
    }
    let ghost pre = world.entities@;
    if st.recoil > 0 {
        match world.find(shot.owner) {
            Some(k) => {
                let pr = world.entities[k];
                proof {
                    assert forall|k2: int| 0 <= k2 < n0 && old(world).entities@[k2].entity == shot.owner implies k2 == k by {
                        assert(pre[k2] == old(world).entities@[k2]);
                    }
                }
                match if k < base { pr.body } else { None } {
                    Some(b) => {
                        let push = pellet_velocity_exec(&shot.aim, st.recoil, 0);
                        let nv = Vec2 {
                            x: saturate_i32(b.velocity.x as i128 - push.x as i128),
                            y: saturate_i32(b.velocity.y as i128 - push.y as i128),
                        };
                        let ghost before = world.entities@;
                        world.entities.set(k, EntityRecord { body: Some(KinematicBody { velocity: nv }), ..pr });
                        proof {
                            let w = world.entities@;
                            assert forall|a: int, b: int| 0 <= a < w.len() && 0 <= b < w.len() && a != b implies w[a].entity != w[b].entity by {
                                assert(w[a].entity == before[a].entity);
                                assert(w[b].entity == before[b].entity);
                            }
                            assert forall|a: int| 0 <= a < w.len() implies w[a].entity.id < world.next_id by {
                                assert(w[a].entity == before[a].entity);
                            }
                        }
                    },
                    None => {},
                }
            },
            None => {},
        }
    }
    proof {
        assert forall|k: int| 0 <= k < old(world).entities@.len()
            implies #[trigger] world.entities@[k] == EntityRecord { body: world.entities@[k].body, ..old(world).entities@[k] } by {
            assert(world.entities@[k].entity == old(world).entities@[k].entity);
        }
        assert forall|e: Entity| alive(old(world).entities@, e) implies alive(world.entities@, e) by {
            let k = choose|k: int| 0 <= k < old(world).entities@.len() && old(world).entities@[k].entity == e;
            assert(world.entities@[k].entity == e);
        }
    }
    out
}

/// Projectiles of the first `k` shots.
pub open spec fn pellets_total(shots: Seq<Shot>, k: nat) -> nat
    decreases k,
{
    if k == 0 || k > shots.len() {
        0
    } else {
        (pellets_total(shots, (k - 1) as nat) + stats_of(shots[k - 1].gun.kind).pellets) as nat
    }
}

proof fn lemma_shot_owners_alive(s: Seq<EntityRecord>, dt: u32, n: nat)
    requires
        n <= s.len(),
    ensures
        forall|q: int| 0 <= q < shots_of(s, dt, n).len() ==> alive(s, (#[trigger] shots_of(s, dt, n)[q]).owner),
    decreases n,
{
    if n > 0 {
        lemma_shot_owners_alive(s, dt, (n - 1) as nat);
        let prev = shots_of(s, dt, (n - 1) as nat);
        assert forall|q: int| 0 <= q < shots_of(s, dt, n).len() implies alive(s, (#[trigger] shots_of(s, dt, n)[q]).owner) by {
            if q < prev.len() {
                assert(shots_of(s, dt, n)[q] == prev[q]);
            }
        }
    }
}

proof fn lemma_notice_stable(s: Seq<EntityRecord>, t: Seq<EntityRecord>, shot: Shot)
    requires
        ids_unique(s),
        ids_unique(t),
        t.len() >= s.len(),
        forall|i: int| 0 <= i < s.len() ==> t[i].entity == s[i].entity && t[i].connection == s[i].connection,
        alive(s, shot.owner),
    ensures
        shot_notice(t, shot) == shot_notice(s, shot),
{
    let j = choose|j: int| 0 <= j < s.len() && s[j].entity == shot.owner;
    assert(t[j].entity == shot.owner);
    crate::ability::lemma_index_of(s, j);
    crate::ability::lemma_index_of(t, j);
}

/// The contract of `gun_controller`, as a relation between the records before
/// (`s`) and after (`t`) and the messages `r`.
pub open spec fn gun_rel(s: Seq<EntityRecord>, sn: u64, t: Seq<EntityRecord>, r: Seq<Outbound>, dt: u32) -> bool {
    &&& (t.len() >= s.len())
    &&& (forall|i: int| 0 <= i < s.len() ==> (#[trigger] t[i]).cooldown
            == gun_record_step(s, s[i], dt).cooldown)
    &&& (({
            let shots = shots_of(s, dt, s.len());
            let n0 = s.len();
            &&& sn + pellets_total(shots, shots.len()) <= u32::MAX + 1
                ==> t.len() == n0 + pellets_total(shots, shots.len())
            &&& forall|k: int| n0 <= k < t.len() ==> exists|q: int| 0 <= q < shots.len()
                && projectile_of_shot(#[trigger] t[k], shots[q], sn as nat)
                && r.contains(projectile_notice(shots[q], t[k].body.unwrap().velocity))
            &&& forall|q: int, x: int| 0 <= q < shots.len() && 0 <= x < shot_notice(s, shots[q]).len()
                ==> r.contains(#[trigger] shot_notice(s, shots[q])[x])
        }))
}

/// The guns of one tick: `gun_triggers`, then `fire` for each shot in
/// order. Every gun's cooldown ends as `gun_record_step` gives it; each
/// shot adds its gun's number of projectiles (as long as identifiers
/// remain), every new record is a projectile of one of the shots, each is
/// broadcast, and each shot's long-cooldown notice is sent.
pub fn gun_controller(world: &mut World, time: &Time) -> (r: Vec<Outbound>)
    requires
        old(world).wf(),
    ensures
        final(world).wf(),
        final(world).entities@.len() >= old(world).entities@.len(),
        forall|i: int| 0 <= i < old(world).entities@.len() ==> (#[trigger] final(world).entities@[i]).cooldown
            == gun_record_step(old(world).entities@, old(world).entities@[i], time.dt_spec()).cooldown,
        ({
            let shots = shots_of(old(world).entities@, time.dt_spec(), old(world).entities@.len());
            let n0 = old(world).entities@.len();
            &&& old(world).next_id + pellets_total(shots, shots.len()) <= u32::MAX + 1
                ==> final(world).entities@.len() == n0 + pellets_total(shots, shots.len())
            &&& forall|k: int| n0 <= k < final(world).entities@.len() ==> exists|q: int| 0 <= q < shots.len()
                && projectile_of_shot(#[trigger] final(world).entities@[k], shots[q], old(world).next_id as nat)
                && r@.contains(projectile_notice(shots[q], final(world).entities@[k].body.unwrap().velocity))
            &&& forall|q: int, x: int| 0 <= q < shots.len() && 0 <= x < shot_notice(old(world).entities@, shots[q]).len()
                ==> r@.contains(#[trigger] shot_notice(old(world).entities@, shots[q])[x])
        }),
{
    let dt = time.dt_ms();
    let shots = gun_triggers(world, dt);
    let ghost mid = world.entities@;
    let ghost id0 = world.next_id;
    proof {
        lemma_shot_owners_alive(old(world).entities@, dt, old(world).entities@.len());
    }
    let mut out: Vec<Outbound> = Vec::new();
    let mut k: usize = 0;
    while k < shots.len()
        invariant
            world.wf(),
            k <= shots@.len(),
            shots@ == shots_of(old(world).entities@, dt, old(world).entities@.len()),
            forall|q: int| 0 <= q < shots@.len() ==> alive(old(world).entities@, (#[trigger] shots@[q]).owner),
            forall|q: int| 0 <= q < old(world).entities@.len() ==> old(world).entities@[q].entity.id < id0,
            id0 == old(world).next_id,
            world.entities@.len() >= mid.len(),
            mid.len() == old(world).entities@.len(),
            forall|i: int| 0 <= i < mid.len() ==> (#[trigger] world.entities@[i]).cooldown == mid[i].cooldown,
            forall|i: int| 0 <= i < mid.len() ==> mid[i] == gun_record_step(old(world).entities@, old(world).entities@[i], dt),
            dt == time.dt_spec(),
            world.next_id == (if id0 + pellets_total(shots@, k as nat) <= u32::MAX + 1 {
                (id0 + pellets_total(shots@, k as nat)) as int
            } else {
                u32::MAX + 1
            }),
            id0 + pellets_total(shots@, k as nat) <= u32::MAX + 1 ==> world.entities@.len() == mid.len() + pellets_total(shots@, k as nat),
            forall|j: int| mid.len() <= j < world.entities@.len() ==> exists|q: int| 0 <= q < k
                && projectile_of_shot(#[trigger] world.entities@[j], shots@[q], id0 as nat)
                && out@.contains(projectile_notice(shots@[q], world.entities@[j].body.unwrap().velocity)),
            forall|i: int| 0 <= i < mid.len() ==> world.entities@[i].entity == old(world).entities@[i].entity
                && world.entities@[i].connection == old(world).entities@[i].connection,
            ids_unique(old(world).entities@),
            forall|q: int, x: int| 0 <= q < k && 0 <= x < shot_notice(old(world).entities@, shots@[q]).len()
                ==> out@.contains(#[trigger] shot_notice(old(world).entities@, shots@[q])[x]),
        decreases shots@.len() - k,
    {
        let ghost before = world.entities@;
        let ghost prev = out@;
        let shot = shots[k];
        let mut more = fire(world, shot);
        let ghost added = more@;
        out.append(&mut more);
        proof {
            let o = shot.owner;
            let oi = choose|q: int| 0 <= q < old(world).entities@.len() && old(world).entities@[q].entity == o;
            assert(o.id < id0);
            assert forall|i: int| 0 <= i < mid.len() implies (#[trigger] world.entities@[i]).cooldown == mid[i].cooldown by {
                assert(world.entities@[i] == EntityRecord { body: world.entities@[i].body, ..before[i] });
            }
            let cd = shot_notice(before, shot);
            assert forall|i: int| 0 <= i < mid.len() implies world.entities@[i].entity == old(world).entities@[i].entity
                && world.entities@[i].connection == old(world).entities@[i].connection by {
                assert(world.entities@[i] == EntityRecord { body: world.entities@[i].body, ..before[i] });
            }
            assert forall|i: int| 0 <= i < old(world).entities@.len() implies before[i].entity == old(world).entities@[i].entity
                && before[i].connection == old(world).entities@[i].connection by {}
            lemma_notice_stable(old(world).entities@, before, shot);
            assert(shots@[k as int] == shot);
            assert forall|q: int, x: int| 0 <= q < k + 1 && 0 <= x < shot_notice(old(world).entities@, shots@[q]).len()
                implies out@.contains(#[trigger] shot_notice(old(world).entities@, shots@[q])[x]) by {
                if q < k {
                    let y = choose|y: int| 0 <= y < prev.len() && prev[y] == shot_notice(old(world).entities@, shots@[q])[x];
                    assert(out@[y] == prev[y]);
                } else {
                    assert(added.subrange(0, cd.len() as int) == cd);
                    assert(added[x] == cd[x]);
                    assert(out@[prev.len() + x] == added[x]);
                }
            }
            assert forall|j: int| mid.len() <= j < world.entities@.len() implies exists|q: int| 0 <= q < k + 1
                && projectile_of_shot(#[trigger] world.entities@[j], shots@[q], id0 as nat)
                && out@.contains(projectile_notice(shots@[q], world.entities@[j].body.unwrap().velocity)) by {
                if j < before.len() {
                    let q = choose|q: int| 0 <= q < k && projectile_of_shot(before[j], shots@[q], id0 as nat)
                        && prev.contains(projectile_notice(shots@[q], before[j].body.unwrap().velocity));
                    assert(before[j].entity.id >= id0);
                    assert(before[j].entity != o);
                    assert(world.entities@[j] == before[j]);
                    let x = choose|x: int| 0 <= x < prev.len() && prev[x] == projectile_notice(shots@[q], before[j].body.unwrap().velocity);
                    assert(out@[x] == prev[x]);
                } else {
                    assert(projectile_of_shot(world.entities@[j], shot, id0 as nat)) by {
                        assert(projectile_of_shot(world.entities@[j], shot, (if id0 + pellets_total(shots@, k as nat) <= u32::MAX + 1 {
                            (id0 + pellets_total(shots@, k as nat)) as int } else { u32::MAX + 1 }) as nat));
                    }
                    let x = prev.len() + cd.len() + j - before.len();
                    assert(added[cd.len() + j - before.len()] == projectile_notice(shot, world.entities@[j].body.unwrap().velocity));
                    assert(out@[x] == added[cd.len() + j - before.len()]);
                    assert(shots@[k as int] == shot);
                }
            }
        }
        k = k + 1;
    }
    out
}

} // verus!

verus! {

/// A gun contributes exactly one shot when it fires and none otherwise:
/// among the shots of the records up to and including the gun at `i`, the
/// gun adds one more than the records before it, from its owner's position
/// and aim, exactly when `gun_fires` holds.
pub proof fn lemma_one_shot_per_trigger(s: Seq<EntityRecord>, dt: u32, i: int)
    requires
        0 <= i < s.len(),
        s[i].ability is Some,
        s[i].effect matches Some(Effect::Gun(_)),
        s[i].cooldown is Some,
        owner_position(s, s[i].ability.unwrap().owner) is Some,
        owner_input(s, s[i].ability.unwrap().owner) is Some,
    ensures
        ({
            let a = s[i].ability.unwrap();
            let g = s[i].effect.unwrap()->Gun_0;
            let inp = owner_input(s, a.owner).unwrap();
            let fires = gun_fires(s[i].cooldown.unwrap(), a.active, inp.button_spec(4), dt);
            &&& shots_of(s, dt, (i + 1) as nat).len() == shots_of(s, dt, i as nat).len() + if fires { 1int } else { 0int }
            &&& fires ==> shots_of(s, dt, (i + 1) as nat).last() == (Shot {
                owner: a.owner,
                binding: a.binding,
                origin: owner_position(s, a.owner).unwrap(),
                aim: inp,
                gun: g,
            })
        }),
{
}

} // verus!
