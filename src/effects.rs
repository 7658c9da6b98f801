use vstd::prelude::*;

use crate::ability::{cool, cool_down, index_of, Cooldown, Effect};
use crate::health::Health;
use crate::math::{clamp_i32, clamp_u32, saturate_i32, saturate_u32, trunc_div, div_toward_zero, Vec2};
use crate::net::{Cosmetic, Outbound, Packet};
use crate::physics::{is_isqrt, isqrt, Collider, KinematicBody, TimeScale};
use crate::time::Time;
use crate::world::{alive, ids_unique, Entity, EntityRecord, World};

verus! {

/// An ability with cooldown `c` triggers this tick: it is active and its
/// cooldown ran out.
pub open spec fn triggers(c: Cooldown, active: bool, dt: u32) -> bool {
    active && cool(c.0, dt) == 0
}

/// One tick of the generic trigger pattern: the cooldown runs down, and an
/// active ability whose cooldown ran out triggers and restarts it at
/// `reset`. Returns the new cooldown and whether it triggered.
pub fn trigger_step(c: Cooldown, active: bool, dt: u32, reset: u32) -> (r: (Cooldown, bool))
    ensures
        r.1 == triggers(c, active, dt),
        r.0 == (if r.1 { Cooldown(reset) } else { Cooldown(cool(c.0, dt)) }),
{
    let c2 = cool_down(c, dt);
    if active && c2.0 == 0 {
        (Cooldown(reset), true)
    } else {
        (c2, false)
    }
}

/// Hit points a heal restores.
pub const HEAL_AMOUNT: u32 = 20;

/// Cooldown after a heal, in milliseconds.
pub const HEAL_COOLDOWN: u32 = 5000;

/// Cooldown after a push, in milliseconds.
pub const PUSH_COOLDOWN: u32 = 15000;

/// Speed that a push gives every body, in units per second.
pub const PUSH_SPEED: i32 = 2000;

/// Health after a heal: up by `HEAL_AMOUNT`, to `max` at the highest.
pub open spec fn healed(h: Health) -> Health {
    Health { now: if h.now + HEAL_AMOUNT >= h.max { h.max } else { (h.now + HEAL_AMOUNT) as u32 }, ..h }
}

/// `r` after one tick of its heal ability (where `heal`) or push ability
/// (otherwise), with cooldown `reset` after a trigger.
pub open spec fn effect_step(r: EntityRecord, dt: u32, heal: bool, reset: u32) -> EntityRecord {
    match (r.ability, r.effect, r.cooldown) {
        (Some(a), Some(e), Some(c)) => if (heal && e == Effect::Heal) || (!heal && e == Effect::Push) {
            EntityRecord {
                cooldown: Some(if triggers(c, a.active, dt) { Cooldown(reset) } else { Cooldown(cool(c.0, dt)) }),
                ..r
            }
        } else {
            r
        },
        _ => r,
    }
}

/// The owners whose ability of the given kind triggers, among the first `n`
/// records of `s`, with the ability's binding.
pub open spec fn triggered(s: Seq<EntityRecord>, dt: u32, heal: bool, n: nat) -> Seq<(Entity, usize)>
    decreases n,
{
    if n == 0 || n > s.len() {
        Seq::empty()
    } else {
        let prev = triggered(s, dt, heal, (n - 1) as nat);
        let r = s[n - 1];
        match (r.ability, r.effect, r.cooldown) {
            (Some(a), Some(e), Some(c)) => if ((heal && e == Effect::Heal) || (!heal && e == Effect::Push))
                && triggers(c, a.active, dt) {
                prev.push((a.owner, a.binding))
            } else {
                prev
            },
            _ => prev,
        }
    }
}

/// Runs the cooldown of every heal (or push) ability and returns the owners
/// of those that trigger, in order.
fn run_triggers(world: &mut World, dt: u32, heal: bool, reset: u32) -> (r: Vec<(Entity, usize)>)
    requires
        old(world).wf(),
    ensures
        final(world).wf(),
        final(world).entities@.len() == old(world).entities@.len(),
        forall|i: int| 0 <= i < old(world).entities@.len()
            ==> final(world).entities@[i] == effect_step(old(world).entities@[i], dt, heal, reset),
        r@ == triggered(old(world).entities@, dt, heal, old(world).entities@.len()),
{
    let ghost s = world.entities@;
    let n = world.entities.len();
    let mut out: Vec<(Entity, usize)> = Vec::new();
    let mut i: usize = 0;
    while i < n
        invariant
            s == old(world).entities@,
            ids_unique(s),
            n == s.len(),
            world.next_id == old(world).next_id,
            world.next_id <= u32::MAX + 1,
            n == world.entities@.len(),
            i <= n,
            forall|k: int| 0 <= k < s.len() ==> s[k].entity.id < world.next_id,
            forall|k: int| 0 <= k < i ==> world.entities@[k] == effect_step(s[k], dt, heal, reset),
            forall|k: int| i <= k < n ==> world.entities@[k] == s[k],
            out@ == triggered(s, dt, heal, i as nat),
        decreases n - i,
    {
        let r = world.entities[i];
        match (r.ability, r.effect, r.cooldown) {
            (Some(a), Some(e), Some(c)) => {
                let mine = match e {
                    Effect::Heal => heal,
                    Effect::Push => !heal,
                    _ => false,
                };
                if mine {
                    let (c2, fired) = trigger_step(c, a.active, dt, reset);
                    world.entities.set(i, EntityRecord { cooldown: Some(c2), ..r });
                    if fired {
                        out.push((a.owner, a.binding));
                    }
                }
            },
            _ => {},
        }
        i = i + 1;
    }
    proof {
        let w = world.entities@;
        assert forall|a: int, b: int| 0 <= a < w.len() && 0 <= b < w.len() && a != b implies w[a].entity != w[b].entity by {
            assert(w[a].entity == s[a].entity);
            assert(w[b].entity == s[b].entity);
        }
        assert forall|a: int| 0 <= a < w.len() implies w[a].entity.id < world.next_id by {
            assert(w[a].entity == s[a].entity);
        }
    }
    out
}

/// `s` after healing the entity `e`, where it has health.
pub open spec fn heal_one(s: Seq<EntityRecord>, e: Entity) -> Seq<EntityRecord> {
    Seq::new(s.len(), |i: int| if s[i].entity == e && s[i].health is Some {
        EntityRecord { health: Some(healed(s[i].health.unwrap())), ..s[i] }
    } else {
        s[i]
    })
}

/// `s` after healing the owners of the first `k` triggers in turn.
pub open spec fn heal_all(s: Seq<EntityRecord>, owners: Seq<(Entity, usize)>, k: nat) -> Seq<EntityRecord>
    decreases k,
{
    if k == 0 || k > owners.len() {
        s
    } else {
        heal_one(heal_all(s, owners, (k - 1) as nat), owners[k - 1].0)
    }
}

/// The message telling the client of `e` that the ability in `binding`
/// began a cooldown of `duration`, where `e` is alive in `s` with a
/// connection.
pub open spec fn cooldown_msgs(s: Seq<EntityRecord>, e: Entity, binding: usize, duration: u32) -> Seq<Outbound> {
    if alive(s, e) {
        match s[index_of(s, e)].connection {
            Some(c) => seq![Outbound::To(c, Packet::CooldownStart { binding, duration })],
            None => Seq::empty(),
        }
    } else {
        Seq::empty()
    }
}

/// Messages of healing `e` in `s`: the effect just below its position and
/// its new health, for what it has.
pub open spec fn heal_msgs(s: Seq<EntityRecord>, e: Entity) -> Seq<Outbound> {
    if alive(s, e) {
        let r = s[index_of(s, e)];
        (match r.transform {
            Some(t) => seq![Outbound::Broadcast(Packet::EffectSpawn(Cosmetic::Heal {
                position: Vec2 { x: t.translation.x, y: clamp_i32(t.translation.y - 30) as i32 },
            }))],
            None => Seq::empty(),
        }) + (match r.health {
            Some(h) => seq![Outbound::Broadcast(Packet::EntityHealth(e, healed(h).now))],
            None => Seq::empty(),
        })
    } else {
        Seq::empty()
    }
}

/// Messages of the first `k` heals, each taken in the world the earlier
/// heals left.
pub open spec fn heal_notices(s: Seq<EntityRecord>, owners: Seq<(Entity, usize)>, k: nat) -> Seq<Outbound>
    decreases k,
{
    if k == 0 || k > owners.len() {
        Seq::empty()
    } else {
        let w = heal_all(s, owners, (k - 1) as nat);
        heal_notices(s, owners, (k - 1) as nat) + cooldown_msgs(w, owners[k - 1].0, owners[k - 1].1, HEAL_COOLDOWN)
            + heal_msgs(w, owners[k - 1].0)
    }
}

/// Heals the owner `e`, where it is alive and has health, and returns the
/// messages: the effect near its position, its new health.
fn heal_owner(world: &mut World, e: Entity) -> (r: Vec<Outbound>)
    requires
        old(world).wf(),
    ensures
        final(world).wf(),
        final(world).next_id == old(world).next_id,
        final(world).entities@ == heal_one(old(world).entities@, e),
        r@ == heal_msgs(old(world).entities@, e),
{
    let ghost s = world.entities@;
    let mut out: Vec<Outbound> = Vec::new();
    match world.find(e) {
        Some(k) => {
            proof {
                crate::ability::lemma_index_of(s, k as int);
            }
            let r = world.entities[k];
            match r.transform {
                Some(t) => {
                    let p = Vec2 { x: t.translation.x, y: saturate_i32(t.translation.y as i128 - 30) };
                    out.push(Outbound::Broadcast(Packet::EffectSpawn(Cosmetic::Heal { position: p })));
                },
                None => {},
            }
            let ghost first = out@;
            match r.health {
                Some(h) => {
                    let now = if h.now as u64 + HEAL_AMOUNT as u64 >= h.max as u64 { h.max } else { h.now + HEAL_AMOUNT };
                    world.entities.set(k, EntityRecord { health: Some(Health { now, ..h }), ..r });
                    out.push(Outbound::Broadcast(Packet::EntityHealth(e, now)));
                    assert(out@ =~= first + seq![Outbound::Broadcast(Packet::EntityHealth(e, now))]);
                },
                None => {
                    assert(out@ =~= first + Seq::<Outbound>::empty());
                },
            }
            proof {
                let w = world.entities@;
                assert forall|a: int, b: int| 0 <= a < w.len() && 0 <= b < w.len() && a != b implies w[a].entity != w[b].entity by {
                    assert(w[a].entity == s[a].entity);
                    assert(w[b].entity == s[b].entity);
                }
                assert forall|a: int| 0 <= a < w.len() implies w[a].entity.id < world.next_id by {
                    assert(w[a].entity == s[a].entity);
                }
                assert(w =~= heal_one(s, e));
            }
        },
        None => {
            assert(world.entities@ =~= heal_one(s, e));
        },
    }
    out
}

/// The message telling the owner's client of a cooldown, where the owner
/// has a connection.
pub(crate) fn cooldown_notice(world: &World, owner: Entity, binding: usize, duration: u32) -> (r: Option<Outbound>)
    requires
        world.wf(),
    ensures
        match r {
            Some(m) => cooldown_msgs(world.entities@, owner, binding, duration) == seq![m],
            None => cooldown_msgs(world.entities@, owner, binding, duration) == Seq::<Outbound>::empty(),
        },
{
    match world.find(owner) {
        Some(k) => {
            proof {
                crate::ability::lemma_index_of(world.entities@, k as int);
            }
            match world.entities[k].connection {
                Some(c) => Some(Outbound::To(c, Packet::CooldownStart { binding, duration })),
                None => None,
            }
        },
        None => None,
    }
}

/// The records after every heal (or push) ability ran its cooldown.
pub open spec fn after_triggers(s: Seq<EntityRecord>, dt: u32, heal: bool, reset: u32) -> Seq<EntityRecord> {
    Seq::new(s.len(), |i: int| effect_step(s[i], dt, heal, reset))
}

/// The contract of `heal_controller`, as a relation between the records before
/// (`s`) and after (`t`) and the messages `r`.
pub open spec fn heal_rel(s: Seq<EntityRecord>, t: Seq<EntityRecord>, r: Seq<Outbound>, dt: u32) -> bool {
    &&& (({
            let mid = after_triggers(s, dt, true, HEAL_COOLDOWN);
            let owners = triggered(s, dt, true, s.len());
            &&& t == heal_all(mid, owners, owners.len())
            &&& r == heal_notices(mid, owners, owners.len())
        }))
}

/// Runs every heal ability by the trigger pattern; each one that triggers
/// heals its owner by `HEAL_AMOUNT`, up to its maximum, tells the owner's
/// client of the cooldown, and broadcasts the effect and the new health.
pub fn heal_controller(world: &mut World, time: &Time) -> (r: Vec<Outbound>)
    requires
        old(world).wf(),
    ensures
        final(world).wf(),
        ({
            let mid = after_triggers(old(world).entities@, time.dt_spec(), true, HEAL_COOLDOWN);
            let owners = triggered(old(world).entities@, time.dt_spec(), true, old(world).entities@.len());
            &&& final(world).entities@ == heal_all(mid, owners, owners.len())
            &&& r@ == heal_notices(mid, owners, owners.len())
        }),
{
    let dt = time.dt_ms();
    let owners = run_triggers(world, dt, true, HEAL_COOLDOWN);
    let ghost mid = world.entities@;
    assert(mid =~= after_triggers(old(world).entities@, dt, true, HEAL_COOLDOWN));
    let mut out: Vec<Outbound> = Vec::new();
    let mut k: usize = 0;
    while k < owners.len()
        invariant
            world.wf(),
            k <= owners@.len(),
            world.entities@ == heal_all(mid, owners@, k as nat),
            out@ == heal_notices(mid, owners@, k as nat),
        decreases owners@.len() - k,
    {
        let (owner, binding) = owners[k];
        let ghost w = world.entities@;
        let ghost prev = out@;
        match cooldown_notice(world, owner, binding, HEAL_COOLDOWN) {
            Some(m) => {
                out.push(m);
            },
            None => {},
        }
        let mut msgs = heal_owner(world, owner);
        let ghost added = msgs@;
        out.append(&mut msgs);
        assert(out@ =~= prev + cooldown_msgs(w, owner, binding, HEAL_COOLDOWN) + heal_msgs(w, owner));
        k = k + 1;
    }
    out
}

/// Velocity that a push from `origin` gives a body at `p`: `PUSH_SPEED`
/// along the direction away from the origin, or nothing at the origin
/// itself.
pub open spec fn push_velocity(origin: Vec2, p: Vec2) -> Option<Vec2> {
    let dx = p.x - origin.x;
    let dy = p.y - origin.y;
    if dx == 0 && dy == 0 {
        None
    } else {
        let len = choose|l: int| #[trigger] is_isqrt(dx * dx + dy * dy, l);
        Some(Vec2 {
            x: clamp_i32(trunc_div(PUSH_SPEED * dx, len)) as i32,
            y: clamp_i32(trunc_div(PUSH_SPEED * dy, len)) as i32,
        })
    }
}

} // verus!

verus! {

fn push_velocity_exec(origin: Vec2, p: Vec2) -> (r: Option<Vec2>)
    ensures
        r == push_velocity(origin, p),
{
    let dx: i128 = p.x as i128 - origin.x as i128;
    let dy: i128 = p.y as i128 - origin.y as i128;
    if dx == 0 && dy == 0 {
        return None;
    }
    proof {
        assert(0 <= dx * dx <= 0x4_0000_0000_0000_0000) by (nonlinear_arith)
            requires
                -0x2_0000_0000 <= dx <= 0x2_0000_0000,
        ;
        assert(0 <= dy * dy <= 0x4_0000_0000_0000_0000) by (nonlinear_arith)
            requires
                -0x2_0000_0000 <= dy <= 0x2_0000_0000,
        ;
    }
    let sq: i128 = dx * dx + dy * dy;
    let len = isqrt(sq as u128) as i128;
    proof {
        let l = choose|l: int| #[trigger] is_isqrt(dx * dx + dy * dy, l);
        crate::physics::lemma_isqrt_unique(dx * dx + dy * dy, l, len as int);
        assert(sq >= 1) by (nonlinear_arith)
            requires
                sq == dx * dx + dy * dy,
                dx != 0 || dy != 0,
        ;
        assert(len >= 1) by (nonlinear_arith)
            requires
                sq >= 1,
                sq < (len + 1) * (len + 1),
                len >= 0,
        ;
    }
    let vx = div_toward_zero(2000 * dx, len);
    let vy = div_toward_zero(2000 * dy, len);
    Some(Vec2 { x: saturate_i32(vx), y: saturate_i32(vy) })
}

/// `r` after a push from `origin`: a body with a position away from the
/// origin takes `push_velocity`.
pub open spec fn push_step(r: EntityRecord, origin: Vec2) -> EntityRecord {
    match (r.transform, r.body) {
        (Some(t), Some(_)) => match push_velocity(origin, t.translation) {
            Some(v) => EntityRecord { body: Some(KinematicBody { velocity: v }), ..r },
            None => r,
        },
        _ => r,
    }
}

/// Gives every body the push of a knockback from `origin`.
pub fn push_all(world: &mut World, origin: Vec2)
    requires
        old(world).wf(),
    ensures
        final(world).wf(),
        final(world).entities@.len() == old(world).entities@.len(),
        forall|i: int| 0 <= i < old(world).entities@.len() ==> final(world).entities@[i] == push_step(old(world).entities@[i], origin),
{
    let ghost s = world.entities@;
    let n = world.entities.len();
    let mut i: usize = 0;
    while i < n
        invariant
            s == old(world).entities@,
            ids_unique(s),
            n == s.len(),
            world.next_id == old(world).next_id,
            world.next_id <= u32::MAX + 1,
            n == world.entities@.len(),
            i <= n,
            forall|k: int| 0 <= k < s.len() ==> s[k].entity.id < world.next_id,
            forall|k: int| 0 <= k < i ==> world.entities@[k] == push_step(s[k], origin),
            forall|k: int| i <= k < n ==> world.entities@[k] == s[k],
        decreases n - i,
    {
        let r = world.entities[i];
        match (r.transform, r.body) {
            (Some(t), Some(_)) => {
                match push_velocity_exec(origin, t.translation) {
                    Some(v) => {
                        world.entities.set(i, EntityRecord { body: Some(KinematicBody { velocity: v }), ..r });
                    },
                    None => {},
                }
            },
            _ => {},
        }
        i = i + 1;
    }
    proof {
        let w = world.entities@;
        assert forall|a: int, b: int| 0 <= a < w.len() && 0 <= b < w.len() && a != b implies w[a].entity != w[b].entity by {
            assert(w[a].entity == s[a].entity);
            assert(w[b].entity == s[b].entity);
        }
        assert forall|a: int| 0 <= a < w.len() implies w[a].entity.id < world.next_id by {
            assert(w[a].entity == s[a].entity);
        }
    }
}

/// `s` after a push from the position of `e`, where it is alive and stands
/// somewhere.
pub open spec fn push_one(s: Seq<EntityRecord>, e: Entity) -> Seq<EntityRecord> {
    if alive(s, e) && s[index_of(s, e)].transform is Some {
        let o = s[index_of(s, e)].transform.unwrap().translation;
        Seq::new(s.len(), |i: int| push_step(s[i], o))
    } else {
        s
    }
}

/// `s` after the pushes of the first `k` triggers in turn.
pub open spec fn push_all_owners(s: Seq<EntityRecord>, owners: Seq<(Entity, usize)>, k: nat) -> Seq<EntityRecord>
    decreases k,
{
    if k == 0 || k > owners.len() {
        s
    } else {
        push_one(push_all_owners(s, owners, (k - 1) as nat), owners[k - 1].0)
    }
}

/// Messages of a push by `e` in `s`: the cooldown notice, and the effect at
/// its position.
pub open spec fn push_msgs(s: Seq<EntityRecord>, e: Entity, binding: usize) -> Seq<Outbound> {
    cooldown_msgs(s, e, binding, PUSH_COOLDOWN) + if alive(s, e) && s[index_of(s, e)].transform is Some {
        seq![Outbound::Broadcast(Packet::EffectSpawn(Cosmetic::Push {
            position: s[index_of(s, e)].transform.unwrap().translation,
        }))]
    } else {
        Seq::empty()
    }
}

/// Messages of the first `k` pushes, each taken in the world the earlier
/// pushes left.
pub open spec fn push_notices(s: Seq<EntityRecord>, owners: Seq<(Entity, usize)>, k: nat) -> Seq<Outbound>
    decreases k,
{
    if k == 0 || k > owners.len() {
        Seq::empty()
    } else {
        push_notices(s, owners, (k - 1) as nat) + push_msgs(push_all_owners(s, owners, (k - 1) as nat), owners[k - 1].0, owners[k - 1].1)
    }
}

/// The contract of `push_controller`, as a relation between the records before
/// (`s`) and after (`t`) and the messages `r`.
pub open spec fn push_rel(s: Seq<EntityRecord>, t: Seq<EntityRecord>, r: Seq<Outbound>, dt: u32) -> bool {
    &&& (({
            let mid = after_triggers(s, dt, false, PUSH_COOLDOWN);
            let owners = triggered(s, dt, false, s.len());
            &&& t == push_all_owners(mid, owners, owners.len())
            &&& r == push_notices(mid, owners, owners.len())
        }))
}

/// Runs every push ability by the trigger pattern; each one that triggers
/// tells the owner's client of the cooldown, broadcasts the effect at its
/// owner and sends every body away from the owner at `PUSH_SPEED`.
pub fn push_controller(world: &mut World, time: &Time) -> (r: Vec<Outbound>)
    requires
        old(world).wf(),
    ensures
        final(world).wf(),
        ({
            let mid = after_triggers(old(world).entities@, time.dt_spec(), false, PUSH_COOLDOWN);
            let owners = triggered(old(world).entities@, time.dt_spec(), false, old(world).entities@.len());
            &&& final(world).entities@ == push_all_owners(mid, owners, owners.len())
            &&& r@ == push_notices(mid, owners, owners.len())
        }),
{
    let dt = time.dt_ms();
    let owners = run_triggers(world, dt, false, PUSH_COOLDOWN);
    let ghost mid = world.entities@;
    assert(mid =~= after_triggers(old(world).entities@, dt, false, PUSH_COOLDOWN));
    let mut out: Vec<Outbound> = Vec::new();
    let mut k: usize = 0;
    while k < owners.len()
        invariant
            world.wf(),
            k <= owners@.len(),
            world.entities@ == push_all_owners(mid, owners@, k as nat),
            out@ == push_notices(mid, owners@, k as nat),
        decreases owners@.len() - k,
    {
        let (owner, binding) = owners[k];
        let ghost w = world.entities@;
        let ghost prev = out@;
        match cooldown_notice(world, owner, binding, PUSH_COOLDOWN) {
            Some(m) => {
                out.push(m);
            },
            None => {},
        }
        let ghost mid_out = out@;
        match world.find(owner) {
            Some(j) => {
                proof {
                    crate::ability::lemma_index_of(w, j as int);
                }
                match world.entities[j].transform {
                    Some(t) => {
                        out.push(Outbound::Broadcast(Packet::EffectSpawn(Cosmetic::Push { position: t.translation })));
                        push_all(world, t.translation);
                        assert(world.entities@ =~= push_one(w, owner));
                    },
                    None => {
                        assert(world.entities@ =~= push_one(w, owner));
                    },
                }
            },
            None => {
                assert(world.entities@ =~= push_one(w, owner));
            },
        }
        assert(out@ =~= prev + push_msgs(w, owner, binding));
        k = k + 1;
    }
    out
}

} // verus!

verus! {

/// Cooldown after a time dilation, in milliseconds.
pub const FREEZE_COOLDOWN: u32 = 5000;

/// Frames that a time dilation lasts.
pub const FREEZE_FRAMES: u32 = 240;

/// Factor, in thousandths, by which a dilation speeds up its owner's time.
pub const FREEZE_SCALE: u32 = 3333;

/// `r` after one tick of its time-dilation ability: by the trigger pattern,
/// a trigger starts `FREEZE_FRAMES` frames of dilation; a running dilation
/// counts down one frame per tick.
pub open spec fn freeze_step(r: EntityRecord, dt: u32) -> EntityRecord {
    match (r.ability, r.effect, r.cooldown) {
        (Some(a), Some(Effect::Freeze { left, saved }), Some(c)) => {
            let fired = triggers(c, a.active, dt);
            let start = if fired { FREEZE_FRAMES } else { left };
            EntityRecord {
                cooldown: Some(if fired { Cooldown(FREEZE_COOLDOWN) } else { Cooldown(cool(c.0, dt)) }),
                effect: Some(Effect::Freeze { left: if start > 0 { (start - 1) as u32 } else { 0 }, saved }),
                ..r
            }
        },
        _ => r,
    }
}

/// Owners among the first `n` records of `s` whose dilation starts (it
/// triggers while none runs), with the position of the ability.
pub open spec fn slowed_list(s: Seq<EntityRecord>, dt: u32, n: nat) -> Seq<(Entity, int)>
    decreases n,
{
    if n == 0 || n > s.len() {
        Seq::empty()
    } else {
        let prev = slowed_list(s, dt, (n - 1) as nat);
        match (s[n - 1].ability, s[n - 1].effect, s[n - 1].cooldown) {
            (Some(a), Some(Effect::Freeze { left, .. }), Some(c)) => if triggers(c, a.active, dt) && left == 0 {
                prev.push((a.owner, n - 1))
            } else {
                prev
            },
            _ => prev,
        }
    }
}

/// Owners among the first `n` records of `s` whose dilation runs its last
/// frame this tick, with the time scale to give back.
pub open spec fn restored_list(s: Seq<EntityRecord>, dt: u32, n: nat) -> Seq<(Entity, Option<TimeScale>)>
    decreases n,
{
    if n == 0 || n > s.len() {
        Seq::empty()
    } else {
        let prev = restored_list(s, dt, (n - 1) as nat);
        match (s[n - 1].ability, s[n - 1].effect, s[n - 1].cooldown) {
            (Some(a), Some(Effect::Freeze { left, saved }), Some(c)) => {
                let start = if triggers(c, a.active, dt) { FREEZE_FRAMES } else { left };
                if start == 1 {
                    prev.push((a.owner, saved))
                } else {
                    prev
                }
            },
            _ => prev,
        }
    }
}

/// The time scale of `e` in `s`, where it is alive and has one.
pub open spec fn owner_scale(s: Seq<EntityRecord>, e: Entity) -> Option<TimeScale> {
    if alive(s, e) { s[index_of(s, e)].time_scale } else { None }
}

/// A time scale (1 where there is none) multiplied by `FREEZE_SCALE`
/// thousandths, saturating.
pub open spec fn dilated(sc: Option<TimeScale>) -> TimeScale {
    let base = match sc {
        Some(TimeScale(x)) => x as int,
        None => 1000,
    };
    TimeScale(clamp_u32(base * FREEZE_SCALE / 1000) as u32)
}

/// `s` after the dilation of the ability at `i` starts for `owner`: the
/// owner's time scale is multiplied, and the ability keeps the old one.
pub open spec fn slow_one(s: Seq<EntityRecord>, owner: Entity, i: int) -> Seq<EntityRecord> {
    let sc = owner_scale(s, owner);
    let s1 = set_scale(s, owner, Some(dilated(sc)));
    if 0 <= i < s1.len() && s1[i].effect matches Some(Effect::Freeze { .. }) {
        s1.update(i, EntityRecord { effect: Some(Effect::Freeze { left: s1[i].effect.unwrap()->left, saved: sc }), ..s1[i] })
    } else {
        s1
    }
}

/// `s` after the first `k` dilations of `l` start.
pub open spec fn slow_all(s: Seq<EntityRecord>, l: Seq<(Entity, int)>, k: nat) -> Seq<EntityRecord>
    decreases k,
{
    if k == 0 || k > l.len() {
        s
    } else {
        slow_one(slow_all(s, l, (k - 1) as nat), l[k - 1].0, l[k - 1].1)
    }
}

/// `s` after the first `k` owners of `l` get their time scale back.
pub open spec fn restore_all(s: Seq<EntityRecord>, l: Seq<(Entity, Option<TimeScale>)>, k: nat) -> Seq<EntityRecord>
    decreases k,
{
    if k == 0 || k > l.len() {
        s
    } else {
        set_scale(restore_all(s, l, (k - 1) as nat), l[k - 1].0, l[k - 1].1)
    }
}

/// `s` with the time scale of `e` set to `scale`.
pub open spec fn set_scale(s: Seq<EntityRecord>, e: Entity, scale: Option<TimeScale>) -> Seq<EntityRecord> {
    Seq::new(s.len(), |i: int| if s[i].entity == e { EntityRecord { time_scale: scale, ..s[i] } } else { s[i] })
}

/// Sets or clears the time scale of `e`, where it is alive.
fn set_time_scale(world: &mut World, e: Entity, scale: Option<TimeScale>)
    requires
        old(world).wf(),
    ensures
        final(world).wf(),
        final(world).entities@ == set_scale(old(world).entities@, e, scale),
{
    let ghost s = world.entities@;
    match world.find(e) {
        Some(k) => {
            let r = world.entities[k];
            world.entities.set(k, EntityRecord { time_scale: scale, ..r });
            proof {
                let w = world.entities@;
                assert forall|a: int, b: int| 0 <= a < w.len() && 0 <= b < w.len() && a != b implies w[a].entity != w[b].entity by {
                    assert(w[a].entity == s[a].entity);
                    assert(w[b].entity == s[b].entity);
                }
                assert forall|a: int| 0 <= a < w.len() implies w[a].entity.id < world.next_id by {
                    assert(w[a].entity == s[a].entity);
                }
                assert forall|i: int| 0 <= i < s.len() implies #[trigger] w[i] == set_scale(s, e, scale)[i] by {
                    if s[i].entity == e {
                        assert(i == k);
                    }
                }
                assert(w =~= set_scale(s, e, scale));
            }
        },
        None => {
            assert(world.entities@ =~= set_scale(s, e, scale));
        },
    }
}

fn dilated_exec(sc: Option<TimeScale>) -> (r: TimeScale)
    ensures
        r == dilated(sc),
{
    let base: u64 = match sc {
        Some(TimeScale(x)) => x as u64,
        None => 1000,
    };
    TimeScale(saturate_u32((base * FREEZE_SCALE as u64 / 1000) as i128))
}

/// Starts the dilation of the ability at `i` for `owner`.
fn slow(world: &mut World, owner: Entity, i: usize)
    requires
        old(world).wf(),
    ensures
        final(world).wf(),
        final(world).entities@ == slow_one(old(world).entities@, owner, i as int),
{
    let ghost s = world.entities@;
    let sc: Option<TimeScale> = match world.find(owner) {
        Some(k) => {
            proof {
                crate::ability::lemma_index_of(s, k as int);
            }
            world.entities[k].time_scale
        },
        None => None,
    };
    set_time_scale(world, owner, Some(dilated_exec(sc)));
    if i < world.entities.len() {
        let r = world.entities[i];
        match r.effect {
            Some(Effect::Freeze { left, .. }) => {
                let ghost before = world.entities@;
                world.entities.set(i, EntityRecord { effect: Some(Effect::Freeze { left, saved: sc }), ..r });
                proof {
                    let w = world.entities@;
                    assert forall|a: int, b: int| 0 <= a < w.len() && 0 <= b < w.len() && a != b implies w[a].entity != w[b].entity by {
                        assert(w[a].entity == before[a].entity);
                        assert(w[b].entity == before[b].entity);
                    }
                    assert forall|a: int| 0 <= a < w.len() implies w[a].entity.id < world.next_id by {
                        assert(w[a].entity == before[a].entity);
                    }
                }
            },
            _ => {},
        }
    }
}

/// The contract of `freeze_controller`, as a relation between the records before
/// (`s`) and after (`t`) and the messages `r`.
pub open spec fn freeze_rel(s: Seq<EntityRecord>, t: Seq<EntityRecord>, r: Seq<Outbound>, dt: u32) -> bool {
    &&& (({
            let s = s;
            let dt = dt;
            let mid = Seq::new(s.len(), |i: int| freeze_step(s[i], dt));
            let slowed = slowed_list(s, dt, s.len());
            let restored = restored_list(s, dt, s.len());
            &&& t == restore_all(slow_all(mid, slowed, slowed.len()), restored, restored.len())
            &&& r == Seq::new(slowed.len(), |i: int| Outbound::Broadcast(Packet::EffectSpawn(Cosmetic::Freeze)))
        }))
}

/// Runs every time-dilation ability one tick by `freeze_step`. Where a
/// dilation starts, its owner's time scale is multiplied by
/// `FREEZE_SCALE` thousandths, the ability keeps the scale it replaced, and
/// the effect is broadcast; when the dilation's last frame has run, the
/// owner gets that scale back.
pub fn freeze_controller(world: &mut World, time: &Time) -> (r: Vec<Outbound>)
    requires
        old(world).wf(),
    ensures
        final(world).wf(),
        ({
            let s = old(world).entities@;
            let dt = time.dt_spec();
            let mid = Seq::new(s.len(), |i: int| freeze_step(s[i], dt));
            let slowed = slowed_list(s, dt, s.len());
            let restored = restored_list(s, dt, s.len());
            &&& final(world).entities@ == restore_all(slow_all(mid, slowed, slowed.len()), restored, restored.len())
            &&& r@ == Seq::new(slowed.len(), |i: int| Outbound::Broadcast(Packet::EffectSpawn(Cosmetic::Freeze)))
        }),
{
    let dt = time.dt_ms();
    let ghost s = world.entities@;
    let n = world.entities.len();
    let mut slowed: Vec<(Entity, usize)> = Vec::new();
    let mut restored: Vec<(Entity, Option<TimeScale>)> = Vec::new();
    let mut i: usize = 0;
    while i < n
        invariant
            s == old(world).entities@,
            ids_unique(s),
            n == s.len(),
            world.next_id == old(world).next_id,
            world.next_id <= u32::MAX + 1,
            n == world.entities@.len(),
            i <= n,
            dt == time.dt_spec(),
            forall|k: int| 0 <= k < s.len() ==> s[k].entity.id < world.next_id,
            forall|k: int| 0 <= k < i ==> world.entities@[k] == freeze_step(s[k], dt),
            forall|k: int| i <= k < n ==> world.entities@[k] == s[k],
            slowed@.len() == slowed_list(s, dt, i as nat).len(),
            forall|q: int| 0 <= q < slowed@.len() ==> (#[trigger] slowed@[q]).0 == slowed_list(s, dt, i as nat)[q].0
                && slowed@[q].1 as int == slowed_list(s, dt, i as nat)[q].1,
            restored@ == restored_list(s, dt, i as nat),
        decreases n - i,
    {
        let r = world.entities[i];
        match (r.ability, r.effect, r.cooldown) {
            (Some(a), Some(Effect::Freeze { left, saved }), Some(c)) => {
                let (c2, fired) = trigger_step(c, a.active, dt, FREEZE_COOLDOWN);
                let start = if fired { FREEZE_FRAMES } else { left };
                let next = if start > 0 { start - 1 } else { 0 };
                world.entities.set(i, EntityRecord { cooldown: Some(c2), effect: Some(Effect::Freeze { left: next, saved }), ..r });
                if fired && left == 0 {
                    slowed.push((a.owner, i));
                }
                if start == 1 {
                    restored.push((a.owner, saved));
                }
            },
            _ => {},
        }
        i = i + 1;
    }
    let ghost mid = world.entities@;
    let ghost sl = slowed_list(s, dt, n as nat);
    proof {
        let w = world.entities@;
        assert forall|a: int, b: int| 0 <= a < w.len() && 0 <= b < w.len() && a != b implies w[a].entity != w[b].entity by {
            assert(w[a].entity == s[a].entity);
            assert(w[b].entity == s[b].entity);
        }
        assert forall|a: int| 0 <= a < w.len() implies w[a].entity.id < world.next_id by {
            assert(w[a].entity == s[a].entity);
        }
        assert(mid =~= Seq::new(s.len(), |i: int| freeze_step(s[i], dt)));
    }
    let mut out: Vec<Outbound> = Vec::new();
    let mut k: usize = 0;
    while k < slowed.len()
        invariant
            world.wf(),
            k <= slowed@.len(),
            slowed@.len() == sl.len(),
            forall|q: int| 0 <= q < slowed@.len() ==> (#[trigger] slowed@[q]).0 == sl[q].0 && slowed@[q].1 as int == sl[q].1,
            world.entities@ == slow_all(mid, sl, k as nat),
            out@ == Seq::new(k as nat, |i: int| Outbound::Broadcast(Packet::EffectSpawn(Cosmetic::Freeze))),
        decreases slowed@.len() - k,
    {
        let (owner, idx) = slowed[k];
        slow(world, owner, idx);
        out.push(Outbound::Broadcast(Packet::EffectSpawn(Cosmetic::Freeze)));
        assert(out@ =~= Seq::new((k + 1) as nat, |i: int| Outbound::Broadcast(Packet::EffectSpawn(Cosmetic::Freeze))));
        k = k + 1;
    }
    let ghost mid2 = world.entities@;
    let mut k: usize = 0;
    while k < restored.len()
        invariant
            world.wf(),
            k <= restored@.len(),
            world.entities@ == restore_all(mid2, restored@, k as nat),
        decreases restored@.len() - k,
    {
        let (owner, saved) = restored[k];
        set_time_scale(world, owner, saved);
        k = k + 1;
    }
    out
}

} // verus!

verus! {

/// Radius of a fresh bubble shield, in thousandths of a unit.
pub const BUBBLE_RADIUS: u32 = 50_000;

/// Radius at which a shrinking bubble gives out, in thousandths.
pub const BUBBLE_MIN_RADIUS: u32 = 15_000;

/// Cooldown after a bubble gives out, in milliseconds.
pub const BUBBLE_COOLDOWN: u32 = 5000;

/// Radius of a bubble after shrinking for `dt` milliseconds, at 1.5 units
/// per second.
pub open spec fn shrunk(radius: u32, dt: u32) -> u32 {
    if (radius as int) > 3 * (dt as int) / 2 {
        (radius - 3 * (dt as int) / 2) as u32
    } else {
        0
    }
}

/// `r` after one tick of its bubble shield: the cooldown runs down; while
/// raised and ready the bubble shrinks and its collider follows; a bubble
/// at or below the minimum comes back whole and starts the cooldown.
pub open spec fn bubble_step(r: EntityRecord, dt: u32) -> EntityRecord {
    match (r.ability, r.effect, r.cooldown) {
        (Some(a), Some(Effect::BubbleShield { radius }), Some(c)) => {
            let c1 = cool(c.0, dt);
            let shrinking = a.active && c1 == 0;
            let r1 = if shrinking { shrunk(radius, dt) } else { radius };
            let spent = r1 <= BUBBLE_MIN_RADIUS;
            EntityRecord {
                cooldown: Some(Cooldown(if spent { BUBBLE_COOLDOWN } else { c1 })),
                effect: Some(Effect::BubbleShield { radius: if spent { BUBBLE_RADIUS } else { r1 } }),
                collider: if shrinking { Some(Collider::Circle { radius: r1 / 1000 }) } else { r.collider },
                ..r
            }
        },
        _ => r,
    }
}

/// The contract of `bubble_shield_controller`, as a relation between the records before
/// (`s`) and after (`t`) and the messages `r`.
pub open spec fn bubble_rel(s: Seq<EntityRecord>, t: Seq<EntityRecord>, dt: u32) -> bool {
    &&& (t.len() == s.len())
    &&& (forall|i: int| 0 <= i < s.len()
            ==> t[i] == bubble_step(s[i], dt))
}

/// Runs every bubble shield one tick by `bubble_step`, and tells the owner's
/// client when one gives out and starts its cooldown.
pub fn bubble_shield_controller(world: &mut World, time: &Time) -> (r: Vec<Outbound>)
    requires
        old(world).wf(),
    ensures
        final(world).wf(),
        final(world).entities@.len() == old(world).entities@.len(),
        forall|i: int| 0 <= i < old(world).entities@.len()
            ==> final(world).entities@[i] == bubble_step(old(world).entities@[i], time.dt_spec()),
{
    let dt = time.dt_ms();
    let ghost s = world.entities@;
    let n = world.entities.len();
    let mut spent: Vec<(Entity, usize)> = Vec::new();
    let mut i: usize = 0;
    while i < n
        invariant
            s == old(world).entities@,
            ids_unique(s),
            n == s.len(),
            world.next_id == old(world).next_id,
            world.next_id <= u32::MAX + 1,
            n == world.entities@.len(),
            i <= n,
            dt == time.dt_spec(),
            forall|k: int| 0 <= k < s.len() ==> s[k].entity.id < world.next_id,
            forall|k: int| 0 <= k < i ==> world.entities@[k] == bubble_step(s[k], dt),
            forall|k: int| i <= k < n ==> world.entities@[k] == s[k],
        decreases n - i,
    {
        let r = world.entities[i];
        match (r.ability, r.effect, r.cooldown) {
            (Some(a), Some(Effect::BubbleShield { radius }), Some(c)) => {
                let c1 = cool_down(c, dt).0;
                let shrinking = a.active && c1 == 0;
                let step: u64 = 3 * dt as u64 / 2;
                let r1: u32 = if shrinking {
                    if radius as u64 > step { radius - step as u32 } else { 0 }
                } else {
                    radius
                };
                let out_of_air = r1 <= BUBBLE_MIN_RADIUS;
                let collider = if shrinking { Some(Collider::circle(r1 / 1000)) } else { r.collider };
                world.entities.set(i, EntityRecord {
                    cooldown: Some(Cooldown(if out_of_air { BUBBLE_COOLDOWN } else { c1 })),
                    effect: Some(Effect::BubbleShield { radius: if out_of_air { BUBBLE_RADIUS } else { r1 } }),
                    collider,
                    ..r
                });
                if out_of_air {
                    spent.push((a.owner, a.binding));
                }
            },
            _ => {},
        }
        i = i + 1;
    }
    proof {
        let w = world.entities@;
        assert forall|a: int, b: int| 0 <= a < w.len() && 0 <= b < w.len() && a != b implies w[a].entity != w[b].entity by {
            assert(w[a].entity == s[a].entity);
            assert(w[b].entity == s[b].entity);
        }
        assert forall|a: int| 0 <= a < w.len() implies w[a].entity.id < world.next_id by {
            assert(w[a].entity == s[a].entity);
        }
    }
    let mut out: Vec<Outbound> = Vec::new();
    let mut k: usize = 0;
    while k < spent.len()
        invariant
            world.wf(),
            k <= spent@.len(),
        decreases spent@.len() - k,
    {
        let (owner, binding) = spent[k];
        match cooldown_notice(world, owner, binding, BUBBLE_COOLDOWN) {
            Some(m) => {
                out.push(m);
            },
            None => {},
        }
        k = k + 1;
    }
    out
}

} // verus!
