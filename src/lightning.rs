use vstd::prelude::*;

use crate::ability::{cool, cool_down, lemma_index_of, Cooldown, Effect, Lightning};
use crate::math::{clamp_i32, saturate_i32, Vec2};
use crate::net::{Cosmetic, Outbound, Packet};
use crate::physics::{raycast, raycast_result, Collider, Transform};
use crate::weapons::owner_position;
use crate::time::Time;
use crate::world::{alive, Entity, EntityRecord, World};

verus! {

/// Milliseconds a strike charges before it lands.
pub const CHARGE_TIME: u32 = 3000;

/// Milliseconds a landed strike stands.
pub const ACTIVE_TIME: u32 = 500;

/// Cooldown of the ability after each strike, in milliseconds.
pub const LIGHTNING_COOLDOWN: u32 = 5000;

/// What a transition asks of the world.
#[derive(Debug, Clone, Copy, PartialEq, Eq, Structural)]
pub enum LightningEvent {
    Nothing,
    /// A strike began: `hazard` is reserved for it.
    Charge { hazard: Entity },
    /// The strike lands: populate `hazard` at `impact` and show it.
    Land { hazard: Entity, impact: Vec2 },
    /// The strike is over: remove `hazard`.
    Clear { hazard: Entity },
}

/// One tick of the lightning ability, after its cooldown `c` ran down.
/// From idle, an active ability whose cooldown ran out starts charging when
/// a strike (a reserved hazard and its impact point) is at hand; charging
/// lands when its time is up, and a landed strike ends when its time is up;
/// otherwise the time left runs down by `dt`.
pub open spec fn lightning_next(st: Lightning, c: u32, active: bool, dt: u32, strike: Option<(Entity, Vec2)>) -> (Lightning, u32, LightningEvent) {
    match st {
        Lightning::Idle => if active && c == 0 && strike is Some {
            (
                Lightning::Charging { time_left: CHARGE_TIME, hazard: strike.unwrap().0, impact: strike.unwrap().1 },
                LIGHTNING_COOLDOWN,
                LightningEvent::Charge { hazard: strike.unwrap().0 },
            )
        } else {
            (Lightning::Idle, c, LightningEvent::Nothing)
        },
        Lightning::Charging { time_left, hazard, impact } => if time_left == 0 {
            (Lightning::Active { time_left: ACTIVE_TIME, hazard, impact }, c, LightningEvent::Land { hazard, impact })
        } else {
            (Lightning::Charging { time_left: cool(time_left, dt), hazard, impact }, c, LightningEvent::Nothing)
        },
        Lightning::Active { time_left, hazard, impact } => if time_left == 0 {
            (Lightning::Idle, c, LightningEvent::Clear { hazard })
        } else {
            (Lightning::Active { time_left: cool(time_left, dt), hazard, impact }, c, LightningEvent::Nothing)
        },
    }
}

/// Executable `lightning_next`.
pub fn lightning_transition(st: Lightning, c: u32, active: bool, dt: u32, strike: Option<(Entity, Vec2)>) -> (r: (Lightning, u32, LightningEvent))
    ensures
        r == lightning_next(st, c, active, dt, strike),
{
    match st {
        Lightning::Idle => {
            match strike {
                Some((hazard, impact)) => {
                    if active && c == 0 {
                        (Lightning::Charging { time_left: CHARGE_TIME, hazard, impact }, LIGHTNING_COOLDOWN, LightningEvent::Charge { hazard })
                    } else {
                        (Lightning::Idle, c, LightningEvent::Nothing)
                    }
                },
                None => (Lightning::Idle, c, LightningEvent::Nothing),
            }
        },
        Lightning::Charging { time_left, hazard, impact } => {
            if time_left == 0 {
                (Lightning::Active { time_left: ACTIVE_TIME, hazard, impact }, c, LightningEvent::Land { hazard, impact })
            } else {
                (Lightning::Charging { time_left: cool_down(Cooldown(time_left), dt).0, hazard, impact }, c, LightningEvent::Nothing)
            }
        },
        Lightning::Active { time_left, hazard, impact } => {
            if time_left == 0 {
                (Lightning::Idle, c, LightningEvent::Clear { hazard })
            } else {
                (Lightning::Active { time_left: cool_down(Cooldown(time_left), dt).0, hazard, impact }, c, LightningEvent::Nothing)
            }
        },
    }
}

/// The hazard of a strike landing at `impact`: a tall column standing on
/// the impact point.
pub open spec fn hazard_record(hazard: Entity, impact: Vec2) -> EntityRecord {
    EntityRecord {
        transform: Some(Transform { translation: Vec2 { x: impact.x, y: clamp_i32(impact.y + 2500) as i32 }, rotation: 0 }),
        collider: Some(Collider::Rect { width: 100, height: 5000 }),
        ..EntityRecord::empty_spec(hazard)
    }
}

/// The point where a strike from above `pos` lands among the records `s`:
/// the first thing below `pos` other than `owner`, or `pos` itself.
pub open spec fn impact_point(s: Seq<EntityRecord>, pos: Vec2, owner: Entity) -> Vec2 {
    match raycast_result(s, pos, Vec2 { x: 0i32, y: -1i32 }, Some(owner), false) {
        Some((_, p)) => p,
        None => pos,
    }
}

fn impact_below(world: &World, pos: Vec2, owner: Entity) -> (r: Vec2)
    ensures
        r == impact_point(world.entities@, pos, owner),
{
    match raycast(world, pos, Vec2 { x: 0, y: -1 }, Some(owner)) {
        Some((_, p)) => p,
        None => pos,
    }
}

/// The record `r` of `s` is a lightning ability that starts a strike this
/// tick, where an identifier remains: idle, active and ready, with an owner
/// that stands somewhere.
pub open spec fn wants_strike(s: Seq<EntityRecord>, r: EntityRecord, dt: u32) -> bool {
    match (r.ability, r.effect, r.cooldown) {
        (Some(a), Some(Effect::Lightning(Lightning::Idle)), Some(c)) =>
            a.active && cool(c.0, dt) == 0 && owner_position(s, a.owner) is Some,
        _ => false,
    }
}

/// How many of the first `n` records of `s` start a strike.
pub open spec fn strikes_before(s: Seq<EntityRecord>, dt: u32, n: nat) -> nat
    decreases n,
{
    if n == 0 || n > s.len() {
        0
    } else {
        strikes_before(s, dt, (n - 1) as nat) + if wants_strike(s, s[n - 1], dt) { 1nat } else { 0nat }
    }
}

/// The strike at hand for the record `i` of `s`: the identifier after the
/// ones that earlier records took, and the impact below its owner.
pub open spec fn strike_for(s: Seq<EntityRecord>, i: int, dt: u32, next_id: nat) -> Option<(Entity, Vec2)> {
    let r = s[i];
    let id = next_id + strikes_before(s, dt, i as nat);
    if wants_strike(s, r, dt) && id <= u32::MAX {
        Some((
            Entity { id: id as u32 },
            impact_point(s, owner_position(s, r.ability.unwrap().owner).unwrap(), r.ability.unwrap().owner),
        ))
    } else {
        None
    }
}

/// The record `i` of `s` after one tick of its lightning ability.
pub open spec fn lightning_record(s: Seq<EntityRecord>, i: int, dt: u32, next_id: nat) -> EntityRecord {
    let r = s[i];
    match (r.ability, r.effect, r.cooldown) {
        (Some(a), Some(Effect::Lightning(st)), Some(c)) => {
            let t = lightning_next(st, cool(c.0, dt), a.active, dt, strike_for(s, i, dt, next_id));
            EntityRecord { effect: Some(Effect::Lightning(t.0)), cooldown: Some(Cooldown(t.1)), ..r }
        },
        _ => r,
    }
}

/// The event of the record `i` of `s` this tick.
pub open spec fn lightning_event(s: Seq<EntityRecord>, i: int, dt: u32, next_id: nat) -> LightningEvent {
    let r = s[i];
    match (r.ability, r.effect, r.cooldown) {
        (Some(a), Some(Effect::Lightning(st)), Some(c)) =>
            lightning_next(st, cool(c.0, dt), a.active, dt, strike_for(s, i, dt, next_id)).2,
        _ => LightningEvent::Nothing,
    }
}

/// The strikes that land among the first `n` records of `s`, in order.
pub open spec fn landings(s: Seq<EntityRecord>, dt: u32, next_id: nat, n: nat) -> Seq<(Entity, Vec2)>
    decreases n,
{
    if n == 0 || n > s.len() {
        Seq::empty()
    } else {
        let prev = landings(s, dt, next_id, (n - 1) as nat);
        match lightning_event(s, n - 1, dt, next_id) {
            LightningEvent::Land { hazard, impact } => prev.push((hazard, impact)),
            _ => prev,
        }
    }
}

/// The hazards cleared among the first `n` records of `s`, in order.
pub open spec fn clearings(s: Seq<EntityRecord>, dt: u32, next_id: nat, n: nat) -> Seq<Entity>
    decreases n,
{
    if n == 0 || n > s.len() {
        Seq::empty()
    } else {
        let prev = clearings(s, dt, next_id, (n - 1) as nat);
        match lightning_event(s, n - 1, dt, next_id) {
            LightningEvent::Clear { hazard } => prev.push(hazard),
            _ => prev,
        }
    }
}

/// Runs every lightning ability one tick by `lightning_next`: each record
/// becomes `lightning_record`, where a strike takes the next free
/// identifier for its hazard and lands where a ray straight down from the
/// owner, ignoring the owner, first meets something. Returns the strikes
/// that land and the hazards to clear, in order.
pub fn lightning_transitions(world: &mut World, dt: u32) -> (r: (Vec<(Entity, Vec2)>, Vec<Entity>))
    requires
        old(world).wf(),
    ensures
        final(world).wf(),
        final(world).entities@.len() == old(world).entities@.len(),
        forall|i: int| 0 <= i < old(world).entities@.len()
            ==> final(world).entities@[i] == lightning_record(old(world).entities@, i, dt, old(world).next_id as nat),
        r.0@ == landings(old(world).entities@, dt, old(world).next_id as nat, old(world).entities@.len()),
        r.1@ == clearings(old(world).entities@, dt, old(world).next_id as nat, old(world).entities@.len()),
{
    let ghost s = world.entities@;
    let ghost id0 = world.next_id as nat;
    let n = world.entities.len();
    let mut updates: Vec<Option<(Lightning, u32)>> = Vec::new();
    let mut lands: Vec<(Entity, Vec2)> = Vec::new();
    let mut clears: Vec<Entity> = Vec::new();
    let mut i: usize = 0;
    while i < n
        invariant
            world.wf(),
            s == world.entities@,
            s == old(world).entities@,
            id0 == old(world).next_id,
            n == s.len(),
            i <= n,
            world.next_id == (if id0 + strikes_before(s, dt, i as nat) <= u32::MAX + 1 {
                (id0 + strikes_before(s, dt, i as nat)) as int
            } else {
                u32::MAX + 1
            }),
            updates@.len() == i,
            forall|k: int| 0 <= k < i ==> match #[trigger] updates@[k] {
                Some((st2, c2)) => lightning_record(s, k, dt, id0)
                    == (EntityRecord { effect: Some(Effect::Lightning(st2)), cooldown: Some(Cooldown(c2)), ..s[k] }),
                None => lightning_record(s, k, dt, id0) == s[k],
            },
            lands@ == landings(s, dt, id0, i as nat),
            clears@ == clearings(s, dt, id0, i as nat),
        decreases n - i,
    {
        let r = world.entities[i];
        match (r.ability, r.effect, r.cooldown) {
            (Some(a), Some(Effect::Lightning(st)), Some(c)) => {
                let c = cool_down(c, dt).0;
                let mut strike: Option<(Entity, Vec2)> = None;
                if st == Lightning::Idle && a.active && c == 0 {
                    match world.find(a.owner) {
                        Some(k) => {
                            proof {
                                lemma_index_of(s, k as int);
                            }
                            match world.entities[k].transform {
                                Some(t) => {
                                    assert(wants_strike(s, s[i as int], dt));
                                    let impact = impact_below(world, t.translation, a.owner);
                                    match world.reserve_entity() {
                                        Some(h) => {
                                            strike = Some((h, impact));
                                        },
                                        None => {},
                                    }
                                },
                                None => {},
                            }
                        },
                        None => {},
                    }
                }
                assert(strike == strike_for(s, i as int, dt, id0));
                let (st2, c2, ev) = lightning_transition(st, c, a.active, dt, strike);
                updates.push(Some((st2, c2)));
                match ev {
                    LightningEvent::Land { hazard, impact } => {
                        lands.push((hazard, impact));
                    },
                    LightningEvent::Clear { hazard } => {
                        clears.push(hazard);
                    },
                    _ => {},
                }
            },
            _ => {
                updates.push(None);
            },
        }
        i = i + 1;
    }
    let mut k: usize = 0;
    while k < n
        invariant
            world.wf(),
            n == world.entities@.len(),
            n == s.len(),
            k <= n,
            updates@.len() == n,
            forall|q: int| 0 <= q < n ==> match #[trigger] updates@[q] {
                Some((st2, c2)) => lightning_record(s, q, dt, id0)
                    == (EntityRecord { effect: Some(Effect::Lightning(st2)), cooldown: Some(Cooldown(c2)), ..s[q] }),
                None => lightning_record(s, q, dt, id0) == s[q],
            },
            forall|q: int| 0 <= q < k ==> world.entities@[q] == lightning_record(s, q, dt, id0),
            forall|q: int| k <= q < n ==> world.entities@[q] == s[q],
        decreases n - k,
    {
        match updates[k] {
            Some((st2, c2)) => {
                let r = world.entities[k];
                let ghost before = world.entities@;
                world.entities.set(k, EntityRecord { effect: Some(Effect::Lightning(st2)), cooldown: Some(Cooldown(c2)), ..r });
                proof {
                    let w = world.entities@;
                    assert forall|a: int, b: int| 0 <= a < w.len() && 0 <= b < w.len() && a != b implies w[a].entity != w[b].entity by {
                        assert(w[a].entity == before[a].entity);
                        assert(w[b].entity == before[b].entity);
                    }
                    assert forall|a: int| 0 <= a < w.len() implies w[a].entity.id < world.next_id by {
                        assert(w[a].entity == before[a].entity);
                    }
                }
            },
            None => {},
        }
        k = k + 1;
    }
    (lands, clears)
}

/// Messages for strikes that land: the effect at each impact point.
pub open spec fn land_notices(l: Seq<(Entity, Vec2)>) -> Seq<Outbound> {
    l.map_values(|x: (Entity, Vec2)| Outbound::Broadcast(Packet::EffectSpawn(Cosmetic::Lightning { position: x.1 })))
}

/// The contract of `lightning_controller`, as a relation between the records before
/// (`s`) and after (`t`) and the messages `r`.
pub open spec fn lightning_rel(s: Seq<EntityRecord>, sn: u64, t: Seq<EntityRecord>, r: Seq<Outbound>, dt: u32) -> bool {
    &&& (({
            let s = s;
            let dt = dt;
            let id0 = sn as nat;
            let lands = landings(s, dt, id0, s.len());
            let clears = clearings(s, dt, id0, s.len());
            &&& forall|i: int| 0 <= i < s.len() && !clears.contains(s[i].entity)
                && (forall|k: int| 0 <= k < lands.len() ==> lands[k].0 != s[i].entity)
                ==> t.contains(#[trigger] lightning_record(s, i, dt, id0))
            &&& forall|k: int| 0 <= k < lands.len() && !clears.contains(lands[k].0)
                && (forall|k2: int| k < k2 < lands.len() ==> lands[k2].0 != lands[k].0)
                ==> t.contains(hazard_record(#[trigger] lands[k].0, lands[k].1))
        }))
    &&& (r == land_notices(landings(s, dt, sn as nat, s.len())))
    &&& (forall|k: int| 0 <= k < clearings(s, dt, sn as nat, s.len()).len()
            ==> !alive(t, #[trigger] clearings(s, dt, sn as nat, s.len())[k]))
}

/// The lightning abilities of one tick: `lightning_transitions`, then each
/// landing strike populates its hazard with `hazard_record` and broadcasts
/// the effect, and each cleared hazard is removed. Every record keeps its
/// state from `lightning_record` unless it is itself a hazard that lands or
/// clears.
pub fn lightning_controller(world: &mut World, time: &Time) -> (r: Vec<Outbound>)
    requires
        old(world).wf(),
    ensures
        final(world).wf(),
        ({
            let s = old(world).entities@;
            let dt = time.dt_spec();
            let id0 = old(world).next_id as nat;
            let lands = landings(s, dt, id0, s.len());
            let clears = clearings(s, dt, id0, s.len());
            &&& forall|i: int| 0 <= i < s.len() && !clears.contains(s[i].entity)
                && (forall|k: int| 0 <= k < lands.len() ==> lands[k].0 != s[i].entity)
                ==> final(world).entities@.contains(#[trigger] lightning_record(s, i, dt, id0))
            &&& forall|k: int| 0 <= k < lands.len() && !clears.contains(lands[k].0)
                && (forall|k2: int| k < k2 < lands.len() ==> lands[k2].0 != lands[k].0)
                ==> final(world).entities@.contains(hazard_record(#[trigger] lands[k].0, lands[k].1))
        }),
        r@ == land_notices(landings(old(world).entities@, time.dt_spec(), old(world).next_id as nat, old(world).entities@.len())),
        forall|k: int| 0 <= k < clearings(old(world).entities@, time.dt_spec(), old(world).next_id as nat, old(world).entities@.len()).len()
            ==> !alive(final(world).entities@, #[trigger] clearings(old(world).entities@, time.dt_spec(), old(world).next_id as nat, old(world).entities@.len())[k]),
{
    let dt = time.dt_ms();
    let ghost s = world.entities@;
    let ghost id0 = world.next_id as nat;
    let (lands, clears) = lightning_transitions(world, dt);
    let ghost mid = world.entities@;
    proof {
        assert forall|i: int| 0 <= i < s.len() implies mid.contains(#[trigger] lightning_record(s, i, dt, id0)) by {
            assert(mid[i] == lightning_record(s, i, dt, id0));
        }
    }
    let mut out: Vec<Outbound> = Vec::new();
    let mut k: usize = 0;
    while k < lands.len()
        invariant
            world.wf(),
            k <= lands@.len(),
            out@ == land_notices(lands@.subrange(0, k as int)),
            mid.len() == s.len(),
            forall|i: int| 0 <= i < s.len() ==> mid[i] == lightning_record(s, i, dt, id0),
            forall|i: int| 0 <= i < s.len() && (forall|q: int| 0 <= q < lands@.len() ==> lands@[q].0 != s[i].entity)
                ==> world.entities@.contains(#[trigger] lightning_record(s, i, dt, id0)),
            forall|q: int| 0 <= q < k && (forall|q2: int| q < q2 < k ==> lands@[q2].0 != lands@[q].0)
                ==> world.entities@.contains(hazard_record(#[trigger] lands@[q].0, lands@[q].1)),
        decreases lands@.len() - k,
    {
        let (hazard, impact) = lands[k];
        let column = Vec2 { x: impact.x, y: saturate_i32(impact.y as i128 + 2500) };
        let ghost before = world.entities@;
        world.spawn_at(EntityRecord {
            transform: Some(Transform { translation: column, rotation: 0 }),
            collider: Some(Collider::rect(100, 5000)),
            ..EntityRecord::empty(hazard)
        });
        proof {
            assert(lands@[k as int] == (hazard, impact));
            assert(alive(world.entities@, hazard));
            let j = choose|j: int| 0 <= j < world.entities@.len() && world.entities@[j].entity == hazard;
            assert(world.entities@[j] == hazard_record(hazard, impact));
            assert forall|i: int| 0 <= i < s.len() && (forall|q: int| 0 <= q < lands@.len() ==> lands@[q].0 != s[i].entity)
                implies world.entities@.contains(#[trigger] lightning_record(s, i, dt, id0)) by {
                assert(lands@[k as int].0 != s[i].entity);
                assert(before.contains(lightning_record(s, i, dt, id0)));
            }
            assert forall|q: int| 0 <= q < k + 1 && (forall|q2: int| q < q2 < k + 1 ==> lands@[q2].0 != lands@[q].0)
                implies world.entities@.contains(hazard_record(#[trigger] lands@[q].0, lands@[q].1)) by {
                if q < k {
                    assert(lands@[k as int].0 != lands@[q].0);
                    assert(before.contains(hazard_record(lands@[q].0, lands@[q].1)));
                } else {
                    assert(world.entities@.contains(world.entities@[j]));
                }
            }
        }
        out.push(Outbound::Broadcast(Packet::EffectSpawn(Cosmetic::Lightning { position: impact })));
        assert(land_notices(lands@.subrange(0, k + 1)) =~= land_notices(lands@.subrange(0, k as int)).push(
            Outbound::Broadcast(Packet::EffectSpawn(Cosmetic::Lightning { position: impact }))));
        k = k + 1;
    }
    assert(lands@.subrange(0, lands@.len() as int) =~= lands@);
    let mut k: usize = 0;
    while k < clears.len()
        invariant
            world.wf(),
            k <= clears@.len(),
            forall|q: int| 0 <= q < k ==> !alive(world.entities@, #[trigger] clears@[q]),
            forall|i: int| 0 <= i < s.len() && !clears@.contains(s[i].entity)
                && (forall|q: int| 0 <= q < lands@.len() ==> lands@[q].0 != s[i].entity)
                ==> world.entities@.contains(#[trigger] lightning_record(s, i, dt, id0)),
            forall|q: int| 0 <= q < lands@.len() && !clears@.contains(lands@[q].0)
                && (forall|q2: int| q < q2 < lands@.len() ==> lands@[q2].0 != lands@[q].0)
                ==> world.entities@.contains(hazard_record(#[trigger] lands@[q].0, lands@[q].1)),
        decreases clears@.len() - k,
    {
        let ghost before = world.entities@;
        world.despawn(clears[k]);
        proof {
            assert forall|i: int| 0 <= i < s.len() && !clears@.contains(s[i].entity)
                && (forall|q: int| 0 <= q < lands@.len() ==> lands@[q].0 != s[i].entity)
                implies world.entities@.contains(#[trigger] lightning_record(s, i, dt, id0)) by {
                assert(clears@[k as int] != s[i].entity);
                assert(lightning_record(s, i, dt, id0).entity == s[i].entity);
            }
            assert forall|q: int| 0 <= q < lands@.len() && !clears@.contains(lands@[q].0)
                && (forall|q2: int| q < q2 < lands@.len() ==> lands@[q2].0 != lands@[q].0)
                implies world.entities@.contains(hazard_record(#[trigger] lands@[q].0, lands@[q].1)) by {
                assert(clears@[k as int] != lands@[q].0);
            }
            assert forall|q: int| 0 <= q < k + 1 implies !alive(world.entities@, #[trigger] clears@[q]) by {
                if q < k {
                    assert(!alive(before, clears@[q]));
                }
            }
        }
        k = k + 1;
    }
    out
}

} // verus!
