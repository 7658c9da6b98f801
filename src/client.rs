use vstd::prelude::*;

use crate::ability::{ability_record, apply_toggle, instantiate, toggled, AbilityKind, Effect};
use crate::health::aligned;
use crate::physics::{hit_ids, hits_get, hits_len, Collisions};
use crate::bullet::TimeToLive;
use crate::health::Health;
use crate::input::Input;
use crate::math::Vec2;
use crate::net::{Connection, Cosmetic, Outbound, Packet};
use crate::physics::{Collider, KinematicBody, Transform};
use crate::player::{player_record, prefab};
use crate::server::{despawn_player, has_ability, owned_by};
use crate::world::{alive, ids_unique, Entity, EntityRecord, OwnedPlayer, World};

verus! {

/// Commands for the first `n` records of `s` that the client controls.
pub open spec fn command_notices(s: Seq<EntityRecord>, n: nat) -> Seq<Outbound>
    decreases n,
{
    if n == 0 || n > s.len() {
        Seq::empty()
    } else {
        let prev = command_notices(s, (n - 1) as nat);
        let r = s[n - 1];
        match (r.input, r.owned) {
            (Some(i), Some(_)) => prev.push(Outbound::Broadcast(Packet::PlayerCommand(i))),
            _ => prev,
        }
    }
}

/// Client side: sends the input of the player this client controls to the
/// server, the only command channel.
pub fn input(world: &World) -> (r: Vec<Outbound>)
    ensures
        r@ == command_notices(world.entities@, world.entities@.len()),
{
    let n = world.entities.len();
    let mut out: Vec<Outbound> = Vec::new();
    let mut i: usize = 0;
    while i < n
        invariant
            n == world.entities@.len(),
            i <= n,
            out@ == command_notices(world.entities@, i as nat),
        decreases n - i,
    {
        let r = world.entities[i];
        match (r.input, r.owned) {
            (Some(inp), Some(_)) => {
                out.push(Outbound::Broadcast(Packet::PlayerCommand(inp)));
            },
            _ => {},
        }
        i = i + 1;
    }
    out
}

/// `t` is `s` with each record of `e` replaced by `new` of it.
pub open spec fn updated(s: Seq<EntityRecord>, t: Seq<EntityRecord>, e: Entity, new: spec_fn(EntityRecord) -> EntityRecord) -> bool {
    &&& t.len() == s.len()
    &&& forall|i: int| 0 <= i < s.len() ==> #[trigger] t[i] == (if s[i].entity == e { new(s[i]) } else { s[i] })
}

/// Moves the entity `e` to `p`, where it is alive and has a transform.
pub fn set_position(world: &mut World, e: Entity, p: Vec2)
    requires
        old(world).wf(),
    ensures
        final(world).wf(),
        updated(old(world).entities@, final(world).entities@, e, |r: EntityRecord| match r.transform {
            Some(t) => EntityRecord { transform: Some(Transform { translation: p, ..t }), ..r },
            None => r,
        }),
{
    match world.find(e) {
        Some(i) => {
            let r = world.entities[i];
            match r.transform {
                Some(t) => {
                    world.entities.set(i, EntityRecord { transform: Some(Transform { translation: p, ..t }), ..r });
                },
                None => {},
            }
            proof {
                let w = world.entities@;
                let s = old(world).entities@;
                assert forall|a: int, b: int| 0 <= a < w.len() && 0 <= b < w.len() && a != b implies w[a].entity != w[b].entity by {
                    assert(w[a].entity == s[a].entity);
                    assert(w[b].entity == s[b].entity);
                }
                assert forall|a: int| 0 <= a < w.len() implies w[a].entity.id < world.next_id by {
                    assert(w[a].entity == s[a].entity);
                }
            }
        },
        None => {},
    }
}

/// Sets the health of `e` to `h`, kept within its maximum, where it is
/// alive and has health.
pub fn set_health(world: &mut World, e: Entity, h: u32)
    requires
        old(world).wf(),
    ensures
        final(world).wf(),
        updated(old(world).entities@, final(world).entities@, e, |r: EntityRecord| match r.health {
            Some(x) => EntityRecord { health: Some(Health { now: if h <= x.max { h } else { x.max }, ..x }), ..r },
            None => r,
        }),
{
    match world.find(e) {
        Some(i) => {
            let r = world.entities[i];
            match r.health {
                Some(x) => {
                    let now = if h <= x.max { h } else { x.max };
                    world.entities.set(i, EntityRecord { health: Some(Health { now, ..x }), ..r });
                },
                None => {},
            }
            proof {
                let w = world.entities@;
                let s = old(world).entities@;
                assert forall|a: int, b: int| 0 <= a < w.len() && 0 <= b < w.len() && a != b implies w[a].entity != w[b].entity by {
                    assert(w[a].entity == s[a].entity);
                    assert(w[b].entity == s[b].entity);
                }
                assert forall|a: int| 0 <= a < w.len() implies w[a].entity.id < world.next_id by {
                    assert(w[a].entity == s[a].entity);
                }
            }
        },
        None => {},
    }
}

/// The mirrored record of a player spawned by the server: only the player
/// that `own` controls keeps an input, and is marked as owned.
pub open spec fn mirror_record(e: Entity, connection: Connection, deck: [AbilityKind; 4], color: u32, own: Connection) -> EntityRecord {
    let base = player_record(e, deck, color, None, false);
    if connection == own {
        EntityRecord { owned: Some(OwnedPlayer), ..base }
    } else {
        EntityRecord { input: None, ..base }
    }
}

/// Client side: mirrors a player spawned by the server under the same
/// identifier, with its abilities (as long as identifiers remain). The
/// client keeps an input only for the player that `own` controls, so it
/// cannot drive the others.
pub fn mirror_player(world: &mut World, e: Entity, connection: Connection, deck: [AbilityKind; 4], color: u32, own: Connection)
    requires
        old(world).wf(),
    ensures
        final(world).wf(),
        alive(final(world).entities@, e),
        final(world).entities@.contains(mirror_record(e, connection, deck, color, own)),
        forall|b: int| 0 <= b < 4 ==> final(world).next_id > u32::MAX || #[trigger] has_ability(final(world).entities@, e, b, deck[b]),
{
    let base = prefab(e, deck, color, None, false);
    let rec = if connection == own {
        EntityRecord { owned: Some(OwnedPlayer), ..base }
    } else {
        EntityRecord { input: None, ..base }
    };
    world.spawn_at(rec);
    proof {
        let j = choose|j: int| 0 <= j < world.entities@.len() && world.entities@[j].entity == e;
        assert(world.entities@[j] == rec);
    }
    let mut b: usize = 0;
    while b < 4
        invariant
            world.wf(),
            b <= 4,
            alive(world.entities@, e),
            rec == mirror_record(e, connection, deck, color, own),
            world.entities@.contains(rec),
            forall|b2: int| 0 <= b2 < b ==> world.next_id > u32::MAX || #[trigger] has_ability(world.entities@, e, b2, deck[b2]),
        decreases 4 - b,
    {
        let ghost before = world.entities@;
        match world.spawn(instantiate(e, e, b, deck[b])) {
            Some(id) => {
                proof {
                    let k = choose|k: int| 0 <= k < before.len() && before[k].entity == e;
                    assert(world.entities@[k].entity == e);
                    let pk = choose|pk: int| 0 <= pk < before.len() && before[pk] == rec;
                    assert(world.entities@[pk] == before[pk]);
                    let last = before.len() as int;
                    assert(world.entities@[last] == ability_record(id, e, b, deck[b as int]));
                    assert forall|b2: int| 0 <= b2 < b + 1 implies world.next_id > u32::MAX
                        || #[trigger] has_ability(world.entities@, e, b2, deck[b2]) by {
                        if b2 < b {
                            if world.next_id <= u32::MAX {
                                assert(has_ability(before, e, b2, deck[b2]));
                                let j = choose|j: int| 0 <= j < before.len()
                                    && #[trigger] before[j] == ability_record(before[j].entity, e, b2 as usize, deck[b2]);
                                assert(world.entities@[j] == before[j]);
                            }
                        } else {
                            assert(world.entities@[last] == ability_record(world.entities@[last].entity, e, b2 as usize, deck[b2]));
                        }
                    }
                }
            },
            None => {},
        }
        b = b + 1;
    }
}

/// How long a cosmetic effect shows on a client.
pub open spec fn cosmetic_ttl(c: Cosmetic) -> TimeToLive {
    match c {
        Cosmetic::Lightning { .. } => TimeToLive::Millis(5000),
        Cosmetic::SpawnIn { .. } => TimeToLive::Frames(200),
        _ => TimeToLive::Frames(100),
    }
}

/// The record of a timed cosmetic effect `c` on a client.
pub open spec fn cosmetic_record(e: Entity, c: Cosmetic) -> EntityRecord {
    EntityRecord { cosmetic: Some(c), ttl: Some(cosmetic_ttl(c)), ..EntityRecord::empty_spec(e) }
}

/// The record of a projectile that a client simulates locally.
pub open spec fn local_projectile(e: Entity, origin: Vec2, velocity: Vec2, ttl: u32) -> EntityRecord {
    EntityRecord {
        transform: Some(Transform { translation: origin, rotation: 0 }),
        body: Some(KinematicBody { velocity }),
        collider: Some(Collider::Circle { radius: 3 }),
        senses_collisions: true,
        ttl: Some(TimeToLive::Millis(ttl)),
        ..EntityRecord::empty_spec(e)
    }
}

/// What applying `packet` makes of the records `s` (with next free
/// identifier `sn`): the records `t` (with `tn`).
pub open spec fn packet_applied(s: Seq<EntityRecord>, sn: u64, t: Seq<EntityRecord>, tn: u64, packet: Packet, own: Connection) -> bool {
    match packet {
        Packet::EntityPosition(e, p) => updated(s, t, e, |r: EntityRecord| match r.transform {
            Some(t) => EntityRecord { transform: Some(Transform { translation: p, ..t }), ..r },
            None => r,
        }),
        Packet::PlayerRespawn(e, p) => updated(s, t, e, |r: EntityRecord| match r.transform {
            Some(t) => EntityRecord { transform: Some(Transform { translation: p, ..t }), ..r },
            None => r,
        }),
        Packet::EntityHealth(e, h) => updated(s, t, e, |r: EntityRecord| match r.health {
            Some(x) => EntityRecord { health: Some(Health { now: if h <= x.max { h } else { x.max }, ..x }), ..r },
            None => r,
        }),
        Packet::PlayerToggleAbility(o, b) => {
            &&& t.len() == s.len()
            &&& forall|i: int| 0 <= i < s.len()
                ==> #[trigger] t[i] == toggled(s[i], o, b)
        },
        Packet::PlayerDespawn(e) => {
            &&& !alive(t, e)
            &&& !alive(s, e) ==> t == s
            &&& alive(s, e)
                ==> forall|j: int| 0 <= j < t.len() ==> !owned_by(#[trigger] t[j], e)
            &&& forall|rec: EntityRecord| s.contains(rec) && rec.entity != e && !owned_by(rec, e)
                ==> t.contains(rec)
        },
        Packet::PlayerSpawn { entity, connection, deck, color } => {
            &&& t.contains(mirror_record(entity, connection, deck, color, own))
            &&& forall|b: int| 0 <= b < 4 ==> tn > u32::MAX || #[trigger] has_ability(t, entity, b, deck[b])
        },
        Packet::ProjectileSpawn { origin, velocity, ttl } => sn <= u32::MAX ==> t
            == s.push(local_projectile(Entity { id: sn as u32 }, origin, velocity, ttl)),
        Packet::EffectSpawn(c) => sn <= u32::MAX ==> t
            == s.push(cosmetic_record(Entity { id: sn as u32 }, c)),
        Packet::PlayerCommand(_) => t == s,
        _ => true,
    }
}

/// Client side: applies one packet from the server to the mirrored world.
/// Positions and health go onto the entity they name; a toggle sets which
/// ability of its owner is active; a despawn removes the player and its
/// abilities (a despawn of an entity already gone changes nothing); spawns
/// mirror players,
/// projectiles and timed cosmetic effects. Commands are skipped.
pub fn apply_packet(world: &mut World, packet: &Packet, own: Connection)
    requires
        old(world).wf(),
    ensures
        final(world).wf(),
        packet_applied(old(world).entities@, old(world).next_id, final(world).entities@, final(world).next_id, *packet, own),
{
    match *packet {
        Packet::EntityPosition(e, p) => {
            set_position(world, e, p);
        },
        Packet::PlayerRespawn(e, p) => {
            set_position(world, e, p);
        },
        Packet::EntityHealth(e, h) => {
            set_health(world, e, h);
        },
        Packet::PlayerToggleAbility(owner, binding) => {
            let ghost before = world.entities@;
            apply_toggle(world, owner, binding);
            proof {
                let w = world.entities@;
                assert forall|a: int, b: int| 0 <= a < w.len() && 0 <= b < w.len() && a != b implies w[a].entity != w[b].entity by {
                    assert(w[a].entity == before[a].entity);
                    assert(w[b].entity == before[b].entity);
                }
                assert forall|a: int| 0 <= a < w.len() implies w[a].entity.id < world.next_id by {
                    assert(w[a].entity == before[a].entity);
                }
            }
        },
        Packet::PlayerDespawn(e) => {
            despawn_player(world, e);
        },
        Packet::PlayerSpawn { entity, connection, deck, color } => {
            mirror_player(world, entity, connection, deck, color, own);
        },
        Packet::ProjectileSpawn { origin, velocity, ttl } => {
            let rec = EntityRecord {
                transform: Some(Transform { translation: origin, rotation: 0 }),
                body: Some(KinematicBody { velocity }),
                collider: Some(Collider::circle(3)),
                senses_collisions: true,
                ttl: Some(TimeToLive::Millis(ttl)),
                ..EntityRecord::empty(Entity { id: 0 })
            };
            let _ = world.spawn(rec);
        },
        Packet::EffectSpawn(c) => {
            let ttl = match c {
                Cosmetic::Lightning { .. } => TimeToLive::Millis(5000),
                Cosmetic::SpawnIn { .. } => TimeToLive::Frames(200),
                _ => TimeToLive::Frames(100),
            };
            let _ = world.spawn(EntityRecord { cosmetic: Some(c), ttl: Some(ttl), ..EntityRecord::empty(Entity { id: 0 }) });
        },
        _ => {},
    }
}

/// `s` with the input of every record of connection `from` set to
/// `command`.
pub open spec fn commanded(s: Seq<EntityRecord>, from: Connection, command: Input) -> Seq<EntityRecord> {
    Seq::new(s.len(), |i: int| if s[i].connection == Some(from) {
        EntityRecord { input: Some(command), ..s[i] }
    } else {
        s[i]
    })
}

/// `s` after the commands among the first `k` packets, in order: each
/// record ends with the last command its connection sent.
pub open spec fn commands_applied(s: Seq<EntityRecord>, packets: Seq<(Connection, Packet)>, k: nat) -> Seq<EntityRecord>
    decreases k,
{
    if k == 0 || k > packets.len() {
        s
    } else {
        let w = commands_applied(s, packets, (k - 1) as nat);
        match packets[k - 1].1 {
            Packet::PlayerCommand(cmd) => commanded(w, packets[k - 1].0, cmd),
            _ => w,
        }
    }
}

/// Server side: the command received from connection `from` becomes the
/// input of every record that connection owns.
pub fn apply_command(world: &mut World, from: Connection, command: Input)
    requires
        old(world).wf(),
    ensures
        final(world).wf(),
        final(world).entities@ == commanded(old(world).entities@, from, command),
{
    let ghost s = world.entities@;
    let n = world.entities.len();
    let mut i: usize = 0;
    while i < n
        invariant
            n == world.entities@.len(),
            n == s.len(),
            s == old(world).entities@,
            ids_unique(s),
            world.next_id == old(world).next_id,
            world.next_id <= u32::MAX + 1,
            forall|k: int| 0 <= k < s.len() ==> s[k].entity.id < world.next_id,
            i <= n,
            forall|k: int| 0 <= k < i ==> world.entities@[k] == commanded(s, from, command)[k],
            forall|k: int| i <= k < n ==> world.entities@[k] == s[k],
        decreases n - i,
    {
        let r = world.entities[i];
        let mine = match r.connection {
            Some(c) => c == from,
            None => false,
        };
        if mine {
            world.entities.set(i, EntityRecord { input: Some(command), ..r });
        }
        i = i + 1;
    }
    proof {
        let w = world.entities@;
        assert forall|a: int, b: int| 0 <= a < w.len() && 0 <= b < w.len() && a != b implies w[a].entity != w[b].entity by {
            assert(w[a].entity == s[a].entity);
            assert(w[b].entity == s[b].entity);
        }
        assert forall|a: int| 0 <= a < w.len() implies w[a].entity.id < world.next_id by {
            assert(w[a].entity == s[a].entity);
        }
        assert(w =~= commanded(s, from, command));
    }
}

/// Server side: applies every command received this tick, in order.
pub fn network_player_commands(world: &mut World, packets: &Vec<(Connection, Packet)>)
    requires
        old(world).wf(),
    ensures
        final(world).wf(),
        final(world).entities@ == commands_applied(old(world).entities@, packets@, packets@.len()),
{
    let mut k: usize = 0;
    while k < packets.len()
        invariant
            world.wf(),
            k <= packets@.len(),
            world.entities@ == commands_applied(old(world).entities@, packets@, k as nat),
        decreases packets@.len() - k,
    {
        let (c, p) = packets[k];
        match p {
            Packet::PlayerCommand(cmd) => {
                apply_command(world, c, cmd);
            },
            _ => {},
        }
        k = k + 1;
    }
}

} // verus!

verus! {

/// `e` stops projectiles on a client: fixed geometry, or a raised shield.
pub open spec fn stops_projectiles(s: Seq<EntityRecord>, e: Entity) -> bool {
    alive(s, e) && {
        let t = s[crate::ability::index_of(s, e)];
        t.fixed is Some || (t.effect == Some(Effect::Shield) && (t.ability matches Some(a) && a.active))
    }
}

/// The record `i` is a local projectile that hit something that stops it.
pub open spec fn stopped(s: Seq<EntityRecord>, cs: Seq<Collisions>, i: int) -> bool {
    s[i].ttl is Some && exists|k: int| 0 <= k < hit_ids(cs[i].hits).len()
        && #[trigger] stops_projectiles(s, hit_ids(cs[i].hits)[k])
}

/// Identifiers of the stopped projectiles among the first `n` records.
pub open spec fn stopped_list(s: Seq<EntityRecord>, cs: Seq<Collisions>, n: nat) -> Seq<Entity>
    decreases n,
{
    if n == 0 || n > s.len() {
        Seq::empty()
    } else if stopped(s, cs, n - 1) {
        stopped_list(s, cs, (n - 1) as nat).push(s[n - 1].entity)
    } else {
        stopped_list(s, cs, (n - 1) as nat)
    }
}

proof fn lemma_stopped_members(s: Seq<EntityRecord>, cs: Seq<Collisions>, n: nat, e: Entity)
    requires
        n <= s.len(),
    ensures
        stopped_list(s, cs, n).contains(e) <==> exists|j: int| 0 <= j < n && stopped(s, cs, j) && s[j].entity == e,
    decreases n,
{
    if n > 0 {
        lemma_stopped_members(s, cs, (n - 1) as nat, e);
        let prev = stopped_list(s, cs, (n - 1) as nat);
        let cur = stopped_list(s, cs, n);
        if stopped(s, cs, n - 1) {
            assert(cur == prev.push(s[n - 1].entity));
            if cur.contains(e) {
                let k = choose|k: int| 0 <= k < cur.len() && cur[k] == e;
                if k < prev.len() {
                    assert(prev.contains(e));
                }
            }
            if exists|j: int| 0 <= j < n && stopped(s, cs, j) && s[j].entity == e {
                let j = choose|j: int| 0 <= j < n && stopped(s, cs, j) && s[j].entity == e;
                if j < n - 1 {
                    assert(prev.contains(e));
                    let k = choose|k: int| 0 <= k < prev.len() && prev[k] == e;
                    assert(cur[k] == e);
                } else {
                    assert(cur[prev.len() as int] == e);
                }
            }
        } else {
            if exists|j: int| 0 <= j < n && stopped(s, cs, j) && s[j].entity == e {
                let j = choose|j: int| 0 <= j < n && stopped(s, cs, j) && s[j].entity == e;
                assert(j < n - 1);
            }
        }
    }
}

fn stops_exec(world: &World, e: Entity) -> (b: bool)
    requires
        world.wf(),
    ensures
        b == stops_projectiles(world.entities@, e),
{
    match world.find(e) {
        Some(k) => {
            proof {
                crate::ability::lemma_index_of(world.entities@, k as int);
            }
            let t = world.entities[k];
            let shield = match (t.effect, t.ability) {
                (Some(Effect::Shield), Some(a)) => a.active,
                _ => false,
            };
            t.fixed.is_some() || shield
        },
        None => false,
    }
}

/// What removing the stopped projectiles makes of the records `s`, whose
/// collision sets are `cs`: the records `t`.
pub open spec fn stop_rel(s: Seq<EntityRecord>, cs: Seq<Collisions>, t: Seq<EntityRecord>) -> bool {
    &&& forall|i: int| 0 <= i < s.len() && #[trigger] stopped(s, cs, i) ==> !alive(t, s[i].entity)
    &&& forall|i: int| 0 <= i < s.len() && !stopped(s, cs, i) ==> t.contains(#[trigger] s[i])
    &&& forall|rec: EntityRecord| t.contains(rec) ==> s.contains(rec)
}

/// Client side: a client cannot know which projectiles hit on the server,
/// so it removes each of its projectiles that hit fixed geometry or a
/// raised shield. `collisions` holds one set per record, in order.
pub fn stop_projectiles(world: &mut World, collisions: &Vec<Collisions>)
    requires
        old(world).wf(),
        aligned(old(world).entities@, collisions@),
    ensures
        final(world).wf(),
        forall|i: int| 0 <= i < old(world).entities@.len() && #[trigger] stopped(old(world).entities@, collisions@, i)
            ==> !alive(final(world).entities@, old(world).entities@[i].entity),
        forall|i: int| 0 <= i < old(world).entities@.len() && !stopped(old(world).entities@, collisions@, i)
            ==> final(world).entities@.contains(#[trigger] old(world).entities@[i]),
        forall|rec: EntityRecord| final(world).entities@.contains(rec) ==> old(world).entities@.contains(rec),
        stop_rel(old(world).entities@, collisions@, final(world).entities@),
{
    let ghost s = world.entities@;
    let ghost cs = collisions@;
    let n = world.entities.len();
    let mut gone: Vec<Entity> = Vec::new();
    let mut i: usize = 0;
    while i < n
        invariant
            s == world.entities@,
            cs == collisions@,
            world.wf(),
            aligned(s, cs),
            n == s.len(),
            i <= n,
            gone@ == stopped_list(s, cs, i as nat),
        decreases n - i,
    {
        let r = world.entities[i];
        if r.ttl.is_some() {
            let hits = &collisions[i].hits;
            let m = hits_len(hits);
            let mut k: usize = 0;
            let mut hit = false;
            while k < m
                invariant
                    world.wf(),
                    s == world.entities@,
                    *hits == cs[i as int].hits,
                    m == hit_ids(*hits).len(),
                    k <= m,
                    hit ==> stopped(s, cs, i as int),
                    !hit ==> forall|j: int| 0 <= j < k ==> !#[trigger] stops_projectiles(s, hit_ids(*hits)[j]),
                    r == s[i as int],
                    r.ttl is Some,
                decreases m - k,
            {
                if !hit && stops_exec(world, hits_get(hits, k)) {
                    hit = true;
                }
                k = k + 1;
            }
            if hit {
                gone.push(r.entity);
            } else {
                proof {
                    if stopped(s, cs, i as int) {
                        let q = choose|q: int| 0 <= q < hit_ids(cs[i as int].hits).len()
                            && #[trigger] stops_projectiles(s, hit_ids(cs[i as int].hits)[q]);
                        assert(!stops_projectiles(s, hit_ids(*hits)[q]));
                    }
                }
            }
        } else {
            assert(!stopped(s, cs, i as int));
        }
        i = i + 1;
    }
    let m = gone.len();
    let mut q: usize = 0;
    while q < m
        invariant
            world.wf(),
            ids_unique(s),
            m == gone@.len(),
            q <= m,
            forall|j: int| 0 <= j < q ==> !alive(world.entities@, #[trigger] gone@[j]),
            forall|rec: EntityRecord| world.entities@.contains(rec) ==> s.contains(rec),
            forall|rec: EntityRecord| s.contains(rec) && !gone@.contains(rec.entity) ==> world.entities@.contains(rec),
        decreases m - q,
    {
        let ghost before = world.entities@;
        world.despawn(gone[q]);
        proof {
            assert forall|j: int| 0 <= j < q + 1 implies !alive(world.entities@, #[trigger] gone@[j]) by {
                if j < q {
                    assert(!alive(before, gone@[j]));
                }
            }
            assert forall|rec: EntityRecord| s.contains(rec) && !gone@.contains(rec.entity) implies world.entities@.contains(rec) by {
                assert(before.contains(rec));
                assert(rec.entity != gone@[q as int]);
            }
        }
        q = q + 1;
    }
    proof {
        assert forall|i: int| 0 <= i < s.len() && #[trigger] stopped(s, cs, i) implies !alive(world.entities@, s[i].entity) by {
            lemma_stopped_members(s, cs, n as nat, s[i].entity);
            let q = choose|q: int| 0 <= q < gone@.len() && gone@[q] == s[i].entity;
            assert(!alive(world.entities@, gone@[q]));
        }
        assert forall|i: int| 0 <= i < s.len() && !stopped(s, cs, i) implies world.entities@.contains(#[trigger] s[i]) by {
            assert(s.contains(s[i]));
            lemma_stopped_members(s, cs, n as nat, s[i].entity);
            if gone@.contains(s[i].entity) {
                let k = choose|k: int| 0 <= k < n && stopped(s, cs, k) && s[k].entity == s[i].entity;
                assert(k == i);
            }
        }
    }
}

} // verus!
