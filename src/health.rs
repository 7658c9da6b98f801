use vstd::prelude::*;

use crate::ability::{cool, cool_down, index_of, lemma_index_of, Cooldown};
use crate::time::Time;
use crate::net::{Outbound, Packet};
use crate::physics::{hit_ids, hits_get, hits_len, Collisions, HitList};
use crate::math::Vec2;
use crate::physics::Transform;
use crate::world::{alive, ids_unique, Entity, EntityRecord, World};

verus! {

/// Hit points of an entity: `now` stays within `0..=max`.
#[derive(Debug, Clone, Copy, PartialEq, Eq, Structural)]
pub struct Health {
    pub now: u32,
    pub max: u32,
}

/// Damage that an entity deals to what it collides with.
#[derive(Debug, Clone, Copy, PartialEq, Eq, Structural)]
pub struct Damage {
    /// Hit points taken from each target.
    pub amount: u32,
    /// An entity that takes no damage, such as the shooter.
    pub exclude: Option<Entity>,
    /// Whether the entity is removed once it hits.
    pub destroy: bool,
}

/// Milliseconds left before `player` comes back to the arena.
#[derive(Debug, Clone, Copy, PartialEq, Eq, Structural)]
pub struct RespawnTimer {
    pub player: Entity,
    pub left: u32,
}

} // verus!

verus! {

/// A damage-dealing entity with damage `dm` harms the entity `e` it hits:
/// `e` is not excluded, is not an inactive ability, and deals no damage
/// itself.
pub open spec fn harms(s: Seq<EntityRecord>, dm: Damage, e: Entity) -> bool {
    &&& dm.exclude != Some(e)
    &&& alive(s, e) ==> {
        let t = s[index_of(s, e)];
        &&& !(t.ability matches Some(a) && !a.active)
        &&& t.damage is None
    }
}

/// Damage that the first `n` damage-dealing records of `s` deal to `e`,
/// where `cs` holds their collision sets.
pub open spec fn damage_to(s: Seq<EntityRecord>, cs: Seq<Collisions>, e: Entity, n: nat) -> int
    decreases n,
{
    if n == 0 || n > s.len() || n > cs.len() {
        0
    } else {
        let prev = damage_to(s, cs, e, (n - 1) as nat);
        match s[n - 1].damage {
            Some(dm) => if hit_ids(cs[n - 1].hits).contains(e) && harms(s, dm, e) {
                prev + dm.amount
            } else {
                prev
            },
            None => prev,
        }
    }
}

/// The damage-dealing record `i` is removed this tick: it is destroyed on
/// hit and it harmed something it collided with.
pub open spec fn destroyed(s: Seq<EntityRecord>, cs: Seq<Collisions>, i: int) -> bool {
    s[i].damage matches Some(dm) && dm.destroy && exists|k: int|
        0 <= k < hit_ids(cs[i].hits).len() && #[trigger] harms(s, dm, hit_ids(cs[i].hits)[k])
}

/// Health after `d` damage: it falls to 0 at the lowest.
pub open spec fn after_damage(h: Health, d: int) -> Health {
    Health { now: if d >= h.now { 0 } else { (h.now - d) as u32 }, ..h }
}

/// `r` after the damage of this tick.
pub open spec fn damage_step(s: Seq<EntityRecord>, cs: Seq<Collisions>, r: EntityRecord) -> EntityRecord {
    match r.health {
        Some(h) => {
            let d = damage_to(s, cs, r.entity, s.len());
            if d > 0 {
                EntityRecord { health: Some(after_damage(h, d)), ..r }
            } else {
                r
            }
        },
        None => r,
    }
}

/// The health messages of the first `k` hits of the damage-dealing record
/// `i`: for each hit that harms an entity with health, that entity's health
/// after the damage of every record up to and including `i`.
pub open spec fn hit_msgs(s: Seq<EntityRecord>, cs: Seq<Collisions>, i: int, k: nat) -> Seq<Outbound>
    decreases k,
{
    let hits = hit_ids(cs[i].hits);
    if k == 0 || k > hits.len() {
        Seq::empty()
    } else {
        let prev = hit_msgs(s, cs, i, (k - 1) as nat);
        let e = hits[k - 1];
        match s[i].damage {
            Some(dm) => if harms(s, dm, e) && alive(s, e) && s[index_of(s, e)].health is Some {
                prev.push(Outbound::Broadcast(Packet::EntityHealth(
                    e,
                    after_damage(s[index_of(s, e)].health.unwrap(), damage_to(s, cs, e, (i + 1) as nat)).now,
                )))
            } else {
                prev
            },
            None => prev,
        }
    }
}

/// Health messages of the hits of the first `n` records of `s`, in order.
pub open spec fn health_notices(s: Seq<EntityRecord>, cs: Seq<Collisions>, n: nat) -> Seq<Outbound>
    decreases n,
{
    if n == 0 || n > s.len() || n > cs.len() {
        Seq::empty()
    } else {
        health_notices(s, cs, (n - 1) as nat) + hit_msgs(s, cs, n - 1, hit_ids(cs[n - 1].hits).len())
    }
}

proof fn lemma_no_hit_msgs(s: Seq<EntityRecord>, cs: Seq<Collisions>, i: int, k: nat)
    requires
        s[i].damage is None,
    ensures
        hit_msgs(s, cs, i, k) == Seq::<Outbound>::empty(),
    decreases k,
{
    if k > 0 {
        lemma_no_hit_msgs(s, cs, i, (k - 1) as nat);
    }
}

/// `cs` holds one collision set per record of `s`, in order.
pub open spec fn aligned(s: Seq<EntityRecord>, cs: Seq<Collisions>) -> bool {
    &&& cs.len() == s.len()
    &&& forall|i: int| 0 <= i < s.len() ==> #[trigger] cs[i].owner == s[i].entity
}

fn harms_exec(world: &World, dm: Damage, e: Entity) -> (b: bool)
    requires
        world.wf(),
    ensures
        b == harms(world.entities@, dm, e),
{
    let excluded = match dm.exclude {
        Some(x) => x == e,
        None => false,
    };
    if excluded {
        return false;
    }
    match world.find(e) {
        Some(k) => {
            proof {
                lemma_index_of(world.entities@, k as int);
            }
            let t = world.entities[k];
            let inactive = match t.ability {
                Some(a) => !a.active,
                None => false,
            };
            !inactive && t.damage.is_none()
        },
        None => true,
    }
}

fn hit_list_contains(hits: &HitList, e: Entity) -> (b: bool)
    ensures
        b == hit_ids(*hits).contains(e),
{
    let n = hits_len(hits);
    let mut k: usize = 0;
    while k < n
        invariant
            n == hit_ids(*hits).len(),
            k <= n,
            forall|j: int| 0 <= j < k ==> hit_ids(*hits)[j] != e,
        decreases n - k,
    {
        if hits_get(hits, k) == e {
            assert(hit_ids(*hits)[k as int] == e);
            return true;
        }
        k = k + 1;
    }
    false
}

fn total_damage(world: &World, cs: &Vec<Collisions>, e: Entity, n: usize) -> (d: u128)
    requires
        world.wf(),
        aligned(world.entities@, cs@),
        n <= world.entities@.len(),
    ensures
        d == damage_to(world.entities@, cs@, e, n as nat),
{
    let mut d: u128 = 0;
    let mut i: usize = 0;
    while i < n
        invariant
            n <= world.entities@.len(),
            world.wf(),
            aligned(world.entities@, cs@),
            i <= n,
            d == damage_to(world.entities@, cs@, e, i as nat),
            d <= i * 0x1_0000_0000,
        decreases n - i,
    {
        match world.entities[i].damage {
            Some(dm) => {
                if hit_list_contains(&cs[i].hits, e) && harms_exec(world, dm, e) {
                    d = d + dm.amount as u128;
                }
            },
            None => {},
        }
        i = i + 1;
    }
    d
}

fn is_destroyed(world: &World, cs: &Vec<Collisions>, i: usize) -> (b: bool)
    requires
        world.wf(),
        aligned(world.entities@, cs@),
        i < world.entities@.len(),
    ensures
        b == destroyed(world.entities@, cs@, i as int),
{
    match world.entities[i].damage {
        Some(dm) => {
            if !dm.destroy {
                return false;
            }
            let hits = &cs[i].hits;
            let m = hits_len(hits);
            let mut k: usize = 0;
            while k < m
                invariant
                    world.wf(),
                    aligned(world.entities@, cs@),
                    i < world.entities@.len(),
                    world.entities@[i as int].damage == Some(dm),
                    dm.destroy,
                    *hits == cs@[i as int].hits,
                    m == hit_ids(*hits).len(),
                    k <= m,
                    forall|j: int| 0 <= j < k ==> !#[trigger] harms(world.entities@, dm, hit_ids(*hits)[j]),
                decreases m - k,
            {
                if harms_exec(world, dm, hits_get(hits, k)) {
                    assert(harms(world.entities@, dm, hit_ids(cs@[i as int].hits)[k as int]));
                    return true;
                }
                k = k + 1;
            }
            false
        },
        None => false,
    }
}

/// Identifiers of the records among the first `n` of `s` that this tick
/// removes, in order.
pub open spec fn removals(s: Seq<EntityRecord>, cs: Seq<Collisions>, n: nat) -> Seq<Entity>
    decreases n,
{
    if n == 0 || n > s.len() {
        Seq::empty()
    } else if destroyed(s, cs, n - 1) {
        removals(s, cs, (n - 1) as nat).push(s[n - 1].entity)
    } else {
        removals(s, cs, (n - 1) as nat)
    }
}

proof fn lemma_removals_members(s: Seq<EntityRecord>, cs: Seq<Collisions>, n: nat, e: Entity)
    requires
        n <= s.len(),
    ensures
        removals(s, cs, n).contains(e) <==> exists|k: int| 0 <= k < n && destroyed(s, cs, k) && s[k].entity == e,
    decreases n,
{
    if n > 0 {
        lemma_removals_members(s, cs, (n - 1) as nat, e);
        let prev = removals(s, cs, (n - 1) as nat);
        if destroyed(s, cs, n - 1) {
            assert(removals(s, cs, n) == prev.push(s[n - 1].entity));
            if removals(s, cs, n).contains(e) {
                let k = choose|k: int| 0 <= k < removals(s, cs, n).len() && removals(s, cs, n)[k] == e;
                if k < prev.len() {
                    assert(prev.contains(e));
                }
            }
            if exists|k: int| 0 <= k < n && destroyed(s, cs, k) && s[k].entity == e {
                let k = choose|k: int| 0 <= k < n && destroyed(s, cs, k) && s[k].entity == e;
                if k < n - 1 {
                    assert(prev.contains(e));
                    let j = choose|j: int| 0 <= j < prev.len() && prev[j] == e;
                    assert(removals(s, cs, n)[j] == e);
                } else {
                    assert(removals(s, cs, n)[prev.len() as int] == e);
                }
            }
        } else {
            if exists|k: int| 0 <= k < n && destroyed(s, cs, k) && s[k].entity == e {
                let k = choose|k: int| 0 <= k < n && destroyed(s, cs, k) && s[k].entity == e;
                assert(k < n - 1);
            }
        }
    }
}

/// However many entities a destroy-on-hit entity harms in one tick, it is
/// listed for removal at most once.
pub proof fn lemma_removed_at_most_once(s: Seq<EntityRecord>, cs: Seq<Collisions>, n: nat)
    requires
        ids_unique(s),
        n <= s.len(),
    ensures
        removals(s, cs, n).no_duplicates(),
    decreases n,
{
    if n > 0 {
        lemma_removed_at_most_once(s, cs, (n - 1) as nat);
        if destroyed(s, cs, n - 1) {
            let prev = removals(s, cs, (n - 1) as nat);
            if prev.contains(s[n - 1].entity) {
                lemma_removals_members(s, cs, (n - 1) as nat, s[n - 1].entity);
            }
            assert(removals(s, cs, n) == prev.push(s[n - 1].entity));
            assert forall|a: int, b: int| 0 <= a < b < prev.len() + 1 implies removals(s, cs, n)[a] != removals(s, cs, n)[b] by {
                if b == prev.len() {
                    assert(prev[a] == removals(s, cs, n)[a]);
                    assert(prev.contains(prev[a]));
                }
            }
        }
    }
}

fn apply_damage(h: Health, d: u128) -> (r: Health)
    ensures
        r == after_damage(h, d as int),
{
    Health { now: if d >= h.now as u128 { 0 } else { h.now - d as u32 }, ..h }
}

/// The contract of `impact_and_damage`, as a relation between the records before
/// (`s`) and after (`t`) and the messages `r`.
pub open spec fn damage_rel(s: Seq<EntityRecord>, cs: Seq<Collisions>, t: Seq<EntityRecord>, r: Seq<Outbound>) -> bool {
    &&& (r == health_notices(s, cs, s.len()))
    &&& (forall|i: int| 0 <= i < s.len() ==> {
            let e = #[trigger] s[i].entity;
            &&& destroyed(s, cs, i) ==> !alive(t, e)
            &&& !destroyed(s, cs, i)
                ==> t.contains(damage_step(s, cs, s[i]))
        })
    &&& (forall|e: Entity| alive(t, e) ==> alive(s, e))
    &&& (t.len() + removals(s, cs, s.len()).len()
            == s.len())
}

/// Applies the damage of this tick. Every damage-dealing entity harms each
/// entity in its collision set that it may harm (see `harms`); each
/// entity's health falls by the total it took, to 0 at the lowest, and a
/// broadcast carries the new value. Every damage-dealing entity that is
/// destroyed on hit and harmed something is removed, once.
pub fn impact_and_damage(world: &mut World, collisions: &Vec<Collisions>) -> (r: Vec<Outbound>)
    requires
        old(world).wf(),
        aligned(old(world).entities@, collisions@),
    ensures
        final(world).wf(),
        r@ == health_notices(old(world).entities@, collisions@, old(world).entities@.len()),
        forall|i: int| 0 <= i < old(world).entities@.len() ==> {
            let e = #[trigger] old(world).entities@[i].entity;
            &&& destroyed(old(world).entities@, collisions@, i) ==> !alive(final(world).entities@, e)
            &&& !destroyed(old(world).entities@, collisions@, i)
                ==> final(world).entities@.contains(damage_step(old(world).entities@, collisions@, old(world).entities@[i]))
        },
        forall|e: Entity| alive(final(world).entities@, e) ==> alive(old(world).entities@, e),
        final(world).entities@.len() + removals(old(world).entities@, collisions@, old(world).entities@.len()).len()
            == old(world).entities@.len(),
{
    let ghost s = world.entities@;
    let ghost cs = collisions@;
    let n = world.entities.len();
    let mut out: Vec<Outbound> = Vec::new();
    let mut remove: Vec<Entity> = Vec::new();
    let mut totals: Vec<u128> = Vec::new();
    let mut i: usize = 0;
    while i < n
        invariant
            s == world.entities@,
            cs == collisions@,
            world.wf(),
            aligned(s, cs),
            n == s.len(),
            i <= n,
            out@ == health_notices(s, cs, i as nat),
            remove@ == removals(s, cs, i as nat),
            totals@.len() == i,
            forall|k: int| 0 <= k < i ==> totals@[k] == damage_to(s, cs, s[k].entity, s.len()),
        decreases n - i,
    {
        let r = world.entities[i];
        let d = total_damage(world, collisions, r.entity, n);
        totals.push(d);
        match r.damage {
            Some(dm) => {
                let hits = &collisions[i].hits;
                let m = hits_len(hits);
                let mut k: usize = 0;
                while k < m
                    invariant
                        s == world.entities@,
                        cs == collisions@,
                        world.wf(),
                        aligned(s, cs),
                        n == s.len(),
                        i < n,
                        s[i as int].damage == Some(dm),
                        *hits == cs[i as int].hits,
                        m == hit_ids(*hits).len(),
                        k <= m,
                        out@ == health_notices(s, cs, i as nat) + hit_msgs(s, cs, i as int, k as nat),
                    decreases m - k,
                {
                    let e = hits_get(hits, k);
                    let ghost prev = out@;
                    if harms_exec(world, dm, e) {
                        match world.find(e) {
                            Some(t) => {
                                proof {
                                    lemma_index_of(s, t as int);
                                }
                                match world.entities[t].health {
                                    Some(h) => {
                                        let dd = total_damage(world, collisions, e, i + 1);
                                        out.push(Outbound::Broadcast(Packet::EntityHealth(e, apply_damage(h, dd).now)));
                                    },
                                    None => {},
                                }
                            },
                            None => {},
                        }
                    }
                    assert(out@ =~= health_notices(s, cs, i as nat) + hit_msgs(s, cs, i as int, (k + 1) as nat));
                    k = k + 1;
                }
            },
            None => {
                assert(hit_msgs(s, cs, i as int, hit_ids(cs[i as int].hits).len()) =~= Seq::<Outbound>::empty()) by {
                    lemma_no_hit_msgs(s, cs, i as int, hit_ids(cs[i as int].hits).len());
                }
            },
        }
        assert(out@ =~= health_notices(s, cs, (i + 1) as nat));
        if is_destroyed(world, collisions, i) {
            remove.push(r.entity);
        }
        i = i + 1;
    }
    let mut i: usize = 0;
    while i < n
        invariant
            s == old(world).entities@,
            ids_unique(s),
            n == s.len(),
            world.next_id == old(world).next_id,
            n == world.entities@.len(),
            i <= n,
            totals@.len() == n,
            forall|k: int| 0 <= k < n ==> totals@[k] == damage_to(s, cs, s[k].entity, s.len()),
            forall|k: int| 0 <= k < s.len() ==> s[k].entity.id < world.next_id,
            forall|k: int| 0 <= k < i ==> world.entities@[k] == damage_step(s, cs, s[k]),
            forall|k: int| i <= k < n ==> world.entities@[k] == s[k],
        decreases n - i,
    {
        let r = world.entities[i];
        match r.health {
            Some(h) => {
                if totals[i] > 0 {
                    world.entities.set(i, EntityRecord { health: Some(apply_damage(h, totals[i])), ..r });
                }
            },
            None => {},
        }
        i = i + 1;
    }
    let ghost mid = world.entities@;
    proof {
        assert forall|a: int, b: int| 0 <= a < mid.len() && 0 <= b < mid.len() && a != b
            implies mid[a].entity != mid[b].entity by {
            assert(mid[a].entity == s[a].entity);
            assert(mid[b].entity == s[b].entity);
        }
        assert forall|a: int| 0 <= a < mid.len() implies mid[a].entity.id < world.next_id by {
            assert(mid[a].entity == s[a].entity);
        }
    }
    proof {
        lemma_removed_at_most_once(s, cs, n as nat);
        assert forall|q: int| 0 <= q < remove@.len() implies alive(mid, #[trigger] remove@[q]) by {
            lemma_removals_members(s, cs, n as nat, remove@[q]);
            assert(remove@.contains(remove@[q]));
            let k = choose|k: int| 0 <= k < n && destroyed(s, cs, k) && s[k].entity == remove@[q];
            assert(mid[k].entity == s[k].entity);
        }
    }
    let m = remove.len();
    let mut j: usize = 0;
    while j < m
        invariant
            world.wf(),
            m == remove@.len(),
            remove@ == removals(s, cs, n as nat),
            remove@.no_duplicates(),
            world.entities@.len() + j == mid.len(),
            forall|q: int| j <= q < m ==> alive(world.entities@, #[trigger] remove@[q]),
            n == s.len(),
            mid.len() == n,
            forall|k: int| 0 <= k < n ==> mid[k] == damage_step(s, cs, s[k]),
            j <= m,
            forall|k: int| 0 <= k < j ==> !alive(world.entities@, #[trigger] remove@[k]),
            forall|e: Entity| alive(world.entities@, e) ==> alive(mid, e),
            forall|rec: EntityRecord| !remove@.contains(rec.entity) ==> (mid.contains(rec) ==> world.entities@.contains(rec)),
        decreases m - j,
    {
        let e = remove[j];
        let ghost before = world.entities@;
        world.despawn(e);
        proof {
            assert forall|q: int| j + 1 <= q < m implies alive(world.entities@, #[trigger] remove@[q]) by {
                assert(remove@[q] != remove@[j as int]);
                assert(alive(before, remove@[q]));
            }
            assert forall|rec: EntityRecord| !remove@.contains(rec.entity) implies (mid.contains(rec) ==> world.entities@.contains(rec)) by {
                if mid.contains(rec) {
                    assert(before.contains(rec));
                    assert(rec.entity != e);
                }
            }
            assert forall|k: int| 0 <= k < j + 1 implies !alive(world.entities@, #[trigger] remove@[k]) by {
                if k < j {
                    if alive(world.entities@, remove@[k]) {
                        assert(remove@[k] != e);
                    }
                }
            }
        }
        j = j + 1;
    }
    proof {
        assert forall|i: int| 0 <= i < s.len() implies {
            let e = #[trigger] s[i].entity;
            &&& destroyed(s, cs, i) ==> !alive(world.entities@, e)
            &&& !destroyed(s, cs, i) ==> world.entities@.contains(damage_step(s, cs, s[i]))
        } by {
            let e = s[i].entity;
            lemma_removals_members(s, cs, n as nat, e);
            if destroyed(s, cs, i) {
                assert(remove@.contains(e));
                let k = choose|k: int| 0 <= k < remove@.len() && remove@[k] == e;
                assert(!alive(world.entities@, remove@[k]));
            } else {
                if remove@.contains(e) {
                    let k = choose|k: int| 0 <= k < n && destroyed(s, cs, k) && s[k].entity == e;
                    assert(k == i);
                }
                assert(mid[i] == damage_step(s, cs, s[i]));
                assert(mid.contains(mid[i]));
                assert(mid[i].entity == e);
            }
        }
        assert forall|e: Entity| alive(world.entities@, e) implies alive(s, e) by {
            assert(alive(mid, e));
            let k = choose|k: int| 0 <= k < mid.len() && mid[k].entity == e;
            assert(s[k].entity == e);
        }
    }
    out
}

} // verus!

verus! {

/// Where a dead player waits until it respawns, off the arena.
pub const LIMBO_X: i32 = -2000;
pub const LIMBO_Y: i32 = 5000;

/// Where players respawn.
pub const SPAWN_X: i32 = 100;
pub const SPAWN_Y: i32 = 500;

/// Milliseconds between a death and the respawn.
pub const RESPAWN_DELAY: u32 = 2000;

/// The entity is dead: it has health and none is left.
pub open spec fn is_dead(r: EntityRecord) -> bool {
    r.health matches Some(h) && h.now == 0
}

/// `r` after a death check: a dead entity gets its full health back and
/// waits off the arena.
pub open spec fn kill_step(r: EntityRecord) -> EntityRecord {
    if is_dead(r) {
        EntityRecord {
            health: Some(Health { now: r.health.unwrap().max, ..r.health.unwrap() }),
            transform: match r.transform {
                Some(t) => Some(Transform { translation: Vec2 { x: LIMBO_X, y: LIMBO_Y }, ..t }),
                None => None,
            },
            ..r
        }
    } else {
        r
    }
}

/// Identifiers of the dead among the first `n` records of `s`, in order.
pub open spec fn dead_list(s: Seq<EntityRecord>, n: nat) -> Seq<Entity>
    decreases n,
{
    if n == 0 || n > s.len() {
        Seq::empty()
    } else if is_dead(s[n - 1]) {
        dead_list(s, (n - 1) as nat).push(s[n - 1].entity)
    } else {
        dead_list(s, (n - 1) as nat)
    }
}

/// The record of a respawn timer for `player`.
pub open spec fn timer_record(id: Entity, player: Entity) -> EntityRecord {
    EntityRecord { respawn: Some(RespawnTimer { player, left: RESPAWN_DELAY }), ..EntityRecord::empty_spec(id) }
}

/// Health notices for the dead among the first `n` records of `s`.
pub open spec fn revive_notices(s: Seq<EntityRecord>, n: nat) -> Seq<Outbound>
    decreases n,
{
    if n == 0 || n > s.len() {
        Seq::empty()
    } else if is_dead(s[n - 1]) {
        revive_notices(s, (n - 1) as nat).push(
            Outbound::Broadcast(Packet::EntityHealth(s[n - 1].entity, s[n - 1].health.unwrap().max)),
        )
    } else {
        revive_notices(s, (n - 1) as nat)
    }
}

/// What the death pass makes of the records `s` whose next free identifier
/// is `id0`: each record as `kill_step` gives it, then one timer for each
/// dead entity, under the next identifiers in turn (as long as they last).
pub open spec fn killed(s: Seq<EntityRecord>, id0: nat, t: Seq<EntityRecord>) -> bool {
    let dead = dead_list(s, s.len());
    &&& t.len() >= s.len()
    &&& forall|i: int| 0 <= i < s.len() ==> t[i] == kill_step(s[i])
    &&& id0 + dead.len() <= u32::MAX + 1 ==> {
        &&& t.len() == s.len() + dead.len()
        &&& forall|k: int| 0 <= k < dead.len() ==> #[trigger] t[s.len() + k] == timer_record(Entity { id: (id0 + k) as u32 }, dead[k])
    }
}

/// Finds the dead: each gets its full health back, broadcast, and is moved
/// off the arena, and one respawn timer is added for it, under the next
/// free identifiers in turn (as long as identifiers remain).
pub fn kill_players(world: &mut World) -> (r: Vec<Outbound>)
    requires
        old(world).wf(),
    ensures
        final(world).wf(),
        r@ == revive_notices(old(world).entities@, old(world).entities@.len()),
        killed(old(world).entities@, old(world).next_id as nat, final(world).entities@),
        final(world).entities@.len() >= old(world).entities@.len(),
        forall|i: int| 0 <= i < old(world).entities@.len() ==> final(world).entities@[i] == kill_step(old(world).entities@[i]),
        ({
            let dead = dead_list(old(world).entities@, old(world).entities@.len());
            old(world).next_id + dead.len() <= u32::MAX + 1 ==> {
                &&& final(world).entities@.len() == old(world).entities@.len() + dead.len()
                &&& forall|k: int| 0 <= k < dead.len() ==> #[trigger] final(world).entities@[old(world).entities@.len() + k]
                    == timer_record(Entity { id: (old(world).next_id + k) as u32 }, dead[k])
            }
        }),
{
    let ghost s = world.entities@;
    let n = world.entities.len();
    let mut out: Vec<Outbound> = Vec::new();
    let mut dead: Vec<Entity> = Vec::new();
    let mut i: usize = 0;
    while i < n
        invariant
            s == old(world).entities@,
            ids_unique(s),
            n == s.len(),
            world.next_id == old(world).next_id,
            n == world.entities@.len(),
            i <= n,
            forall|k: int| 0 <= k < s.len() ==> s[k].entity.id < world.next_id,
            forall|k: int| 0 <= k < i ==> world.entities@[k] == kill_step(s[k]),
            forall|k: int| i <= k < n ==> world.entities@[k] == s[k],
            out@ == revive_notices(s, i as nat),
            dead@ == dead_list(s, i as nat),
        decreases n - i,
    {
        let r = world.entities[i];
        match r.health {
            Some(h) => {
                if h.now == 0 {
                    let t = match r.transform {
                        Some(t) => Some(Transform { translation: Vec2 { x: LIMBO_X, y: LIMBO_Y }, ..t }),
                        None => None,
                    };
                    world.entities.set(i, EntityRecord { health: Some(Health { now: h.max, ..h }), transform: t, ..r });
                    out.push(Outbound::Broadcast(Packet::EntityHealth(r.entity, h.max)));
                    dead.push(r.entity);
                }
            },
            None => {},
        }
        i = i + 1;
    }
    proof {
        let w = world.entities@;
        assert forall|a: int, b: int| 0 <= a < w.len() && 0 <= b < w.len() && a != b implies w[a].entity != w[b].entity by {
            assert(w[a].entity == s[a].entity);
            assert(w[b].entity == s[b].entity);
        }
        assert forall|a: int| 0 <= a < w.len() implies w[a].entity.id < world.next_id by {
            assert(w[a].entity == s[a].entity);
        }
    }
    let ghost mid = world.entities@;
    let m = dead.len();
    let mut k: usize = 0;
    while k < m
        invariant
            world.wf(),
            m == dead@.len(),
            dead@ == dead_list(s, n as nat),
            n == s.len(),
            mid.len() == n,
            k <= m,
            world.entities@.len() >= n,
            forall|j: int| 0 <= j < n ==> world.entities@[j] == mid[j],
            world.next_id == (if old(world).next_id + k <= u32::MAX + 1 { old(world).next_id + k } else { u32::MAX + 1 }),
            old(world).next_id + k <= u32::MAX + 1 ==> {
                &&& world.entities@.len() == n + k
                &&& forall|j: int| 0 <= j < k ==> #[trigger] world.entities@[n + j]
                    == timer_record(Entity { id: (old(world).next_id + j) as u32 }, dead@[j])
            },
        decreases m - k,
    {
        let ghost before = world.entities@;
        let _ = world.spawn(EntityRecord { respawn: Some(RespawnTimer { player: dead[k], left: RESPAWN_DELAY }), ..EntityRecord::empty(dead[k]) });
        k = k + 1;
    }
    proof {
        assert forall|i: int| 0 <= i < s.len() implies world.entities@[i] == kill_step(s[i]) by {
            assert(mid[i] == kill_step(s[i]));
        }
    }
    out
}

/// A dead entity is listed once, so it gets exactly one respawn timer.
pub proof fn lemma_one_timer_per_death(s: Seq<EntityRecord>, n: nat, e: Entity)
    requires
        ids_unique(s),
        n <= s.len(),
    ensures
        dead_list(s, n).contains(e) <==> exists|j: int| 0 <= j < n && is_dead(s[j]) && s[j].entity == e,
        dead_list(s, n).no_duplicates(),
    decreases n,
{
    if n > 0 {
        lemma_one_timer_per_death(s, (n - 1) as nat, e);
        lemma_one_timer_per_death(s, (n - 1) as nat, s[n - 1].entity);
        let prev = dead_list(s, (n - 1) as nat);
        if is_dead(s[n - 1]) {
            assert(dead_list(s, n) == prev.push(s[n - 1].entity));
            if dead_list(s, n).contains(e) {
                let k = choose|k: int| 0 <= k < dead_list(s, n).len() && dead_list(s, n)[k] == e;
                if k < prev.len() {
                    assert(prev.contains(e));
                }
            }
            if exists|j: int| 0 <= j < n && is_dead(s[j]) && s[j].entity == e {
                let j = choose|j: int| 0 <= j < n && is_dead(s[j]) && s[j].entity == e;
                if j < n - 1 {
                    assert(prev.contains(e));
                    let k = choose|k: int| 0 <= k < prev.len() && prev[k] == e;
                    assert(dead_list(s, n)[k] == e);
                } else {
                    assert(dead_list(s, n)[prev.len() as int] == e);
                }
            }
            assert forall|a: int, b: int| 0 <= a < b < prev.len() + 1 implies dead_list(s, n)[a] != dead_list(s, n)[b] by {
                if b == prev.len() {
                    assert(prev[a] == dead_list(s, n)[a]);
                    assert(prev.contains(prev[a]));
                }
            }
        } else {
            if exists|j: int| 0 <= j < n && is_dead(s[j]) && s[j].entity == e {
                let j = choose|j: int| 0 <= j < n && is_dead(s[j]) && s[j].entity == e;
                assert(j < n - 1);
            }
        }
    }
}

/// Health stays within `0..=max`: damage never takes it below 0, a heal
/// never above `max`, and a death check restores it to `max`.
pub proof fn lemma_health_bounded(h: Health, d: int, r: EntityRecord)
    requires
        h.now <= h.max,
        d >= 0,
        r.health matches Some(x) && x.now <= x.max,
    ensures
        after_damage(h, d).now <= after_damage(h, d).max,
        after_damage(h, d).max == h.max,
        crate::effects::healed(h).now <= h.max,
        crate::effects::healed(h).max == h.max,
        kill_step(r).health.unwrap().now <= kill_step(r).health.unwrap().max,
        is_dead(r) ==> !is_dead(kill_step(r)) || r.health.unwrap().max == 0,
{
}

} // verus!

verus! {

/// The timer record `r` runs out within `dt` more milliseconds.
pub open spec fn timer_done(r: EntityRecord, dt: u32) -> bool {
    r.respawn matches Some(t) && cool(t.left, dt) == 0
}

/// `r` after its timer ran for `dt` milliseconds.
pub open spec fn timer_step(r: EntityRecord, dt: u32) -> EntityRecord {
    match r.respawn {
        Some(t) => EntityRecord { respawn: Some(RespawnTimer { left: cool(t.left, dt), ..t }), ..r },
        None => r,
    }
}

/// Respawn notices for the timers among the first `n` records of `s` that
/// run out.
pub open spec fn respawn_notices(s: Seq<EntityRecord>, dt: u32, n: nat) -> Seq<Outbound>
    decreases n,
{
    if n == 0 || n > s.len() {
        Seq::empty()
    } else if timer_done(s[n - 1], dt) {
        respawn_notices(s, dt, (n - 1) as nat).push(
            Outbound::Broadcast(Packet::PlayerRespawn(s[n - 1].respawn.unwrap().player, Vec2 { x: SPAWN_X, y: SPAWN_Y })),
        )
    } else {
        respawn_notices(s, dt, (n - 1) as nat)
    }
}

/// Identifiers of the timers among the first `n` records of `s` that run
/// out, in order.
pub open spec fn done_timers(s: Seq<EntityRecord>, dt: u32, n: nat) -> Seq<Entity>
    decreases n,
{
    if n == 0 || n > s.len() {
        Seq::empty()
    } else if timer_done(s[n - 1], dt) {
        done_timers(s, dt, (n - 1) as nat).push(s[n - 1].entity)
    } else {
        done_timers(s, dt, (n - 1) as nat)
    }
}

proof fn lemma_done_timers_members(s: Seq<EntityRecord>, dt: u32, n: nat, e: Entity)
    requires
        n <= s.len(),
    ensures
        done_timers(s, dt, n).contains(e) <==> exists|j: int| 0 <= j < n && timer_done(s[j], dt) && s[j].entity == e,
    decreases n,
{
    if n > 0 {
        lemma_done_timers_members(s, dt, (n - 1) as nat, e);
        let prev = done_timers(s, dt, (n - 1) as nat);
        let cur = done_timers(s, dt, n);
        if timer_done(s[n - 1], dt) {
            assert(cur == prev.push(s[n - 1].entity));
            if cur.contains(e) {
                let k = choose|k: int| 0 <= k < cur.len() && cur[k] == e;
                if k < prev.len() {
                    assert(prev.contains(e));
                }
            }
            if exists|j: int| 0 <= j < n && timer_done(s[j], dt) && s[j].entity == e {
                let j = choose|j: int| 0 <= j < n && timer_done(s[j], dt) && s[j].entity == e;
                if j < n - 1 {
                    assert(prev.contains(e));
                    let k = choose|k: int| 0 <= k < prev.len() && prev[k] == e;
                    assert(cur[k] == e);
                } else {
                    assert(cur[prev.len() as int] == e);
                }
            }
        } else {
            if exists|j: int| 0 <= j < n && timer_done(s[j], dt) && s[j].entity == e {
                let j = choose|j: int| 0 <= j < n && timer_done(s[j], dt) && s[j].entity == e;
                assert(j < n - 1);
            }
        }
    }
}

/// Players of the timers among the first `n` records of `s` that run out,
/// in order.
pub open spec fn done_players(s: Seq<EntityRecord>, dt: u32, n: nat) -> Seq<Entity>
    decreases n,
{
    if n == 0 || n > s.len() {
        Seq::empty()
    } else if timer_done(s[n - 1], dt) {
        done_players(s, dt, (n - 1) as nat).push(s[n - 1].respawn.unwrap().player)
    } else {
        done_players(s, dt, (n - 1) as nat)
    }
}

proof fn lemma_done_players(s: Seq<EntityRecord>, dt: u32, n: nat, i: int)
    requires
        n <= s.len(),
        0 <= i < n,
        timer_done(s[i], dt),
    ensures
        done_players(s, dt, n).contains(s[i].respawn.unwrap().player),
    decreases n,
{
    let prev = done_players(s, dt, (n - 1) as nat);
    if i < n - 1 {
        lemma_done_players(s, dt, (n - 1) as nat, i);
        if timer_done(s[n - 1], dt) {
            let q = choose|q: int| 0 <= q < prev.len() && prev[q] == s[i].respawn.unwrap().player;
            assert(done_players(s, dt, n)[q] == prev[q]);
        }
    } else {
        assert(done_players(s, dt, n)[prev.len() as int] == s[i].respawn.unwrap().player);
    }
}

/// Every record of `p` in `s` that has a position stands at the spawn point.
pub open spec fn placed(s: Seq<EntityRecord>, p: Entity) -> bool {
    forall|j: int| 0 <= j < s.len() && (#[trigger] s[j]).entity == p && s[j].transform is Some
        ==> s[j].transform.unwrap().translation == (Vec2 { x: SPAWN_X, y: SPAWN_Y })
}

/// `r` brought to the spawn point where it is one of the players `ps` and
/// has a position.
pub open spec fn moved(r: EntityRecord, ps: Seq<Entity>) -> EntityRecord {
    if ps.contains(r.entity) && r.transform is Some {
        EntityRecord {
            transform: Some(Transform { translation: Vec2 { x: SPAWN_X, y: SPAWN_Y }, ..r.transform.unwrap() }),
            ..r
        }
    } else {
        r
    }
}

proof fn lemma_prefix_contains(ps: Seq<Entity>, k: int, x: Entity)
    requires
        0 <= k < ps.len(),
    ensures
        ps.subrange(0, k + 1).contains(x) == (ps.subrange(0, k).contains(x) || x == ps[k]),
{
    let a = ps.subrange(0, k);
    let b = ps.subrange(0, k + 1);
    if b.contains(x) {
        let j = choose|j: int| 0 <= j < b.len() && b[j] == x;
        if j < k {
            assert(a[j] == x);
        }
    }
    if a.contains(x) {
        let j = choose|j: int| 0 <= j < a.len() && a[j] == x;
        assert(b[j] == x);
    }
    if x == ps[k] {
        assert(b[k] == x);
    }
}

/// What one pass of the respawn timers makes of the records `s`: timers
/// that run out are gone and their players stand at the spawn point; every
/// other record is kept as `timer_step` leaves it, but for the position of
/// such a player; nothing new appears.
pub open spec fn timers_ran(s: Seq<EntityRecord>, t: Seq<EntityRecord>, dt: u32) -> bool {
    &&& forall|i: int| 0 <= i < s.len() && #[trigger] timer_done(s[i], dt) ==> !alive(t, s[i].entity)
    &&& forall|i: int| 0 <= i < s.len() && timer_done(s[i], dt) ==> placed(t, (#[trigger] s[i]).respawn.unwrap().player)
    &&& forall|i: int| 0 <= i < s.len() && !timer_done(s[i], dt) ==> #[trigger] alive(t, s[i].entity)
    &&& forall|i: int| 0 <= i < s.len() && !timer_done(s[i], dt)
        ==> t.contains(moved(timer_step(#[trigger] s[i], dt), done_players(s, dt, s.len())))
    &&& forall|e: Entity| alive(t, e) ==> alive(s, e)
}

/// Runs every respawn timer down by `dt` milliseconds. A timer that runs
/// out brings its player back to the spawn point, broadcasts that, and is
/// removed; the others keep counting.
pub fn tick_respawn_timers(world: &mut World, dt: u32) -> (r: Vec<Outbound>)
    requires
        old(world).wf(),
    ensures
        final(world).wf(),
        r@ == respawn_notices(old(world).entities@, dt, old(world).entities@.len()),
        forall|i: int| 0 <= i < old(world).entities@.len() && #[trigger] timer_done(old(world).entities@[i], dt)
            ==> !alive(final(world).entities@, old(world).entities@[i].entity),
        forall|e: Entity| alive(final(world).entities@, e) ==> alive(old(world).entities@, e),
        forall|i: int| 0 <= i < old(world).entities@.len() && !timer_done(old(world).entities@[i], dt)
            ==> #[trigger] alive(final(world).entities@, old(world).entities@[i].entity),
        timers_ran(old(world).entities@, final(world).entities@, dt),
{
    let ghost s = world.entities@;
    let n = world.entities.len();
    let mut out: Vec<Outbound> = Vec::new();
    let mut timers: Vec<Entity> = Vec::new();
    let mut players: Vec<Entity> = Vec::new();
    let mut i: usize = 0;
    while i < n
        invariant
            s == old(world).entities@,
            ids_unique(s),
            n == s.len(),
            world.next_id == old(world).next_id,
            world.next_id <= u32::MAX + 1,
            n == world.entities@.len(),
            i <= n,
            forall|k: int| 0 <= k < s.len() ==> s[k].entity.id < world.next_id,
            forall|k: int| 0 <= k < i ==> world.entities@[k] == timer_step(s[k], dt),
            forall|k: int| i <= k < n ==> world.entities@[k] == s[k],
            out@ == respawn_notices(s, dt, i as nat),
            timers@ == done_timers(s, dt, i as nat),
            players@ == done_players(s, dt, i as nat),
            players@.len() == timers@.len(),
        decreases n - i,
    {
        let r = world.entities[i];
        match r.respawn {
            Some(t) => {
                let left = cool_down(Cooldown(t.left), dt).0;
                world.entities.set(i, EntityRecord { respawn: Some(RespawnTimer { left, ..t }), ..r });
                if left == 0 {
                    out.push(Outbound::Broadcast(Packet::PlayerRespawn(t.player, Vec2 { x: SPAWN_X, y: SPAWN_Y })));
                    timers.push(r.entity);
                    players.push(t.player);
                }
            },
            None => {},
        }
        i = i + 1;
    }
    proof {
        let w = world.entities@;
        assert forall|a: int, b: int| 0 <= a < w.len() && 0 <= b < w.len() && a != b implies w[a].entity != w[b].entity by {
            assert(w[a].entity == s[a].entity);
            assert(w[b].entity == s[b].entity);
        }
        assert forall|a: int| 0 <= a < w.len() implies w[a].entity.id < world.next_id by {
            assert(w[a].entity == s[a].entity);
        }
        assert forall|k: int| 0 <= k < n implies alive(w, #[trigger] s[k].entity) by {
            assert(w[k].entity == s[k].entity);
        }
        assert forall|e: Entity| alive(w, e) implies alive(s, e) by {
            let k = choose|k: int| 0 <= k < w.len() && w[k].entity == e;
            assert(s[k].entity == e);
        }
    }
    let ghost mid = world.entities@;
    let m = timers.len();
    let mut k: usize = 0;
    while k < m
        invariant
            world.wf(),
            m == timers@.len(),
            m == players@.len(),
            timers@ == done_timers(s, dt, n as nat),
            ids_unique(s),
            n == s.len(),
            k <= m,
            forall|j: int| 0 <= j < k ==> !alive(world.entities@, #[trigger] timers@[j]),
            forall|e: Entity| alive(world.entities@, e) ==> alive(s, e),
            forall|j: int| 0 <= j < n && !timer_done(s[j], dt) ==> #[trigger] alive(world.entities@, s[j].entity),
            players@ == done_players(s, dt, n as nat),
            mid.len() == n,
            forall|q: int| 0 <= q < n ==> mid[q] == timer_step(s[q], dt),
            forall|q: int| 0 <= q < k ==> placed(world.entities@, #[trigger] players@[q]),
            forall|i: int| 0 <= i < n && !timer_done(s[i], dt)
                ==> world.entities@.contains(moved(#[trigger] mid[i], players@.subrange(0, k as int))),
        decreases m - k,
    {
        let timer = timers[k];
        let player = players[k];
        let ghost w0 = world.entities@;
        match world.find(player) {
            Some(p) => {
                let pr = world.entities[p];
                match pr.transform {
                    Some(t) => {
                        let ghost before = world.entities@;
                        world.entities.set(p, EntityRecord { transform: Some(Transform { translation: Vec2 { x: SPAWN_X, y: SPAWN_Y }, ..t }), ..pr });
                        proof {
                            let w = world.entities@;
                            assert forall|a: int, b: int| 0 <= a < w.len() && 0 <= b < w.len() && a != b implies w[a].entity != w[b].entity by {
                                assert(w[a].entity == before[a].entity);
                                assert(w[b].entity == before[b].entity);
                            }
                            assert forall|a: int| 0 <= a < w.len() implies w[a].entity.id < world.next_id by {
                                assert(w[a].entity == before[a].entity);
                            }
                            assert forall|e: Entity| alive(w, e) <==> alive(before, e) by {
                                if alive(w, e) {
                                    let q = choose|q: int| 0 <= q < w.len() && w[q].entity == e;
                                    assert(before[q].entity == e);
                                }
                                if alive(before, e) {
                                    let q = choose|q: int| 0 <= q < before.len() && before[q].entity == e;
                                    assert(w[q].entity == e);
                                }
                            }
                            assert forall|j: int| 0 <= j < k implies !alive(w, #[trigger] timers@[j]) by {
                                assert(!alive(before, timers@[j]));
                            }
                            assert forall|j: int| 0 <= j < n && !timer_done(s[j], dt) implies #[trigger] alive(w, s[j].entity) by {
                                assert(alive(before, s[j].entity));
                            }
                            assert forall|q: int| 0 <= q < k + 1 implies placed(w, #[trigger] players@[q]) by {
                                assert forall|j: int| 0 <= j < w.len() && (#[trigger] w[j]).entity == players@[q] && w[j].transform is Some
                                    implies w[j].transform.unwrap().translation == (Vec2 { x: SPAWN_X, y: SPAWN_Y }) by {
                                    if j != p {
                                        assert(w[j] == before[j]);
                                        if q < k {
                                            assert(placed(before, players@[q]));
                                        } else {
                                            assert(before[p as int].entity == player);
                                        }
                                    }
                                }
                            }
                            assert forall|i: int| 0 <= i < n && !timer_done(s[i], dt)
                                implies w.contains(moved(#[trigger] mid[i], players@.subrange(0, k + 1))) by {
                                lemma_prefix_contains(players@, k as int, mid[i].entity);
                                let rr = moved(mid[i], players@.subrange(0, k as int));
                                assert(before.contains(rr));
                                let j = choose|j: int| 0 <= j < before.len() && before[j] == rr;
                                if mid[i].entity == player {
                                    assert(j == p);
                                    assert(w[p as int] == moved(mid[i], players@.subrange(0, k + 1)));
                                } else {
                                    assert(j != p);
                                    assert(w[j] == rr);
                                }
                            }
                        }
                    },
                    None => {
                        proof {
                            assert forall|i: int| 0 <= i < n && !timer_done(s[i], dt)
                                implies w0.contains(moved(#[trigger] mid[i], players@.subrange(0, k + 1))) by {
                                lemma_prefix_contains(players@, k as int, mid[i].entity);
                                let rr = moved(mid[i], players@.subrange(0, k as int));
                                assert(w0.contains(rr));
                                if mid[i].entity == player {
                                    let j = choose|j: int| 0 <= j < w0.len() && w0[j] == rr;
                                    assert(j == p);
                                }
                            }
                            assert forall|q: int| 0 <= q < k + 1 implies placed(w0, #[trigger] players@[q]) by {
                                if q == k {
                                    assert forall|j: int| 0 <= j < w0.len() && (#[trigger] w0[j]).entity == players@[q] && w0[j].transform is Some
                                        implies w0[j].transform.unwrap().translation == (Vec2 { x: SPAWN_X, y: SPAWN_Y }) by {
                                        assert(j == p);
                                    }
                                }
                            }
                        }
                    },
                }
            },
            None => {
                proof {
                    assert forall|i: int| 0 <= i < n && !timer_done(s[i], dt)
                        implies w0.contains(moved(#[trigger] mid[i], players@.subrange(0, k + 1))) by {
                        lemma_prefix_contains(players@, k as int, mid[i].entity);
                        let rr = moved(mid[i], players@.subrange(0, k as int));
                        assert(w0.contains(rr));
                        if mid[i].entity == player {
                            let j = choose|j: int| 0 <= j < w0.len() && w0[j] == rr;
                            assert(w0[j].entity == player);
                        }
                    }
                    assert forall|q: int| 0 <= q < k + 1 implies placed(w0, #[trigger] players@[q]) by {
                        if q == k {
                            assert forall|j: int| 0 <= j < w0.len() && (#[trigger] w0[j]).entity == players@[q] && w0[j].transform is Some
                                implies w0[j].transform.unwrap().translation == (Vec2 { x: SPAWN_X, y: SPAWN_Y }) by {
                                assert(w0[j].entity == player);
                            }
                        }
                    }
                }
            },
        }
        let ghost before = world.entities@;
        world.despawn(timer);
        proof {
            assert(timers@.contains(timer));
            lemma_done_timers_members(s, dt, n as nat, timer);
            assert forall|j: int| 0 <= j < n && !timer_done(s[j], dt) implies #[trigger] alive(world.entities@, s[j].entity) by {
                assert(alive(before, s[j].entity));
                let q = choose|q: int| 0 <= q < n && timer_done(s[q], dt) && s[q].entity == timer;
                assert(q != j);
            }
            assert forall|j: int| 0 <= j < k + 1 implies !alive(world.entities@, #[trigger] timers@[j]) by {
                if j < k {
                    assert(!alive(before, timers@[j]));
                }
            }
            let w = world.entities@;
            assert forall|q: int| 0 <= q < k + 1 implies placed(w, #[trigger] players@[q]) by {
                assert(placed(before, players@[q]));
                assert forall|j: int| 0 <= j < w.len() && (#[trigger] w[j]).entity == players@[q] && w[j].transform is Some
                    implies w[j].transform.unwrap().translation == (Vec2 { x: SPAWN_X, y: SPAWN_Y }) by {
                    assert(w.contains(w[j]));
                    assert(before.contains(w[j]));
                    let j2 = choose|j2: int| 0 <= j2 < before.len() && before[j2] == w[j];
                    assert(before[j2].entity == players@[q]);
                }
            }
            assert forall|i: int| 0 <= i < n && !timer_done(s[i], dt)
                implies w.contains(moved(#[trigger] mid[i], players@.subrange(0, k + 1))) by {
                let rr = moved(mid[i], players@.subrange(0, k + 1));
                assert(before.contains(rr));
                let q = choose|q: int| 0 <= q < n && timer_done(s[q], dt) && s[q].entity == timer;
                assert(q != i);
                assert(rr.entity == s[i].entity);
            }
        }
        k = k + 1;
    }
    proof {
        assert forall|i: int| 0 <= i < n && #[trigger] timer_done(s[i], dt) implies !alive(world.entities@, s[i].entity) by {
            lemma_done_timers_members(s, dt, n as nat, s[i].entity);
            let q = choose|q: int| 0 <= q < timers@.len() && timers@[q] == s[i].entity;
            assert(!alive(world.entities@, timers@[q]));
        }
        assert forall|i: int| 0 <= i < n && timer_done(s[i], dt) implies placed(world.entities@, (#[trigger] s[i]).respawn.unwrap().player) by {
            lemma_done_players(s, dt, n as nat, i);
            let q = choose|q: int| 0 <= q < players@.len() && players@[q] == s[i].respawn.unwrap().player;
            assert(placed(world.entities@, players@[q]));
        }
        assert(players@.subrange(0, m as int) =~= players@);
        assert forall|i: int| 0 <= i < n && !timer_done(s[i], dt)
            implies world.entities@.contains(moved(timer_step(#[trigger] s[i], dt), done_players(s, dt, s.len()))) by {
            assert(mid[i] == timer_step(s[i], dt));
            assert(world.entities@.contains(moved(mid[i], players@.subrange(0, m as int))));
        }
    }
    out
}

/// The contract of `respawn_players`, as a relation between the records before
/// (`s`) and after (`t`) and the messages `r`.
pub open spec fn respawn_rel(s: Seq<EntityRecord>, sn: u64, t: Seq<EntityRecord>, r: Seq<Outbound>, dt: u32) -> bool {
    &&& (exists|mid: Seq<EntityRecord>| {
            &&& killed(s, sn as nat, mid)
            &&& timers_ran(mid, t, dt)
            &&& r == revive_notices(s, s.len())
                + respawn_notices(mid, dt, mid.len())
            &&& forall|i: int| 0 <= i < s.len() && s[i].respawn is None
                ==> t.contains(
                    moved(kill_step(#[trigger] s[i]), done_players(mid, dt, mid.len())),
                )
        })
}

/// Deaths and respawns of one tick: `kill_players`, then
/// `tick_respawn_timers` on what it left. The messages are the health of
/// each entity that died, then each player that came back. Every entity
/// that was no timer ends as `kill_step` left it (a dead one back at full
/// health and off the arena), moved to the spawn point only where a timer
/// of its own runs out.
pub fn respawn_players(world: &mut World, time: &Time) -> (r: Vec<Outbound>)
    requires
        old(world).wf(),
    ensures
        final(world).wf(),
        exists|mid: Seq<EntityRecord>| {
            &&& killed(old(world).entities@, old(world).next_id as nat, mid)
            &&& timers_ran(mid, final(world).entities@, time.dt_spec())
            &&& r@ == revive_notices(old(world).entities@, old(world).entities@.len())
                + respawn_notices(mid, time.dt_spec(), mid.len())
            &&& forall|i: int| 0 <= i < old(world).entities@.len() && old(world).entities@[i].respawn is None
                ==> final(world).entities@.contains(
                    moved(kill_step(#[trigger] old(world).entities@[i]), done_players(mid, time.dt_spec(), mid.len())),
                )
        },
{
    let mut out = kill_players(world);
    let ghost mid = world.entities@;
    let ghost first = out@;
    let mut more = tick_respawn_timers(world, time.dt_ms());
    let ghost second = more@;
    out.append(&mut more);
    assert(out@ =~= first + second);
    proof {
        let dt = time.dt_spec();
        assert forall|i: int| 0 <= i < old(world).entities@.len() && old(world).entities@[i].respawn is None
            implies world.entities@.contains(
                moved(kill_step(#[trigger] old(world).entities@[i]), done_players(mid, dt, mid.len())),
            ) by {
            assert(mid[i] == kill_step(old(world).entities@[i]));
            assert(!timer_done(mid[i], dt));
            assert(timer_step(mid[i], dt) == mid[i]);
        }
    }
    out
}

} // verus!
