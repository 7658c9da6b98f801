use vstd::prelude::*;

use crate::ability::{cool, cool_down, Cooldown};
use crate::time::Time;
use crate::world::{alive, ids_unique, Entity, EntityRecord, World};

verus! {

/// Countdown after which a transient entity is removed.
#[derive(Debug, Clone, Copy, PartialEq, Eq, Structural)]
pub enum TimeToLive {
    Frames(u32),
    Millis(u32),
}

} // verus!

verus! {

/// The countdown after one tick of `dt` milliseconds.
pub open spec fn ttl_next(t: TimeToLive, dt: u32) -> TimeToLive {
    match t {
        TimeToLive::Frames(f) => TimeToLive::Frames(if f > 0 { (f - 1) as u32 } else { 0 }),
        TimeToLive::Millis(m) => TimeToLive::Millis(cool(m, dt)),
    }
}

/// The record `r` has run out of time this tick.
pub open spec fn expires(r: EntityRecord, dt: u32) -> bool {
    r.ttl matches Some(t) && (ttl_next(t, dt) == TimeToLive::Frames(0) || ttl_next(t, dt) == TimeToLive::Millis(0))
}

/// `r` after its countdown ran for one tick.
pub open spec fn ttl_step(r: EntityRecord, dt: u32) -> EntityRecord {
    match r.ttl {
        Some(t) => EntityRecord { ttl: Some(ttl_next(t, dt)), ..r },
        None => r,
    }
}

/// Identifiers of the records among the first `n` of `s` that run out.
pub open spec fn expired_list(s: Seq<EntityRecord>, dt: u32, n: nat) -> Seq<Entity>
    decreases n,
{
    if n == 0 || n > s.len() {
        Seq::empty()
    } else if expires(s[n - 1], dt) {
        expired_list(s, dt, (n - 1) as nat).push(s[n - 1].entity)
    } else {
        expired_list(s, dt, (n - 1) as nat)
    }
}

proof fn lemma_expired_members(s: Seq<EntityRecord>, dt: u32, n: nat, e: Entity)
    requires
        n <= s.len(),
    ensures
        expired_list(s, dt, n).contains(e) <==> exists|j: int| 0 <= j < n && expires(s[j], dt) && s[j].entity == e,
    decreases n,
{
    if n > 0 {
        lemma_expired_members(s, dt, (n - 1) as nat, e);
        let prev = expired_list(s, dt, (n - 1) as nat);
        let cur = expired_list(s, dt, n);
        if expires(s[n - 1], dt) {
            assert(cur == prev.push(s[n - 1].entity));
            if cur.contains(e) {
                let k = choose|k: int| 0 <= k < cur.len() && cur[k] == e;
                if k < prev.len() {
                    assert(prev.contains(e));
                }
            }
            if exists|j: int| 0 <= j < n && expires(s[j], dt) && s[j].entity == e {
                let j = choose|j: int| 0 <= j < n && expires(s[j], dt) && s[j].entity == e;
                if j < n - 1 {
                    assert(prev.contains(e));
                    let k = choose|k: int| 0 <= k < prev.len() && prev[k] == e;
                    assert(cur[k] == e);
                } else {
                    assert(cur[prev.len() as int] == e);
                }
            }
        } else {
            if exists|j: int| 0 <= j < n && expires(s[j], dt) && s[j].entity == e {
                let j = choose|j: int| 0 <= j < n && expires(s[j], dt) && s[j].entity == e;
                assert(j < n - 1);
            }
        }
    }
}

/// What one tick of countdowns makes of the records `s`: the records `t`.
pub open spec fn ttl_rel(s: Seq<EntityRecord>, t: Seq<EntityRecord>, dt: u32) -> bool {
    &&& forall|i: int| 0 <= i < s.len() && #[trigger] expires(s[i], dt) ==> !alive(t, s[i].entity)
    &&& forall|i: int| 0 <= i < s.len() && !expires(s[i], dt) ==> t.contains(ttl_step(#[trigger] s[i], dt))
    &&& forall|e: Entity| alive(t, e) ==> alive(s, e)
}

/// Counts every countdown down by one tick (a frame, or `dt`
/// milliseconds) and removes the entities whose countdown ran out.
pub fn despawn_time_to_live(world: &mut World, time: &Time)
    requires
        old(world).wf(),
    ensures
        final(world).wf(),
        forall|i: int| 0 <= i < old(world).entities@.len() && #[trigger] expires(old(world).entities@[i], time.dt_spec())
            ==> !alive(final(world).entities@, old(world).entities@[i].entity),
        forall|i: int| 0 <= i < old(world).entities@.len() && !expires(old(world).entities@[i], time.dt_spec())
            ==> final(world).entities@.contains(ttl_step(#[trigger] old(world).entities@[i], time.dt_spec())),
        forall|e: Entity| alive(final(world).entities@, e) ==> alive(old(world).entities@, e),
        ttl_rel(old(world).entities@, final(world).entities@, time.dt_spec()),
{
    let dt = time.dt_ms();
    let ghost s = world.entities@;
    let n = world.entities.len();
    let mut dead: Vec<Entity> = Vec::new();
    let mut i: usize = 0;
    while i < n
        invariant
            s == old(world).entities@,
            ids_unique(s),
            n == s.len(),
            world.next_id == old(world).next_id,
            world.next_id <= u32::MAX + 1,
            n == world.entities@.len(),
            i <= n,
            dt == time.dt_spec(),
            forall|k: int| 0 <= k < s.len() ==> s[k].entity.id < world.next_id,
            forall|k: int| 0 <= k < i ==> world.entities@[k] == ttl_step(s[k], dt),
            forall|k: int| i <= k < n ==> world.entities@[k] == s[k],
            dead@ == expired_list(s, dt, i as nat),
        decreases n - i,
    {
        let r = world.entities[i];
        match r.ttl {
            Some(t) => {
                let next = match t {
                    TimeToLive::Frames(f) => TimeToLive::Frames(if f > 0 { f - 1 } else { 0 }),
                    TimeToLive::Millis(m) => TimeToLive::Millis(cool_down(Cooldown(m), dt).0),
                };
                world.entities.set(i, EntityRecord { ttl: Some(next), ..r });
                let gone = match next {
                    TimeToLive::Frames(f) => f == 0,
                    TimeToLive::Millis(m) => m == 0,
                };
                if gone {
                    dead.push(r.entity);
                }
            },
            None => {},
        }
        i = i + 1;
    }
    let ghost mid = world.entities@;
    proof {
        assert forall|a: int, b: int| 0 <= a < mid.len() && 0 <= b < mid.len() && a != b implies mid[a].entity != mid[b].entity by {
            assert(mid[a].entity == s[a].entity);
            assert(mid[b].entity == s[b].entity);
        }
        assert forall|a: int| 0 <= a < mid.len() implies mid[a].entity.id < world.next_id by {
            assert(mid[a].entity == s[a].entity);
        }
    }
    let m = dead.len();
    let mut k: usize = 0;
    while k < m
        invariant
            world.wf(),
            ids_unique(s),
            m == dead@.len(),
            dead@ == expired_list(s, dt, n as nat),
            n == s.len(),
            mid.len() == n,
            forall|q: int| 0 <= q < n ==> mid[q] == ttl_step(s[q], dt),
            k <= m,
            forall|j: int| 0 <= j < k ==> !alive(world.entities@, #[trigger] dead@[j]),
            forall|e: Entity| alive(world.entities@, e) ==> alive(mid, e),
            forall|rec: EntityRecord| mid.contains(rec) && !dead@.contains(rec.entity) ==> world.entities@.contains(rec),
        decreases m - k,
    {
        let ghost before = world.entities@;
        world.despawn(dead[k]);
        proof {
            assert forall|j: int| 0 <= j < k + 1 implies !alive(world.entities@, #[trigger] dead@[j]) by {
                if j < k {
                    assert(!alive(before, dead@[j]));
                }
            }
            assert forall|rec: EntityRecord| mid.contains(rec) && !dead@.contains(rec.entity) implies world.entities@.contains(rec) by {
                assert(before.contains(rec));
                assert(rec.entity != dead@[k as int]);
            }
        }
        k = k + 1;
    }
    proof {
        assert forall|i: int| 0 <= i < n && #[trigger] expires(s[i], dt) implies !alive(world.entities@, s[i].entity) by {
            lemma_expired_members(s, dt, n as nat, s[i].entity);
            let q = choose|q: int| 0 <= q < dead@.len() && dead@[q] == s[i].entity;
            assert(!alive(world.entities@, dead@[q]));
        }
        assert forall|i: int| 0 <= i < n && !expires(s[i], dt) implies world.entities@.contains(ttl_step(#[trigger] s[i], dt)) by {
            lemma_expired_members(s, dt, n as nat, s[i].entity);
            if dead@.contains(s[i].entity) {
                let j = choose|j: int| 0 <= j < n && expires(s[j], dt) && s[j].entity == s[i].entity;
                assert(j == i);
            }
            assert(mid[i] == ttl_step(s[i], dt));
            assert(mid.contains(mid[i]));
            assert(mid[i].entity == s[i].entity);
        }
        assert forall|e: Entity| alive(world.entities@, e) implies alive(s, e) by {
            assert(alive(mid, e));
            let q = choose|q: int| 0 <= q < mid.len() && mid[q].entity == e;
            assert(s[q].entity == e);
        }
    }
}

} // verus!
