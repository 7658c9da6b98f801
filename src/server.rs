use vstd::prelude::*;

use crate::ability::{ability_record, instantiate, AbilityKind};
use crate::net::{Connection, Outbound, Packet};
use crate::player::{player_record, prefab};
use crate::physics::Transform;
use crate::world::{alive, ids_unique, Entity, EntityRecord, World};

verus! {

/// Spawn messages that replay the players of `s` to the connection `c`,
/// for the first `n` records.
pub open spec fn catchup_for(s: Seq<EntityRecord>, c: Connection, n: nat) -> Seq<Outbound>
    decreases n,
{
    if n == 0 || n > s.len() {
        Seq::empty()
    } else {
        let prev = catchup_for(s, c, (n - 1) as nat);
        let r = s[n - 1];
        match (r.player, r.connection) {
            (Some(p), Some(owner)) => prev.push(
                Outbound::To(c, Packet::PlayerSpawn { entity: r.entity, connection: owner, deck: p.deck, color: p.color }),
            ),
            _ => prev,
        }
    }
}

/// The replay of the players of `s` to each of the first `m` connections
/// of `cs`, in order.
pub open spec fn catchup(s: Seq<EntityRecord>, cs: Seq<Connection>, m: nat) -> Seq<Outbound>
    decreases m,
{
    if m == 0 || m > cs.len() {
        Seq::empty()
    } else {
        catchup(s, cs, (m - 1) as nat) + catchup_for(s, cs[m - 1], s.len())
    }
}

fn replay_to(world: &World, c: Connection) -> (r: Vec<Outbound>)
    ensures
        r@ == catchup_for(world.entities@, c, world.entities@.len()),
{
    let n = world.entities.len();
    let mut out: Vec<Outbound> = Vec::new();
    let mut i: usize = 0;
    while i < n
        invariant
            n == world.entities@.len(),
            i <= n,
            out@ == catchup_for(world.entities@, c, i as nat),
        decreases n - i,
    {
        let r = world.entities[i];
        match (r.player, r.connection) {
            (Some(p), Some(owner)) => {
                out.push(Outbound::To(c, Packet::PlayerSpawn { entity: r.entity, connection: owner, deck: p.deck, color: p.color }));
            },
            _ => {},
        }
        i = i + 1;
    }
    out
}

/// `s` holds an ability of `e` in slot `b` of kind `kind`.
pub open spec fn has_ability(s: Seq<EntityRecord>, e: Entity, b: int, kind: AbilityKind) -> bool {
    exists|j: int| 0 <= j < s.len() && #[trigger] s[j] == ability_record(s[j].entity, e, b as usize, kind)
}

/// Adds the player of one join with its four abilities, taking its
/// identifier from `pool` where one is left, else reserving one; returns the
/// player's identifier, or nothing where no identifier remains.
pub fn join(world: &mut World, connection: Connection, deck: [AbilityKind; 4], pool: &mut Vec<Entity>) -> (r: Option<Entity>)
    requires
        old(world).wf(),
    ensures
        final(world).wf(),
        forall|e: Entity| alive(old(world).entities@, e) ==> alive(final(world).entities@, e),
        old(pool)@.len() > 0 ==> r == Some(old(pool)@.last()) && final(pool)@ == old(pool)@.drop_last(),
        old(pool)@.len() == 0 ==> final(pool)@ == old(pool)@,
        match r {
            Some(e) => {
                &&& alive(final(world).entities@, e)
                &&& final(world).entities@.contains(player_record(e, deck, e.id, Some(connection), true))
                &&& forall|b: int| 0 <= b < 4 ==> final(world).next_id > u32::MAX
                    || #[trigger] has_ability(final(world).entities@, e, b, deck[b])
            },
            None => old(pool)@.len() == 0 && old(world).next_id > u32::MAX,
        },
        (old(pool)@.len() > 0 ==> old(pool)@.last().id < old(world).next_id && !alive(old(world).entities@, old(pool)@.last()))
            && old(world).next_id + 5 <= u32::MAX ==> {
            &&& r is Some
            &&& final(world).entities@.len() >= old(world).entities@.len()
            &&& forall|i: int| 0 <= i < old(world).entities@.len() ==> #[trigger] final(world).entities@[i] == old(world).entities@[i]
            &&& old(world).next_id <= final(world).next_id <= old(world).next_id + 5
            &&& forall|i: int| old(world).entities@.len() <= i < final(world).entities@.len()
                ==> #[trigger] final(world).entities@[i].entity == r.unwrap() || final(world).entities@[i].entity.id >= old(world).next_id
        },
{
    let ghost fresh = (old(pool)@.len() > 0 ==> old(pool)@.last().id < old(world).next_id && !alive(old(world).entities@, old(pool)@.last()))
        && old(world).next_id + 5 <= u32::MAX;
    let e = match pool.pop() {
        Some(e) => Some(e),
        None => world.reserve_entity(),
    };
    match e {
        Some(e) => {
            let ghost w1 = world.entities@;
            let ghost n1 = world.next_id;
            world.spawn_at(prefab(e, deck, e.id, Some(connection), true));
            proof {
                if fresh {
                    assert(!alive(w1, e));
                    assert(world.entities@ == w1.push(player_record(e, deck, e.id, Some(connection), true)));
                }
            }
            let ghost w2 = world.entities@;
            let ghost n2 = world.next_id;
            let mut b: usize = 0;
            while b < 4
                invariant
                    world.wf(),
                    b <= 4,
                    world.entities@.len() >= w2.len(),
                    forall|i: int| 0 <= i < w2.len() ==> #[trigger] world.entities@[i] == w2[i],
                    n2 <= world.next_id,
                    world.next_id <= n2 + b,
                    forall|i: int| w2.len() <= i < world.entities@.len() ==> #[trigger] world.entities@[i].entity.id >= n2,
                    alive(world.entities@, e),
                    forall|f: Entity| alive(old(world).entities@, f) ==> alive(world.entities@, f),
                    world.entities@.contains(player_record(e, deck, e.id, Some(connection), true)),
                    forall|b2: int| 0 <= b2 < b ==> world.next_id > u32::MAX
                        || #[trigger] has_ability(world.entities@, e, b2, deck[b2]),
                decreases 4 - b,
            {
                let ghost before = world.entities@;
                match world.spawn(instantiate(e, e, b, deck[b])) {
                    Some(id) => {
                        proof {
                            assert forall|f: Entity| alive(before, f) implies alive(world.entities@, f) by {
                                let k = choose|k: int| 0 <= k < before.len() && before[k].entity == f;
                                assert(world.entities@[k].entity == f);
                            }
                            let pk = choose|pk: int| 0 <= pk < before.len() && before[pk] == player_record(e, deck, e.id, Some(connection), true);
                            assert(world.entities@[pk] == before[pk]);
                            let last = before.len() as int;
                            assert(world.entities@[last] == ability_record(id, e, b, deck[b as int]));
                            assert forall|b2: int| 0 <= b2 < b + 1 implies world.next_id > u32::MAX
                                || #[trigger] has_ability(world.entities@, e, b2, deck[b2]) by {
                                if b2 < b {
                                    if world.next_id <= u32::MAX {
                                        assert(has_ability(before, e, b2, deck[b2]));
                                        let j = choose|j: int| 0 <= j < before.len()
                                            && #[trigger] before[j] == ability_record(before[j].entity, e, b2 as usize, deck[b2]);
                                        assert(world.entities@[j] == before[j]);
                                    }
                                } else {
                                    assert(world.entities@[last] == ability_record(world.entities@[last].entity, e, b2 as usize, deck[b2]));
                                }
                            }
                        }
                    },
                    None => {},
                }
                b = b + 1;
            }
            proof {
                if fresh {
                    assert forall|i: int| 0 <= i < old(world).entities@.len() implies #[trigger] world.entities@[i] == old(world).entities@[i] by {
                        assert(w1 == old(world).entities@);
                        assert(world.entities@[i] == w2[i]);
                    }
                    assert forall|i: int| old(world).entities@.len() <= i < world.entities@.len()
                        implies #[trigger] world.entities@[i].entity == e || world.entities@[i].entity.id >= old(world).next_id by {
                        if i < w2.len() {
                            assert(world.entities@[i] == w2[i]);
                        }
                    }
                }
            }
            Some(e)
        },
        None => None,
    }
}

/// `m` announces a player of `s` that joined through one of `joins`, with
/// its identifier as its colour.
pub open spec fn join_notice(joins: Seq<(Connection, [AbilityKind; 4])>, s: Seq<EntityRecord>, m: Outbound) -> bool {
    match m {
        Outbound::Broadcast(Packet::PlayerSpawn { entity, connection, deck, color }) =>
            joins.contains((connection, deck)) && color == entity.id && alive(s, entity),
        _ => false,
    }
}

/// Identifiers reserved for joins that are distinct, unused in `s` and
/// below `next_id`, as `World::reserve_entity` hands them out.
pub open spec fn pool_fresh(pool: Seq<Entity>, s: Seq<EntityRecord>, next_id: nat) -> bool {
    &&& pool.no_duplicates()
    &&& forall|q: int| 0 <= q < pool.len() ==> (#[trigger] pool[q]).id < next_id && !alive(s, pool[q])
}

/// `m` announces the join `jn` of a player that `s` holds, with its record
/// and its four abilities.
pub open spec fn join_landed(s: Seq<EntityRecord>, m: Outbound, jn: (Connection, [AbilityKind; 4])) -> bool {
    match m {
        Outbound::Broadcast(Packet::PlayerSpawn { entity, connection, deck, color }) => {
            &&& connection == jn.0 && deck == jn.1 && color == entity.id
            &&& s.contains(player_record(entity, deck, entity.id, Some(connection), true))
            &&& forall|b: int| 0 <= b < 4 ==> #[trigger] has_ability(s, entity, b, deck[b])
        },
        _ => false,
    }
}

/// The contract of `networked_instantiate`, as a relation between the records before
/// (`s`) and after (`t`) and the messages `r`.
pub open spec fn joins_rel(s: Seq<EntityRecord>, sn: u64, t: Seq<EntityRecord>, tn: u64, r: Seq<Outbound>, joins: Seq<(Connection, [AbilityKind; 4])>, conns: Seq<Connection>, p0: Seq<Entity>, p1: Seq<Entity>) -> bool {
    &&& (forall|e: Entity| alive(s, e) ==> alive(t, e))
    &&& (exists|j: int| 0 <= j <= r.len() && r.subrange(j, r.len() as int)
            == catchup(t, conns, conns.len())
            && forall|q: int| 0 <= q < j ==> join_notice(joins, t, #[trigger] r[q])
            && (p0.len() >= joins.len() ==> j == joins.len()))
    &&& (pool_fresh(p0, s, sn as nat)
            && sn + 5 * joins.len() <= u32::MAX ==> {
            &&& r.len() >= joins.len()
            &&& forall|k: int| 0 <= k < joins.len() ==> join_landed(t, #[trigger] r[k], joins[k])
        })
}

/// Server side of joins: adds each joining player and its abilities,
/// broadcasts its spawn, then replays every player to each new connection
/// alone (the late-join catch-up).
pub fn networked_instantiate(
    world: &mut World,
    joins: &Vec<(Connection, [AbilityKind; 4])>,
    connections: &Vec<Connection>,
    pool: &mut Vec<Entity>,
) -> (r: Vec<Outbound>)
    requires
        old(world).wf(),
    ensures
        final(world).wf(),
        forall|e: Entity| alive(old(world).entities@, e) ==> alive(final(world).entities@, e),
        exists|j: int| 0 <= j <= r@.len() && r@.subrange(j, r@.len() as int)
            == catchup(final(world).entities@, connections@, connections@.len())
            && forall|q: int| 0 <= q < j ==> join_notice(joins@, final(world).entities@, #[trigger] r@[q])
            && (old(pool)@.len() >= joins@.len() ==> j == joins@.len()),
        pool_fresh(old(pool)@, old(world).entities@, old(world).next_id as nat)
            && old(world).next_id + 5 * joins@.len() <= u32::MAX ==> {
            &&& r@.len() >= joins@.len()
            &&& forall|k: int| 0 <= k < joins@.len() ==> join_landed(final(world).entities@, #[trigger] r@[k], joins@[k])
        },
{
    let mut out: Vec<Outbound> = Vec::new();
    let mut k: usize = 0;
    while k < joins.len()
        invariant
            world.wf(),
            k <= joins@.len(),
            forall|e: Entity| alive(old(world).entities@, e) ==> alive(world.entities@, e),
            forall|q: int| 0 <= q < out@.len() ==> join_notice(joins@, world.entities@, #[trigger] out@[q]),
            old(pool)@.len() >= joins@.len() ==> out@.len() == k && pool@.len() == old(pool)@.len() - k,
            pool@.len() <= old(pool)@.len(),
            pool@ == old(pool)@.subrange(0, pool@.len() as int),
            pool_fresh(old(pool)@, old(world).entities@, old(world).next_id as nat)
                && old(world).next_id + 5 * joins@.len() <= u32::MAX ==> {
                &&& out@.len() == k
                &&& old(world).next_id <= world.next_id <= old(world).next_id + 5 * k
                &&& forall|q: int| 0 <= q < pool@.len() ==> !alive(world.entities@, #[trigger] pool@[q])
                &&& forall|q: int| 0 <= q < k ==> join_landed(world.entities@, #[trigger] out@[q], joins@[q])
            },
        decreases joins@.len() - k,
    {
        let (c, deck) = joins[k];
        let ghost before = world.entities@;
        let ghost prev = out@;
        let ghost pool0 = pool@;
        let ghost cond = pool_fresh(old(pool)@, old(world).entities@, old(world).next_id as nat)
            && old(world).next_id + 5 * joins@.len() <= u32::MAX;
        proof {
            if pool0.len() > 0 {
                let last = pool0.len() - 1;
                assert(pool0[last] == old(pool)@.subrange(0, pool0.len() as int)[last]);
                assert(pool0.last() == pool0[last]);
            }
        }
        match join(world, c, deck, pool) {
            Some(e) => {
                out.push(Outbound::Broadcast(Packet::PlayerSpawn { entity: e, connection: c, deck, color: e.id }));
                proof {
                    assert(joins@[k as int] == (c, deck));
                    assert(joins@.contains((c, deck)));
                    assert forall|q: int| 0 <= q < out@.len() implies join_notice(joins@, world.entities@, #[trigger] out@[q]) by {
                        if q < prev.len() {
                            assert(out@[q] == prev[q]);
                            assert(join_notice(joins@, before, prev[q]));
                        }
                    }
                    if cond {
                        let w = world.entities@;
                        assert forall|q: int| 0 <= q < k + 1 implies join_landed(w, #[trigger] out@[q], joins@[q]) by {
                            if q < k {
                                assert(out@[q] == prev[q]);
                                assert(join_landed(before, prev[q], joins@[q]));
                                match prev[q] {
                                    Outbound::Broadcast(Packet::PlayerSpawn { entity, connection, deck: dk, color }) => {
                                        let pr = player_record(entity, dk, entity.id, Some(connection), true);
                                        let j0 = choose|j0: int| 0 <= j0 < before.len() && before[j0] == pr;
                                        assert(w[j0] == before[j0]);
                                        assert forall|b: int| 0 <= b < 4 implies #[trigger] has_ability(w, entity, b, dk[b]) by {
                                            assert(has_ability(before, entity, b, dk[b]));
                                            let j = choose|j: int| 0 <= j < before.len()
                                                && #[trigger] before[j] == crate::ability::ability_record(before[j].entity, entity, b as usize, dk[b]);
                                            assert(w[j] == before[j]);
                                        }
                                    },
                                    _ => {},
                                }
                            } else {
                                assert(out@[q] == Outbound::Broadcast(Packet::PlayerSpawn { entity: e, connection: c, deck, color: e.id }));
                            }
                        }
                        assert(pool@ =~= pool0.drop_last() || pool0.len() == 0);
                        assert forall|q: int| 0 <= q < pool@.len() implies !alive(w, #[trigger] pool@[q]) by {
                            assert(pool@[q] == old(pool)@[q]);
                            assert(!alive(before, pool@[q]));
                            if alive(w, pool@[q]) {
                                let j = choose|j: int| 0 <= j < w.len() && w[j].entity == pool@[q];
                                if j < before.len() {
                                    assert(w[j] == before[j]);
                                } else {
                                    if pool0.len() > 0 {
                                        assert(e == pool0.last());
                                        assert(pool0.last() == old(pool)@[pool0.len() - 1]);
                                        assert(q != pool0.len() - 1);
                                    }
                                    assert(old(pool)@[q].id < old(world).next_id);
                                }
                            }
                        }
                    }
                }
            },
            None => {},
        }
        proof {
            if pool0.len() > 0 {
                assert(pool@ =~= old(pool)@.subrange(0, pool@.len() as int));
            }
        }
        k = k + 1;
    }
    assert forall|q: int| 0 <= q < out@.len() implies join_notice(joins@, world.entities@, #[trigger] out@[q]) by {}
    let j = out.len();
    let ghost joined = out@;
    let ghost joined_msgs = out@;
    let ghost after_joins = world.entities@;
    let mut m: usize = 0;
    while m < connections.len()
        invariant
            m <= connections@.len(),
            j <= out@.len(),
            j == joined.len(),
            out@.subrange(0, j as int) == joined,
            forall|q: int| 0 <= q < j ==> join_notice(joins@, world.entities@, #[trigger] joined[q]),
            joined_msgs == joined,
            world.entities@ == after_joins,
            pool_fresh(old(pool)@, old(world).entities@, old(world).next_id as nat)
                && old(world).next_id + 5 * joins@.len() <= u32::MAX ==> j == joins@.len()
                && forall|q: int| 0 <= q < j ==> join_landed(after_joins, #[trigger] joined_msgs[q], joins@[q]),
            out@.subrange(j as int, out@.len() as int) == catchup(world.entities@, connections@, m as nat),
        decreases connections@.len() - m,
    {
        let mut more = replay_to(world, connections[m]);
        let ghost prev = out@;
        let ghost added = more@;
        out.append(&mut more);
        assert(out@.subrange(j as int, out@.len() as int) =~= prev.subrange(j as int, prev.len() as int) + added);
        assert(out@.subrange(0, j as int) =~= prev.subrange(0, j as int));
        m = m + 1;
    }
    assert forall|q: int| 0 <= q < j implies join_notice(joins@, world.entities@, #[trigger] out@[q]) by {
        assert(out@.subrange(0, j as int)[q] == out@[q]);
    }
    proof {
        if pool_fresh(old(pool)@, old(world).entities@, old(world).next_id as nat)
            && old(world).next_id + 5 * joins@.len() <= u32::MAX {
            assert forall|k: int| 0 <= k < joins@.len() implies join_landed(world.entities@, #[trigger] out@[k], joins@[k]) by {
                assert(out@.subrange(0, j as int)[k] == out@[k]);
                assert(join_landed(world.entities@, joined_msgs[k], joins@[k]));
            }
        }
    }
    out
}

} // verus!

verus! {

/// `r` is an ability of `e`.
pub open spec fn owned_by(r: EntityRecord, e: Entity) -> bool {
    r.ability matches Some(a) && a.owner == e
}

/// `x` is the identifier of an ability of `e` in `s`.
pub open spec fn owned_id(s: Seq<EntityRecord>, e: Entity, x: Entity) -> bool {
    exists|p: int| 0 <= p < s.len() && owned_by(s[p], e) && s[p].entity == x
}

fn player_of(world: &World, c: Connection) -> (r: Option<usize>)
    ensures
        match r {
            Some(i) => i < world.entities@.len() && world.entities@[i as int].connection == Some(c),
            None => forall|i: int| 0 <= i < world.entities@.len() ==> world.entities@[i].connection != Some(c),
        },
{
    let mut i: usize = 0;
    while i < world.entities.len()
        invariant
            i <= world.entities@.len(),
            forall|k: int| 0 <= k < i ==> world.entities@[k].connection != Some(c),
        decreases world.entities@.len() - i,
    {
        match world.entities[i].connection {
            Some(x) => {
                if x == c {
                    return Some(i);
                }
            },
            None => {},
        }
        i = i + 1;
    }
    None
}

/// Removes `e` and every ability it owns; false, changing nothing, where
/// `e` is not alive.
pub fn despawn_player(world: &mut World, e: Entity) -> (found: bool)
    requires
        old(world).wf(),
    ensures
        final(world).wf(),
        found == alive(old(world).entities@, e),
        !found ==> final(world).entities@ == old(world).entities@,
        !alive(final(world).entities@, e),
        found ==> forall|i: int| 0 <= i < final(world).entities@.len() ==> !owned_by(#[trigger] final(world).entities@[i], e),
        forall|rec: EntityRecord| old(world).entities@.contains(rec) && rec.entity != e && !owned_by(rec, e)
            ==> final(world).entities@.contains(rec),
        forall|f: Entity| alive(final(world).entities@, f) ==> alive(old(world).entities@, f),
        forall|rec: EntityRecord| final(world).entities@.contains(rec) ==> old(world).entities@.contains(rec),
        found ==> final(world).entities@.len() < old(world).entities@.len(),
{
    let ghost s = world.entities@;
    if !world.despawn(e) {
        proof {
            assert forall|rec: EntityRecord| s.contains(rec) && rec.entity != e && !owned_by(rec, e)
                implies world.entities@.contains(rec) by {}
        }
        return false;
    }
    let mut owned: Vec<Entity> = Vec::new();
    let mut k: usize = 0;
    while k < world.entities.len()
        invariant
            k <= world.entities@.len(),
            !alive(world.entities@, e),
            forall|q: int| 0 <= q < k && owned_by(world.entities@[q], e) ==> owned@.contains(world.entities@[q].entity),
            forall|q: int| 0 <= q < owned@.len() ==> (#[trigger] owned@[q]) != e && owned_id(world.entities@, e, owned@[q]),
        decreases world.entities@.len() - k,
    {
        let r = world.entities[k];
        match r.ability {
            Some(a) => {
                if a.owner == e && r.entity != e {
                    let ghost before = owned@;
                    owned.push(r.entity);
                    proof {
                        assert(owned@[before.len() as int] == world.entities@[k as int].entity);
                        assert forall|q: int| 0 <= q < k + 1 && owned_by(world.entities@[q], e)
                            implies owned@.contains(world.entities@[q].entity) by {
                            if q < k {
                                let o = choose|o: int| 0 <= o < before.len() && before[o] == world.entities@[q].entity;
                                assert(owned@[o] == before[o]);
                            }
                        }
                        assert forall|q: int| 0 <= q < owned@.len() implies (#[trigger] owned@[q]) != e
                            && owned_id(world.entities@, e, owned@[q]) by {
                            if q < before.len() {
                                assert(owned@[q] == before[q]);
                            } else {
                                assert(owned_by(world.entities@[k as int], e)
                                    && world.entities@[k as int].entity == owned@[q]);
                            }
                        }
                    }
                } else {
                    proof {
                        if a.owner == e {
                            assert(alive(world.entities@, r.entity));
                        }
                    }
                }
            },
            None => {},
        }
        k = k + 1;
    }
    let ghost mid = world.entities@;
    let mut q: usize = 0;
    while q < owned.len()
        invariant
            world.wf(),
            q <= owned@.len(),
            !alive(world.entities@, e),
            forall|p: int| 0 <= p < q ==> !alive(world.entities@, #[trigger] owned@[p]),
            forall|rec: EntityRecord| mid.contains(rec) && !owned@.contains(rec.entity) ==> world.entities@.contains(rec),
            forall|f: Entity| alive(world.entities@, f) ==> alive(mid, f),
            forall|rec: EntityRecord| world.entities@.contains(rec) ==> mid.contains(rec),
            world.entities@.len() <= mid.len(),
            mid.len() < s.len(),
        decreases owned@.len() - q,
    {
        let ghost before = world.entities@;
        world.despawn(owned[q]);
        proof {
            assert forall|rec: EntityRecord| world.entities@.contains(rec) implies mid.contains(rec) by {
                let p = choose|p: int| 0 <= p < world.entities@.len() && world.entities@[p] == rec;
                if !before.contains(rec) {
                    assert(alive(world.entities@, rec.entity));
                }
            }
            assert forall|p: int| 0 <= p < q + 1 implies !alive(world.entities@, #[trigger] owned@[p]) by {
                if p < q {
                    assert(!alive(before, owned@[p]));
                }
            }
            assert forall|rec: EntityRecord| mid.contains(rec) && !owned@.contains(rec.entity) implies world.entities@.contains(rec) by {
                assert(before.contains(rec));
                assert(rec.entity != owned@[q as int]);
            }
        }
        q = q + 1;
    }
    proof {
        assert forall|p: int| 0 <= p < world.entities@.len() implies !owned_by(#[trigger] world.entities@[p], e) by {
            let rec = world.entities@[p];
            assert(world.entities@.contains(rec));
            assert(mid.contains(rec));
            let m = choose|m: int| 0 <= m < mid.len() && mid[m] == rec;
            if owned_by(rec, e) {
                assert(owned@.contains(rec.entity));
                let o = choose|o: int| 0 <= o < owned@.len() && owned@[o] == rec.entity;
                assert(!alive(world.entities@, owned@[o]));
            }
        }
        assert forall|rec: EntityRecord| s.contains(rec) && rec.entity != e && !owned_by(rec, e)
            implies world.entities@.contains(rec) by {
            assert(mid.contains(rec));
            if owned@.contains(rec.entity) {
                let o = choose|o: int| 0 <= o < owned@.len() && owned@[o] == rec.entity;
                assert(owned_id(mid, e, owned@[o]));
                let p = choose|p: int| 0 <= p < mid.len() && owned_by(mid[p], e) && mid[p].entity == owned@[o];
                let m = choose|m: int| 0 <= m < mid.len() && mid[m] == rec;
                assert(m == p);
            }
        }
        assert forall|f: Entity| alive(world.entities@, f) implies alive(s, f) by {
            assert(alive(mid, f));
        }
    }
    true
}

/// Removes the entity that connection `c` owns and every ability it owns,
/// and returns it; returns nothing, changing nothing, where `c` owns none.
pub fn drop_connection(world: &mut World, c: Connection) -> (r: Option<Entity>)
    requires
        old(world).wf(),
    ensures
        final(world).wf(),
        match r {
            Some(e) => {
                &&& exists|i: int| 0 <= i < old(world).entities@.len() && old(world).entities@[i].entity == e
                    && old(world).entities@[i].connection == Some(c)
                &&& !alive(final(world).entities@, e)
                &&& forall|i: int| 0 <= i < final(world).entities@.len() ==> !owned_by(#[trigger] final(world).entities@[i], e)
                &&& forall|rec: EntityRecord| old(world).entities@.contains(rec) && rec.entity != e && !owned_by(rec, e)
                    ==> final(world).entities@.contains(rec)
            },
            None => {
                &&& forall|i: int| 0 <= i < old(world).entities@.len() ==> old(world).entities@[i].connection != Some(c)
                &&& final(world).entities@ == old(world).entities@
            },
        },
        forall|f: Entity| alive(final(world).entities@, f) ==> alive(old(world).entities@, f),
        forall|rec: EntityRecord| final(world).entities@.contains(rec) ==> old(world).entities@.contains(rec),
        r is Some ==> final(world).entities@.len() < old(world).entities@.len(),
{
    match player_of(world, c) {
        Some(i) => {
            let e = world.entities[i].entity;
            assert(alive(world.entities@, e));
            despawn_player(world, e);
            Some(e)
        },
        None => None,
    }
}

/// `m` announces the removal of an entity that a connection of
/// `disconnections` owned in `before`, and `after` holds neither that
/// entity nor any ability of it.
pub open spec fn despawn_notice(before: Seq<EntityRecord>, disconnections: Seq<Connection>, after: Seq<EntityRecord>, m: Outbound) -> bool {
    match m {
        Outbound::Broadcast(Packet::PlayerDespawn(e)) => {
            &&& exists|i: int| 0 <= i < before.len() && before[i].entity == e && before[i].connection is Some
                && disconnections.contains(before[i].connection.unwrap())
            &&& !alive(after, e)
            &&& forall|j: int| 0 <= j < after.len() ==> !owned_by(after[j], e)
        },
        _ => false,
    }
}

/// `e` is the entity of a record of `s` owned by one of `disconnections`.
pub open spec fn disc_player(s: Seq<EntityRecord>, disconnections: Seq<Connection>, e: Entity) -> bool {
    exists|j: int| 0 <= j < s.len() && s[j].entity == e && s[j].connection is Some
        && disconnections.contains(s[j].connection.unwrap())
}

/// The contract of `networked_despawn`, as a relation between the records before
/// (`s`) and after (`t`) and the messages `r`.
pub open spec fn despawn_rel(s: Seq<EntityRecord>, t: Seq<EntityRecord>, r: Seq<Outbound>, disc: Seq<Connection>) -> bool {
    &&& (forall|f: Entity| alive(t, f) ==> alive(s, f))
    &&& (forall|rec: EntityRecord| t.contains(rec) ==> s.contains(rec))
    &&& (forall|k: int| 0 <= k < r.len()
            ==> despawn_notice(s, disc, t, #[trigger] r[k]))
    &&& (forall|i: int| 0 <= i < s.len() && (#[trigger] s[i]).connection is Some
            && disc.contains(s[i].connection.unwrap()) ==> {
            &&& !alive(t, s[i].entity)
            &&& s[i].ability is None
                ==> r.contains(Outbound::Broadcast(Packet::PlayerDespawn(s[i].entity)))
        })
    &&& (forall|i: int| 0 <= i < s.len()
            && !((#[trigger] s[i]).connection is Some
                && disc.contains(s[i].connection.unwrap()))
            && !(s[i].ability is Some
                && disc_player(s, disc, s[i].ability.unwrap().owner))
            ==> t.contains(s[i]))
    &&& (r.no_duplicates())
}

/// Server side of disconnects: every player of each disconnected
/// connection, and the abilities it owns, are removed, and each removal is
/// broadcast, once. Every other record stays.
pub fn networked_despawn(world: &mut World, disconnections: &Vec<Connection>) -> (r: Vec<Outbound>)
    requires
        old(world).wf(),
    ensures
        final(world).wf(),
        forall|f: Entity| alive(final(world).entities@, f) ==> alive(old(world).entities@, f),
        forall|rec: EntityRecord| final(world).entities@.contains(rec) ==> old(world).entities@.contains(rec),
        forall|k: int| 0 <= k < r@.len()
            ==> despawn_notice(old(world).entities@, disconnections@, final(world).entities@, #[trigger] r@[k]),
        forall|i: int| 0 <= i < old(world).entities@.len() && (#[trigger] old(world).entities@[i]).connection is Some
            && disconnections@.contains(old(world).entities@[i].connection.unwrap()) ==> {
            &&& !alive(final(world).entities@, old(world).entities@[i].entity)
            &&& old(world).entities@[i].ability is None
                ==> r@.contains(Outbound::Broadcast(Packet::PlayerDespawn(old(world).entities@[i].entity)))
        },
        forall|i: int| 0 <= i < old(world).entities@.len()
            && !((#[trigger] old(world).entities@[i]).connection is Some
                && disconnections@.contains(old(world).entities@[i].connection.unwrap()))
            && !(old(world).entities@[i].ability is Some
                && disc_player(old(world).entities@, disconnections@, old(world).entities@[i].ability.unwrap().owner))
            ==> final(world).entities@.contains(old(world).entities@[i]),
        r@.no_duplicates(),
{
    let ghost s = world.entities@;
    let mut out: Vec<Outbound> = Vec::new();
    let mut k: usize = 0;
    while k < disconnections.len()
        invariant
            world.wf(),
            s == old(world).entities@,
            ids_unique(s),
            k <= disconnections@.len(),
            forall|f: Entity| alive(world.entities@, f) ==> alive(s, f),
            forall|rec: EntityRecord| world.entities@.contains(rec) ==> s.contains(rec),
            forall|q: int| 0 <= q < out@.len()
                ==> despawn_notice(s, disconnections@, world.entities@, #[trigger] out@[q]),
            forall|j: int, q: int| 0 <= j < world.entities@.len() && 0 <= q < k
                ==> (#[trigger] world.entities@[j]).connection != Some(#[trigger] disconnections@[q]),
            forall|i: int| 0 <= i < s.len() && (#[trigger] s[i]).ability is None && s[i].connection is Some
                ==> alive(world.entities@, s[i].entity) || out@.contains(Outbound::Broadcast(Packet::PlayerDespawn(s[i].entity))),
            forall|i: int| 0 <= i < s.len()
                && !((#[trigger] s[i]).connection is Some && disconnections@.contains(s[i].connection.unwrap()))
                && !(s[i].ability is Some && disc_player(s, disconnections@, s[i].ability.unwrap().owner))
                ==> world.entities@.contains(s[i]),
            out@.no_duplicates(),
        decreases disconnections@.len() - k,
    {
        let c = disconnections[k];
        proof {
            assert(disconnections@.contains(c)) by {
                assert(disconnections@[k as int] == c);
            }
        }
        loop
            invariant
                world.wf(),
                s == old(world).entities@,
                ids_unique(s),
                k < disconnections@.len(),
                c == disconnections@[k as int],
                disconnections@.contains(c),
                forall|f: Entity| alive(world.entities@, f) ==> alive(s, f),
                forall|rec: EntityRecord| world.entities@.contains(rec) ==> s.contains(rec),
                forall|q: int| 0 <= q < out@.len()
                    ==> despawn_notice(s, disconnections@, world.entities@, #[trigger] out@[q]),
                forall|j: int, q: int| 0 <= j < world.entities@.len() && 0 <= q < k
                    ==> (#[trigger] world.entities@[j]).connection != Some(#[trigger] disconnections@[q]),
                forall|i: int| 0 <= i < s.len() && (#[trigger] s[i]).ability is None && s[i].connection is Some
                    ==> alive(world.entities@, s[i].entity) || out@.contains(Outbound::Broadcast(Packet::PlayerDespawn(s[i].entity))),
                forall|i: int| 0 <= i < s.len()
                    && !((#[trigger] s[i]).connection is Some && disconnections@.contains(s[i].connection.unwrap()))
                    && !(s[i].ability is Some && disc_player(s, disconnections@, s[i].ability.unwrap().owner))
                    ==> world.entities@.contains(s[i]),
                out@.no_duplicates(),
            ensures
                forall|j: int| 0 <= j < world.entities@.len() ==> (#[trigger] world.entities@[j]).connection != Some(c),
            decreases world.entities@.len(),
        {
            let ghost before = world.entities@;
            let ghost prev = out@;
            match drop_connection(world, c) {
                Some(e) => {
                    out.push(Outbound::Broadcast(Packet::PlayerDespawn(e)));
                    proof {
                        let i = choose|i: int| 0 <= i < before.len() && before[i].entity == e && before[i].connection == Some(c);
                        assert forall|a: int, b: int| 0 <= a < b < out@.len() implies out@[a] != out@[b] by {
                            if b == prev.len() {
                                assert(despawn_notice(s, disconnections@, before, prev[a]));
                                assert(alive(before, e));
                            } else {
                                assert(prev[a] != prev[b]);
                            }
                        }
                        assert(before.contains(before[i]));
                        assert(s.contains(before[i]));
                        let i0 = choose|i0: int| 0 <= i0 < s.len() && s[i0] == before[i];
                        assert(s[i0].entity == e && s[i0].connection == Some(c));
                        assert(s[i0].connection.unwrap() == c);
                        assert forall|q: int| 0 <= q < out@.len()
                            implies despawn_notice(s, disconnections@, world.entities@, #[trigger] out@[q]) by {
                            if q < prev.len() {
                                assert(out@[q] == prev[q]);
                                assert(despawn_notice(s, disconnections@, before, prev[q]));
                                match prev[q] {
                                    Outbound::Broadcast(Packet::PlayerDespawn(e2)) => {
                                        assert forall|j: int| 0 <= j < world.entities@.len() implies !owned_by(world.entities@[j], e2) by {
                                            assert(world.entities@.contains(world.entities@[j]));
                                            assert(before.contains(world.entities@[j]));
                                        }
                                    },
                                    _ => {},
                                }
                            }
                        }
                        assert forall|j: int, q: int| 0 <= j < world.entities@.len() && 0 <= q < k
                            implies (#[trigger] world.entities@[j]).connection != Some(#[trigger] disconnections@[q]) by {
                            assert(world.entities@.contains(world.entities@[j]));
                            assert(before.contains(world.entities@[j]));
                        }
                        assert forall|i: int| 0 <= i < s.len() && (#[trigger] s[i]).ability is None && s[i].connection is Some
                            implies alive(world.entities@, s[i].entity) || out@.contains(Outbound::Broadcast(Packet::PlayerDespawn(s[i].entity))) by {
                            if out@.last() != Outbound::Broadcast(Packet::PlayerDespawn(s[i].entity)) {
                                if prev.contains(Outbound::Broadcast(Packet::PlayerDespawn(s[i].entity))) {
                                    let q = choose|q: int| 0 <= q < prev.len() && prev[q] == Outbound::Broadcast(Packet::PlayerDespawn(s[i].entity));
                                    assert(out@[q] == prev[q]);
                                } else {
                                    assert(alive(before, s[i].entity));
                                    let j = choose|j: int| 0 <= j < before.len() && before[j].entity == s[i].entity;
                                    assert(before.contains(before[j]));
                                    assert(s.contains(before[j]));
                                    let j0 = choose|j0: int| 0 <= j0 < s.len() && s[j0] == before[j];
                                    assert(j0 == i);
                                    assert(s[i].entity != e);
                                    assert(!owned_by(s[i], e));
                                    assert(world.entities@.contains(s[i]));
                                    let j1 = choose|j1: int| 0 <= j1 < world.entities@.len() && world.entities@[j1] == s[i];
                                    assert(world.entities@[j1].entity == s[i].entity);
                                }
                            } else {
                                assert(out@[out@.len() - 1] == Outbound::Broadcast(Packet::PlayerDespawn(s[i].entity)));
                            }
                        }
                        assert forall|i: int| 0 <= i < s.len()
                            && !((#[trigger] s[i]).connection is Some && disconnections@.contains(s[i].connection.unwrap()))
                            && !(s[i].ability is Some && disc_player(s, disconnections@, s[i].ability.unwrap().owner))
                            implies world.entities@.contains(s[i]) by {
                            assert(before.contains(s[i]));
                            assert(disc_player(s, disconnections@, e));
                            assert(!owned_by(s[i], e));
                            if s[i].entity == e {
                                assert(s[i].entity == s[i0].entity);
                                assert(i == i0);
                                assert(s[i].connection.unwrap() == c);
                                assert(false);
                            }
                            assert(s[i].entity != e);
                        }
                    }
                },
                None => {
                    break;
                },
            }
        }
        proof {
            assert forall|j: int, q: int| 0 <= j < world.entities@.len() && 0 <= q < k + 1
                implies (#[trigger] world.entities@[j]).connection != Some(#[trigger] disconnections@[q]) by {
                if q == k {
                    assert(world.entities@[j].connection != Some(c));
                }
            }
        }
        k = k + 1;
    }
    proof {
        assert forall|i: int| 0 <= i < s.len() && (#[trigger] s[i]).connection is Some
            && disconnections@.contains(s[i].connection.unwrap()) implies {
            &&& !alive(world.entities@, s[i].entity)
            &&& s[i].ability is None ==> out@.contains(Outbound::Broadcast(Packet::PlayerDespawn(s[i].entity)))
        } by {
            let q = choose|q: int| 0 <= q < disconnections@.len() && disconnections@[q] == s[i].connection.unwrap();
            if alive(world.entities@, s[i].entity) {
                let j = choose|j: int| 0 <= j < world.entities@.len() && world.entities@[j].entity == s[i].entity;
                assert(world.entities@.contains(world.entities@[j]));
                assert(s.contains(world.entities@[j]));
                let j0 = choose|j0: int| 0 <= j0 < s.len() && s[j0] == world.entities@[j];
                assert(j0 == i);
                assert(world.entities@[j].connection != Some(disconnections@[q]));
            }
        }
    }
    out
}

/// Position messages for the first `n` records of `s` that are replicated.
pub open spec fn position_notices(s: Seq<EntityRecord>, n: nat) -> Seq<Outbound>
    decreases n,
{
    if n == 0 || n > s.len() {
        Seq::empty()
    } else {
        let prev = position_notices(s, (n - 1) as nat);
        let r = s[n - 1];
        match (r.network_position, r.transform) {
            (Some(_), Some(t)) => prev.push(Outbound::Broadcast(Packet::EntityPosition(r.entity, t.translation))),
            _ => prev,
        }
    }
}

/// Broadcasts the position of every entity marked for replication, and of
/// no other.
pub fn networked_position(world: &World) -> (r: Vec<Outbound>)
    ensures
        r@ == position_notices(world.entities@, world.entities@.len()),
{
    let n = world.entities.len();
    let mut out: Vec<Outbound> = Vec::new();
    let mut i: usize = 0;
    while i < n
        invariant
            n == world.entities@.len(),
            i <= n,
            out@ == position_notices(world.entities@, i as nat),
        decreases n - i,
    {
        let r = world.entities[i];
        match (r.network_position, r.transform) {
            (Some(_), Some(t)) => {
                out.push(Outbound::Broadcast(Packet::EntityPosition(r.entity, t.translation)));
            },
            _ => {},
        }
        i = i + 1;
    }
    out
}

} // verus!

verus! {

/// `s` with the entity `e` turned to `rot`, where it has an input and a
/// position.
pub open spec fn turned(s: Seq<EntityRecord>, e: Entity, rot: i32) -> Seq<EntityRecord> {
    Seq::new(s.len(), |i: int| if s[i].entity == e && s[i].input is Some && s[i].transform is Some {
        EntityRecord { transform: Some(Transform { rotation: rot, ..s[i].transform.unwrap() }), ..s[i] }
    } else {
        s[i]
    })
}

/// `s` after the first `k` turns of `looks`.
pub open spec fn turned_all(s: Seq<EntityRecord>, looks: Seq<(Entity, i32)>, k: nat) -> Seq<EntityRecord>
    decreases k,
{
    if k == 0 || k > looks.len() {
        s
    } else {
        let w = turned_all(s, looks, (k - 1) as nat);
        turned(w, looks[k - 1].0, looks[k - 1].1)
    }
}

/// The broadcasts of the first `k` turns of `looks`, one per entity that
/// has an input and a position when its turn comes.
pub open spec fn look_notices(s: Seq<EntityRecord>, looks: Seq<(Entity, i32)>, k: nat) -> Seq<Outbound>
    decreases k,
{
    if k == 0 || k > looks.len() {
        Seq::empty()
    } else {
        let w = turned_all(s, looks, (k - 1) as nat);
        let (e, rot) = looks[k - 1];
        look_notices(s, looks, (k - 1) as nat) + if alive(w, e) && w[crate::ability::index_of(w, e)].input is Some
            && w[crate::ability::index_of(w, e)].transform is Some {
            seq![Outbound::Broadcast(Packet::EntityLookDirection(e, rot))]
        } else {
            Seq::empty()
        }
    }
}

/// Server side: every player in `looks` that has an input and a position
/// faces the rotation given (in milliradians), and the direction is
/// broadcast.
pub fn network_look_direction(world: &mut World, looks: &Vec<(Entity, i32)>) -> (r: Vec<Outbound>)
    requires
        old(world).wf(),
    ensures
        final(world).wf(),
        final(world).entities@ == turned_all(old(world).entities@, looks@, looks@.len()),
        r@ == look_notices(old(world).entities@, looks@, looks@.len()),
{
    let ghost s0 = world.entities@;
    let mut out: Vec<Outbound> = Vec::new();
    let mut k: usize = 0;
    while k < looks.len()
        invariant
            world.wf(),
            s0 == old(world).entities@,
            k <= looks@.len(),
            world.entities@ == turned_all(s0, looks@, k as nat),
            out@ == look_notices(s0, looks@, k as nat),
        decreases looks@.len() - k,
    {
        let (e, rot) = looks[k];
        let ghost w = world.entities@;
        let ghost prev = out@;
        match world.find(e) {
            Some(i) => {
                proof {
                    crate::ability::lemma_index_of(w, i as int);
                }
                let rec = world.entities[i];
                match (rec.input, rec.transform) {
                    (Some(_), Some(t)) => {
                        world.entities.set(i, EntityRecord { transform: Some(Transform { rotation: rot, ..t }), ..rec });
                        out.push(Outbound::Broadcast(Packet::EntityLookDirection(e, rot)));
                        proof {
                            let w2 = world.entities@;
                            assert forall|a: int, b: int| 0 <= a < w2.len() && 0 <= b < w2.len() && a != b implies w2[a].entity != w2[b].entity by {
                                assert(w2[a].entity == w[a].entity);
                                assert(w2[b].entity == w[b].entity);
                            }
                            assert forall|a: int| 0 <= a < w2.len() implies w2[a].entity.id < world.next_id by {
                                assert(w2[a].entity == w[a].entity);
                            }
                            assert forall|j: int| 0 <= j < w.len() implies #[trigger] w2[j] == turned(w, e, rot)[j] by {
                                if w[j].entity == e {
                                    assert(j == i);
                                }
                            }
                            assert(w2 =~= turned(w, e, rot));
                        }
                    },
                    _ => {
                        proof {
                            assert forall|j: int| 0 <= j < w.len() implies #[trigger] w[j] == turned(w, e, rot)[j] by {
                                if w[j].entity == e {
                                    assert(j == i);
                                }
                            }
                            assert(w =~= turned(w, e, rot));
                        }
                    },
                }
            },
            None => {
                assert(w =~= turned(w, e, rot));
            },
        }
        assert(out@ =~= look_notices(s0, looks@, (k + 1) as nat));
        k = k + 1;
    }
    out
}

} // verus!
