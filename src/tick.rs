use vstd::prelude::*;

use crate::ability::{toggle_abilities, toggle_rel, AbilityKind};
use crate::bullet::despawn_time_to_live;
use crate::client::{
    apply_packet, command_notices, commands_applied, input, network_player_commands, packet_applied, stop_projectiles,
    stop_rel,
};
use crate::effects::{
    bubble_rel, bubble_shield_controller, freeze_controller, freeze_rel, heal_controller, heal_rel, push_controller, push_rel,
};
use crate::health::{damage_rel, impact_and_damage, respawn_players, respawn_rel};
use crate::level::{void_damage, void_step};
use crate::lightning::{lightning_controller, lightning_rel};
use crate::net::{Connection, Outbound, Packet};
use crate::bullet::ttl_rel;
use crate::physics::{
    collision_set, compute_collisions, compute_gravity, compute_kinematics, gravity_step, hit_ids, kinematic_step,
    resolve_collisions, resolve_step, Collisions,
};
use crate::world::EntityRecord;
use crate::player::{controller_step, platformer_controller};
use crate::server::{despawn_rel, joins_rel, networked_despawn, networked_instantiate, networked_position, position_notices};
use crate::time::Time;
use crate::weapons::{gun_controller, gun_rel};
use crate::world::{Entity, World};

verus! {

/// What the transport buffered since the previous tick.
pub struct Inbound {
    pub packets: Vec<(Connection, Packet)>,
    pub connections: Vec<Connection>,
    pub disconnections: Vec<Connection>,
    pub joins: Vec<(Connection, [AbilityKind; 4])>,
}

/// The stages of a server tick, each by its own contract: `w[k]` is the
/// world after stage `k` (`w[0]` the world before), `n[k]` its next free
/// identifier, `o[k]` the messages of stage `k`, `cs` the collision sets
/// the damage reads, and the result `t` with messages `r`.
pub open spec fn server_chain(
    w: Seq<Seq<EntityRecord>>,
    n: Seq<u64>,
    o: Seq<Seq<Outbound>>,
    cs: Seq<Collisions>,
    p0: Seq<Entity>,
    p1: Seq<Entity>,
    joins: Seq<(Connection, [AbilityKind; 4])>,
    conns: Seq<Connection>,
    disc: Seq<Connection>,
    packets: Seq<(Connection, Packet)>,
    dt: u32,
    t: Seq<EntityRecord>,
    r: Seq<Outbound>,
) -> bool {
    &&& w.len() == 18 && n.len() == 18 && o.len() == 18
    &&& joins_rel(w[0], n[0], w[1], n[1], o[1], joins, conns, p0, p1)
    &&& despawn_rel(w[1], w[2], o[2], disc)
    &&& w[3] == commands_applied(w[2], packets, packets.len())
    &&& toggle_rel(w[3], n[3], w[4], n[4], o[4])
    &&& bubble_rel(w[4], w[5], dt)
    &&& gun_rel(w[5], n[5], w[6], o[6], dt)
    &&& heal_rel(w[6], w[7], o[7], dt)
    &&& push_rel(w[7], w[8], o[8], dt)
    &&& freeze_rel(w[8], w[9], o[9], dt)
    &&& lightning_rel(w[9], n[9], w[10], o[10], dt)
    &&& w[11] == Seq::new(w[10].len(), |i: int| controller_step(w[10][i], dt))
    &&& w[12] == Seq::new(w[11].len(), |i: int| gravity_step(w[11][i], dt))
    &&& w[13] == Seq::new(w[12].len(), |i: int| kinematic_step(w[12][i], dt))
    &&& w[14] == Seq::new(w[13].len(), |i: int| resolve_step(w[13], w[13][i], dt))
    &&& collisions_of(w[14], cs)
    &&& damage_rel(w[14], cs, w[15], o[15])
    &&& w[16] == Seq::new(w[15].len(), |i: int| void_step(w[15][i]))
    &&& respawn_rel(w[16], n[16], w[17], o[17], dt)
    &&& ttl_rel(w[17], t, dt)
    &&& r == o[1] + o[2] + o[4] + o[5] + o[6] + o[7] + o[8] + o[9] + o[10] + o[15] + o[17]
        + position_notices(t, t.len())
}

/// One tick of the server, with every system in its required order: joins
/// and disconnects, remote input, ability selection before the abilities
/// that read it, the player controller, integration, contact resolution,
/// the collision sets before the damage that reads them, deaths and
/// respawns, countdowns, and the position broadcast last, as
/// `server_chain` states. Returns every message to send, in order.
#[verifier::rlimit(100)]
pub fn server_tick(world: &mut World, time: &Time, inbound: &Inbound, pool: &mut Vec<Entity>) -> (r: Vec<Outbound>)
    requires
        old(world).wf(),
    ensures
        final(world).wf(),
        exists|w: Seq<Seq<EntityRecord>>, n: Seq<u64>, o: Seq<Seq<Outbound>>, cs: Seq<Collisions>| #[trigger] server_chain(
            w, n, o, cs, old(pool)@, final(pool)@, inbound.joins@, inbound.connections@, inbound.disconnections@,
            inbound.packets@, time.dt_spec(), final(world).entities@, r@,
        ) && w[0] == old(world).entities@ && n[0] == old(world).next_id,
{
    let dt = time.dt_ms();
    let ghost mut w: Seq<Seq<EntityRecord>> = seq![world.entities@];
    let ghost mut n: Seq<u64> = seq![world.next_id];
    let ghost mut o: Seq<Seq<Outbound>> = seq![Seq::empty()];
    let ghost p0 = pool@;
    let mut out = networked_instantiate(world, &inbound.joins, &inbound.connections, pool);
    proof { w = w.push(world.entities@); n = n.push(world.next_id); o = o.push(out@); }
    let mut more = networked_despawn(world, &inbound.disconnections);
    proof { w = w.push(world.entities@); n = n.push(world.next_id); o = o.push(more@); }
    out.append(&mut more);
    network_player_commands(world, &inbound.packets);
    proof { w = w.push(world.entities@); n = n.push(world.next_id); o = o.push(Seq::empty()); }
    let mut more = toggle_abilities(world);
    proof { w = w.push(world.entities@); n = n.push(world.next_id); o = o.push(more@); }
    out.append(&mut more);
    let mut more = bubble_shield_controller(world, time);
    proof { w = w.push(world.entities@); n = n.push(world.next_id); o = o.push(more@); }
    out.append(&mut more);
    let mut more = gun_controller(world, time);
    proof { w = w.push(world.entities@); n = n.push(world.next_id); o = o.push(more@); }
    out.append(&mut more);
    let mut more = heal_controller(world, time);
    proof { w = w.push(world.entities@); n = n.push(world.next_id); o = o.push(more@); }
    out.append(&mut more);
    let mut more = push_controller(world, time);
    proof { w = w.push(world.entities@); n = n.push(world.next_id); o = o.push(more@); }
    out.append(&mut more);
    let mut more = freeze_controller(world, time);
    proof { w = w.push(world.entities@); n = n.push(world.next_id); o = o.push(more@); }
    out.append(&mut more);
    let mut more = lightning_controller(world, time);
    proof { w = w.push(world.entities@); n = n.push(world.next_id); o = o.push(more@); }
    out.append(&mut more);
    platformer_controller(world, time);
    proof { w = w.push(world.entities@); n = n.push(world.next_id); o = o.push(Seq::empty()); }
    compute_gravity(world, time);
    proof { w = w.push(world.entities@); n = n.push(world.next_id); o = o.push(Seq::empty()); }
    compute_kinematics(world, time);
    proof { w = w.push(world.entities@); n = n.push(world.next_id); o = o.push(Seq::empty()); }
    resolve_collisions(world, time);
    proof { w = w.push(world.entities@); n = n.push(world.next_id); o = o.push(Seq::empty()); }
    let collisions = compute_collisions(world);
    let mut more = impact_and_damage(world, &collisions);
    proof { w = w.push(world.entities@); n = n.push(world.next_id); o = o.push(more@); }
    out.append(&mut more);
    void_damage(world);
    proof { w = w.push(world.entities@); n = n.push(world.next_id); o = o.push(Seq::empty()); }
    let mut more = respawn_players(world, time);
    proof { w = w.push(world.entities@); n = n.push(world.next_id); o = o.push(more@); }
    out.append(&mut more);
    despawn_time_to_live(world, time);
    let mut more = networked_position(world);
    out.append(&mut more);
    proof {
        assert(w[12] =~= Seq::new(w[11].len(), |i: int| gravity_step(w[11][i], dt)));
        assert(w[11] =~= Seq::new(w[10].len(), |i: int| controller_step(w[10][i], dt)));
        assert(w[13] =~= Seq::new(w[12].len(), |i: int| kinematic_step(w[12][i], dt)));
        assert(w[14] =~= Seq::new(w[13].len(), |i: int| resolve_step(w[13], w[13][i], dt)));
        assert(w[16] =~= Seq::new(w[15].len(), |i: int| void_step(w[15][i])));
        assert(collisions_of(w[14], collisions@));
        assert(out@ =~= o[1] + o[2] + o[4] + o[5] + o[6] + o[7] + o[8] + o[9] + o[10] + o[15] + o[17]
            + position_notices(world.entities@, world.entities@.len()));
        assert(server_chain(
            w, n, o, collisions@, p0, pool@, inbound.joins@, inbound.connections@, inbound.disconnections@,
            inbound.packets@, dt, world.entities@, out@,
        ));
    }
    out
}

/// The collision sets `cs` are those of the records `s`, one per record in
/// order.
pub open spec fn collisions_of(s: Seq<EntityRecord>, cs: Seq<Collisions>) -> bool {
    &&& cs.len() == s.len()
    &&& forall|i: int| 0 <= i < s.len() ==> (#[trigger] cs[i]).owner == s[i].entity && hit_ids(cs[i].hits) == collision_set(s, s[i])
}

/// The local simulation of a client tick on the records `w`: integration,
/// contact resolution, projectiles stopped by what they hit, and the
/// countdowns; `u` is what stopping the projectiles left, `t` the result.
pub open spec fn client_physics(w: Seq<EntityRecord>, dt: u32, cs: Seq<Collisions>, u: Seq<EntityRecord>, t: Seq<EntityRecord>) -> bool {
    let g = Seq::new(w.len(), |i: int| gravity_step(w[i], dt));
    let k = Seq::new(g.len(), |i: int| kinematic_step(g[i], dt));
    let res = Seq::new(k.len(), |i: int| resolve_step(k, k[i], dt));
    &&& collisions_of(res, cs)
    &&& stop_rel(res, cs, u)
    &&& ttl_rel(u, t, dt)
}

/// One tick of a client connected as `own`: the server's packets are
/// applied as they came, local bodies such as projectiles move and stop at
/// walls and raised shields, countdowns run, and the client's own input
/// goes back to the server.
pub fn client_tick(world: &mut World, time: &Time, packets: &Vec<Packet>, own: Connection) -> (r: Vec<Outbound>)
    requires
        old(world).wf(),
    ensures
        final(world).wf(),
        r@ == command_notices(final(world).entities@, final(world).entities@.len()),
        exists|ws: Seq<Seq<EntityRecord>>, ns: Seq<u64>, cs: Seq<Collisions>, u: Seq<EntityRecord>| {
            &&& ws.len() == packets@.len() + 1 && ns.len() == packets@.len() + 1
            &&& ws[0] == old(world).entities@ && ns[0] == old(world).next_id
            &&& forall|k: int| 0 <= k < packets@.len()
                ==> packet_applied(ws[k], ns[k], #[trigger] ws[k + 1], ns[k + 1], packets@[k], own)
            &&& client_physics(ws[packets@.len() as int], time.dt_spec(), cs, u, final(world).entities@)
        },
{
    let ghost mut ws: Seq<Seq<EntityRecord>> = seq![world.entities@];
    let ghost mut ns: Seq<u64> = seq![world.next_id];
    let mut k: usize = 0;
    while k < packets.len()
        invariant
            world.wf(),
            k <= packets@.len(),
            ws.len() == k + 1 && ns.len() == k + 1,
            ws[0] == old(world).entities@ && ns[0] == old(world).next_id,
            ws[k as int] == world.entities@ && ns[k as int] == world.next_id,
            forall|q: int| 0 <= q < k ==> packet_applied(ws[q], ns[q], #[trigger] ws[q + 1], ns[q + 1], packets@[q], own),
        decreases packets@.len() - k,
    {
        apply_packet(world, &packets[k], own);
        proof {
            ws = ws.push(world.entities@);
            ns = ns.push(world.next_id);
        }
        k = k + 1;
    }
    let ghost w = world.entities@;
    let dt = time.dt_ms();
    compute_gravity(world, time);
    let ghost g = world.entities@;
    compute_kinematics(world, time);
    let ghost kk = world.entities@;
    resolve_collisions(world, time);
    let ghost res = world.entities@;
    let collisions = compute_collisions(world);
    stop_projectiles(world, &collisions);
    let ghost u = world.entities@;
    despawn_time_to_live(world, time);
    proof {
        assert(g =~= Seq::new(w.len(), |i: int| gravity_step(w[i], dt)));
        assert(kk =~= Seq::new(g.len(), |i: int| kinematic_step(g[i], dt)));
        assert(res =~= Seq::new(kk.len(), |i: int| resolve_step(kk, kk[i], dt)));
        assert(collisions_of(res, collisions@));
        assert(client_physics(ws[packets@.len() as int], dt, collisions@, u, world.entities@));
    }
    input(world)
}

} // verus!
