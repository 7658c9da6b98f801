use vstd::prelude::*;

use crate::ability::AbilityKind;
use crate::input::Input;
use crate::math::Vec2;
use crate::world::Entity;

verus! {

/// Identifier of one client's link to the server.
#[derive(Debug, Clone, Copy, PartialEq, Eq, Structural, Hash)]
pub struct Connection(pub u32);

/// A cosmetic effect that clients show for a while.
#[derive(Debug, Clone, Copy, PartialEq, Eq, Structural)]
pub enum Cosmetic {
    Lightning { position: Vec2 },
    Heal { position: Vec2 },
    Push { position: Vec2 },
    Freeze,
    SpawnIn { position: Vec2 },
}

/// Messages between the server and its clients.
#[derive(Debug, Clone, Copy, PartialEq, Eq)]
pub enum Packet {
    /// Server to clients: a player joined, with its loadout and colour.
    PlayerSpawn { entity: Entity, connection: Connection, deck: [AbilityKind; 4], color: u32 },
    /// Server to clients.
    PlayerDespawn(Entity),
    /// Client to server: the client's input this tick.
    PlayerCommand(Input),
    /// Server to clients.
    EntityPosition(Entity, Vec2),
    /// Server to clients: a projectile to simulate locally.
    ProjectileSpawn { origin: Vec2, velocity: Vec2, ttl: u32 },
    /// Server to clients: rotation in milliradians.
    EntityLookDirection(Entity, i32),
    /// Server to clients.
    EntityHealth(Entity, u32),
    /// Server to clients: the binding now active for an owner, if any.
    PlayerToggleAbility(Entity, Option<usize>),
    /// Server to clients.
    EffectSpawn(Cosmetic),
    /// Server to one client: an ability's cooldown began, in milliseconds.
    CooldownStart { binding: usize, duration: u32 },
    /// Server to clients: a player came back at a spawn point.
    PlayerRespawn(Entity, Vec2),
}

/// A packet to send: to every client, or to one connection.
#[derive(Debug, Clone, Copy, PartialEq, Eq)]
pub enum Outbound {
    Broadcast(Packet),
    To(Connection, Packet),
}

} // verus!
