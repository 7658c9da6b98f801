//! Simulation core of a real-time multiplayer arena: the entity store, an
//! integer physics engine, abilities with cooldowns and state machines,
//! damage and respawns, and the server-authoritative replication protocol.
//! Lengths are whole world units, velocities units per second, times
//! milliseconds and time scales thousandths.

pub mod ability;
pub mod bullet;
pub mod client;
pub mod effects;
pub mod health;
pub mod input;
pub mod level;
pub mod lightning;
pub mod math;
pub mod net;
pub mod physics;
pub mod player;
pub mod server;
pub mod tick;
pub mod time;
pub mod view;
pub mod weapons;
pub mod world;
