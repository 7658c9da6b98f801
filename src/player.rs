use vstd::prelude::*;

use crate::ability::AbilityKind;
use crate::input::axis_value;
use crate::math::{clamp_i32, div_toward_zero, saturate_i32, trunc_div, Vec2};
use crate::physics::{scale_of, Grounded, KinematicBody};
use crate::time::Time;
use crate::health::Health;
use crate::input::Input;
use crate::net::Connection;
use crate::physics::{Collider, Gravity, Transform};
use crate::world::{Entity, EntityRecord, NetworkPosition, World};

verus! {

/// Marks an entity as a player, with the abilities bound to its four slots.
#[derive(Debug, Clone, Copy, PartialEq, Eq)]
pub struct Player {
    pub deck: [AbilityKind; 4],
    pub color: u32,
}

/// Horizontal acceleration at full input, in units per second squared.
pub const SPEED: i32 = 1700;

/// Upward velocity that a jump adds.
pub const JUMP: i32 = 1500;

/// Milliseconds after leaving the ground during which a jump still succeeds.
pub const JUMP_GRACE_PERIOD: u32 = 100;

/// Fastest fall: without upward input a descent is clamped to this speed.
pub const JUMP_TERM_VELOCITY: i32 = 500;

/// Damping of velocity, per second.
pub const FRICTION: i32 = 5;

/// A jump succeeds on the ground, and in the air only during the grace
/// period after leaving it and while not rising.
pub open spec fn can_jump(g: Grounded, vy: int) -> bool {
    match g {
        Grounded::Yes { .. } => true,
        Grounded::No { time } => time <= JUMP_GRACE_PERIOD && vy <= 0,
    }
}

/// Vertical velocity after the jump rule: a held jump adds `JUMP` where
/// `can_jump` allows it; without upward input a descent faster than
/// `JUMP_TERM_VELOCITY` is clamped to it.
pub open spec fn jump_velocity(g: Grounded, vy: int, dy: int) -> int {
    if dy > 0 {
        if can_jump(g, vy) {
            clamp_i32(vy + JUMP)
        } else {
            vy
        }
    } else if vy < -JUMP_TERM_VELOCITY {
        -JUMP_TERM_VELOCITY
    } else {
        vy
    }
}

/// `v` divided by `1 + FRICTION * dt * scale`, with `dt` in milliseconds and
/// `scale` in thousandths, rounded toward zero.
pub open spec fn damp(v: int, dt: int, scale: int) -> int {
    trunc_div(v * 1_000_000, 1_000_000 + FRICTION * dt * scale)
}

/// Horizontal velocity after input `dx` (in 127ths) pushed for `dt`
/// milliseconds.
pub open spec fn run_velocity(vx: int, dx: int, dt: int, scale: int) -> int {
    clamp_i32(vx + trunc_div(SPEED * dx * dt * scale, 127_000_000int))
}

/// `r` after one tick of the platformer controller.
pub open spec fn controller_step(r: EntityRecord, dt: u32) -> EntityRecord {
    match (r.body, r.grounded, r.input) {
        (Some(b), Some(g), Some(inp)) => {
            let s = scale_of(r) as int;
            let vx = run_velocity(b.velocity.x as int, axis_value(inp.dx), dt as int, s);
            let vy = jump_velocity(g, b.velocity.y as int, axis_value(inp.dy));
            EntityRecord {
                body: Some(
                    KinematicBody {
                        velocity: Vec2 { x: damp(vx, dt as int, s) as i32, y: damp(vy, dt as int, s) as i32 },
                    },
                ),
                ..r
            }
        },
        _ => r,
    }
}

fn jump_exec(g: Grounded, vy: i32, dy: i32) -> (r: i32)
    ensures
        r == jump_velocity(g, vy as int, dy as int),
{
    if dy > 0 {
        let ok = match g {
            Grounded::Yes { .. } => true,
            Grounded::No { time } => time <= JUMP_GRACE_PERIOD && vy <= 0,
        };
        if ok {
            saturate_i32(vy as i128 + JUMP as i128)
        } else {
            vy
        }
    } else if vy < -JUMP_TERM_VELOCITY {
        -JUMP_TERM_VELOCITY
    } else {
        vy
    }
}

fn damp_exec(v: i32, dt: u32, scale: u32) -> (r: i32)
    ensures
        r == damp(v as int, dt as int, scale as int),
{
    proof {
        assert(0 <= (dt as int) * (scale as int) < 0x1_0000_0000_0000_0000) by (nonlinear_arith)
            requires
                0 <= dt < 0x1_0000_0000,
                0 <= scale < 0x1_0000_0000,
        ;
    }
    let ds: i128 = dt as i128 * scale as i128;
    let den: i128 = 1_000_000 + 5 * ds;
    assert(den == 1_000_000 + FRICTION * (dt as int) * (scale as int)) by (nonlinear_arith)
        requires
            ds == (dt as int) * (scale as int),
            den == 1_000_000 + 5 * ds,
            FRICTION == 5,
    ;
    let q = div_toward_zero(v as i128 * 1_000_000, den);
    proof {
        lemma_damp_bound(v as int, den as int);
    }
    q as i32
}

proof fn lemma_damp_bound(v: int, den: int)
    requires
        den >= 1_000_000,
        i32::MIN <= v <= i32::MAX,
    ensures
        i32::MIN <= trunc_div(v * 1_000_000, den) <= i32::MAX,
{
    if v >= 0 {
        assert(v * 1_000_000 / den <= v) by (nonlinear_arith)
            requires
                v >= 0,
                den >= 1_000_000,
        ;
        assert(v * 1_000_000 / den >= 0) by (nonlinear_arith)
            requires
                v >= 0,
                den >= 1_000_000,
        ;
    } else {
        assert((-v) * 1_000_000 / den <= -v) by (nonlinear_arith)
            requires
                v < 0,
                den >= 1_000_000,
        ;
        assert((-v) * 1_000_000 / den >= 0) by (nonlinear_arith)
            requires
                v < 0,
                den >= 1_000_000,
        ;
        assert(-(v * 1_000_000) == (-v) * 1_000_000);
    }
}

fn run_exec(vx: i32, dx: i32, dt: u32, scale: u32) -> (r: i32)
    requires
        -127 <= dx <= 127,
    ensures
        r == run_velocity(vx as int, dx as int, dt as int, scale as int),
{
    let a: i128 = 1700 * dx as i128;
    assert(-0x1_0000_0000 < a < 0x1_0000_0000);
    proof {
        assert(-0x1_0000_0000_0000_0000 < a * (dt as int) < 0x1_0000_0000_0000_0000) by (nonlinear_arith)
            requires
                -0x1_0000_0000 < a < 0x1_0000_0000,
                0 <= dt < 0x1_0000_0000,
        ;
    }
    let b: i128 = a * dt as i128;
    proof {
        assert(-0x1_0000_0000_0000_0000_0000_0000 < b * (scale as int) < 0x1_0000_0000_0000_0000_0000_0000) by (nonlinear_arith)
            requires
                -0x1_0000_0000_0000_0000 < b < 0x1_0000_0000_0000_0000,
                0 <= scale < 0x1_0000_0000,
        ;
    }
    let c: i128 = b * scale as i128;
    assert(c == SPEED * dx * dt * scale) by (nonlinear_arith)
        requires
            a == 1700 * dx,
            b == a * dt,
            c == b * scale,
            SPEED == 1700,
    ;
    let d = div_toward_zero(c, 127_000_000);
    saturate_i32(vx as i128 + d)
}

/// Turns each player's input into velocity: runs, jumps by `can_jump`,
/// clamps a fall to the terminal speed, and damps the result.
pub fn platformer_controller(world: &mut World, time: &Time)
    ensures
        final(world).next_id == old(world).next_id,
        final(world).entities@.len() == old(world).entities@.len(),
        forall|i: int| 0 <= i < old(world).entities@.len()
            ==> final(world).entities@[i] == controller_step(old(world).entities@[i], time.dt_spec()),
{
    let dt = time.dt_ms();
    let n = world.entities.len();
    let mut i: usize = 0;
    while i < n
        invariant
            n == world.entities@.len(),
            n == old(world).entities@.len(),
            i <= n,
            world.next_id == old(world).next_id,
            dt == time.dt_spec(),
            forall|j: int| 0 <= j < i ==> world.entities@[j] == controller_step(old(world).entities@[j], dt),
            forall|j: int| i <= j < n ==> world.entities@[j] == old(world).entities@[j],
        decreases n - i,
    {
        let r = world.entities[i];
        match (r.body, r.grounded, r.input) {
            (Some(b), Some(g), Some(inp)) => {
                let s: u32 = match r.time_scale {
                    Some(ts) => ts.0,
                    None => 1000,
                };
                let vx = run_exec(b.velocity.x, inp.dx(), dt, s);
                let vy = jump_exec(g, b.velocity.y, inp.dy());
                let v = Vec2 { x: damp_exec(vx, dt, s), y: damp_exec(vy, dt, s) };
                world.entities.set(i, EntityRecord { body: Some(KinematicBody { velocity: v }), ..r });
            },
            _ => {},
        }
        i = i + 1;
    }
}

/// A held jump input adds the jump impulse exactly when the player is
/// grounded, or airborne within the grace period and not rising.
pub proof fn lemma_jump_rule(g: Grounded, vy: i32, dy: int)
    requires
        dy > 0,
    ensures
        jump_velocity(g, vy as int, dy) == (if g is Yes || (g is No && g->No_time <= JUMP_GRACE_PERIOD && vy <= 0) {
            clamp_i32(vy + JUMP)
        } else {
            vy as int
        }),
{
}

} // verus!

verus! {

/// Full health of a player.
pub const PLAYER_HEALTH: u32 = 100;

/// The record of a player `e` with its loadout; `connection` is the client
/// that owns it, and only the server simulates its body.
pub open spec fn player_record(e: Entity, deck: [AbilityKind; 4], color: u32, connection: Option<Connection>, simulated: bool) -> EntityRecord {
    EntityRecord {
        player: Some(Player { deck, color }),
        health: Some(Health { now: PLAYER_HEALTH, max: PLAYER_HEALTH }),
        input: Some(Input { dx: 0, dy: 0, ax: 0, ay: 0, btn: 0 }),
        collider: Some(Collider::Rect { width: 30, height: 50 }),
        grounded: Some(Grounded::No { time: 0 }),
        gravity: Some(Gravity { acceleration: Vec2 { x: 0, y: -2500i32 } }),
        transform: Some(Transform { translation: Vec2 { x: 100, y: 500 }, rotation: 0 }),
        network_position: Some(NetworkPosition),
        body: if simulated { Some(KinematicBody { velocity: Vec2 { x: 0, y: 0 } }) } else { None },
        connection,
        ..EntityRecord::empty_spec(e)
    }
}

/// Executable `player_record`.
pub fn prefab(e: Entity, deck: [AbilityKind; 4], color: u32, connection: Option<Connection>, simulated: bool) -> (r: EntityRecord)
    ensures
        r == player_record(e, deck, color, connection, simulated),
{
    EntityRecord {
        player: Some(Player { deck, color }),
        health: Some(Health { now: PLAYER_HEALTH, max: PLAYER_HEALTH }),
        input: Some(Input::neutral()),
        collider: Some(Collider::rect(30, 50)),
        grounded: Some(Grounded::No { time: 0 }),
        gravity: Some(Gravity { acceleration: Vec2 { x: 0, y: -2500 } }),
        transform: Some(Transform { translation: Vec2 { x: 100, y: 500 }, rotation: 0 }),
        network_position: Some(NetworkPosition),
        body: if simulated { Some(KinematicBody { velocity: Vec2 { x: 0, y: 0 } }) } else { None },
        connection,
        ..EntityRecord::empty(e)
    }
}

} // verus!
