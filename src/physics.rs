use vstd::prelude::*;

use crate::math::{abs, clamp_i32, clamp_u32, div_toward_zero, saturate_i32, saturate_u32, trunc_div, Vec2};
use crate::time::Time;
use crate::world::{Entity, EntityRecord, World};

verus! {

/// Position of an entity, and its rotation in milliradians
/// (counter-clockwise).
#[derive(Debug, Clone, Copy, PartialEq, Eq, Structural)]
pub struct Transform {
    pub translation: Vec2,
    pub rotation: i32,
}

/// Shape of an entity's collider, centred on its translation and aligned
/// with the axes. A rectangle holds its full width and height.
#[derive(Debug, Clone, Copy, PartialEq, Eq, Structural)]
pub enum Collider {
    Rect { width: u32, height: u32 },
    Circle { radius: u32 },
}

impl Collider {
    /// A rectangle `w` wide and `h` high.
    pub fn rect(w: u32, h: u32) -> (r: Collider)
        ensures
            r == (Collider::Rect { width: w, height: h }),
    {
        Collider::Rect { width: w, height: h }
    }

    /// A circle of radius `r`.
    pub fn circle(r: u32) -> (c: Collider)
        ensures
            c == (Collider::Circle { radius: r }),
    {
        Collider::Circle { radius: r }
    }
}

/// Width of the collider's bounding box.
pub open spec fn box_width(c: Collider) -> int {
    match c {
        Collider::Rect { width, .. } => width as int,
        Collider::Circle { radius } => 2 * radius,
    }
}

/// Height of the collider's bounding box.
pub open spec fn box_height(c: Collider) -> int {
    match c {
        Collider::Rect { height, .. } => height as int,
        Collider::Circle { radius } => 2 * radius,
    }
}

/// A rectangle `w` by `h` and a circle of radius `r` meet, where `dx` and
/// `dy` are twice the distances between their centres along each axis.
pub open spec fn rect_meets_circle(dx: int, dy: int, w: int, h: int, r: int) -> bool {
    let gx = if dx > w { dx - w } else { 0 };
    let gy = if dy > h { dy - h } else { 0 };
    gx * gx + gy * gy <= 4 * r * r
}

/// Two colliders at the given positions overlap or touch.
pub open spec fn shapes_intersect(pa: Vec2, ca: Collider, pb: Vec2, cb: Collider) -> bool {
    let ex = pa.x - pb.x;
    let ey = pa.y - pb.y;
    let dx = abs(2 * ex);
    let dy = abs(2 * ey);
    match (ca, cb) {
        (Collider::Rect { width: w1, height: h1 }, Collider::Rect { width: w2, height: h2 }) =>
            dx <= w1 + w2 && dy <= h1 + h2,
        (Collider::Circle { radius: r1 }, Collider::Circle { radius: r2 }) =>
            ex * ex + ey * ey <= (r1 + r2) * (r1 + r2),
        (Collider::Rect { width, height }, Collider::Circle { radius }) =>
            rect_meets_circle(dx, dy, width as int, height as int, radius as int),
        (Collider::Circle { radius }, Collider::Rect { width, height }) =>
            rect_meets_circle(dx, dy, width as int, height as int, radius as int),
    }
}

fn square(a: i128) -> (r: i128)
    requires
        -0x100_0000_0000 < a < 0x100_0000_0000,
    ensures
        r == a * a,
        0 <= r < 0x1_0000_0000_0000_0000_0000,
{
    proof {
        assert(0 <= a * a < 0x1_0000_0000_0000_0000_0000) by (nonlinear_arith)
            requires
                -0x100_0000_0000 < a < 0x100_0000_0000,
        ;
    }
    a * a
}

fn abs_i128(a: i128) -> (r: i128)
    requires
        a > i128::MIN,
    ensures
        r == abs(a as int),
{
    if a < 0 {
        -a
    } else {
        a
    }
}

fn rect_circle_test(dx: i128, dy: i128, w: i128, h: i128, r: i128) -> (b: bool)
    requires
        0 <= dx < 0x10_0000_0000,
        0 <= dy < 0x10_0000_0000,
        0 <= w <= u32::MAX,
        0 <= h <= u32::MAX,
        0 <= r <= u32::MAX,
    ensures
        b == rect_meets_circle(dx as int, dy as int, w as int, h as int, r as int),
{
    let gx: i128 = if dx > w { dx - w } else { 0 };
    let gy: i128 = if dy > h { dy - h } else { 0 };
    let r2: i128 = 2 * r;
    let rr = square(r2);
    assert(rr == 4 * r * r) by (nonlinear_arith)
        requires
            rr == r2 * r2,
            r2 == 2 * r,
    ;
    square(gx) + square(gy) <= rr
}

/// Whether two colliders at the given positions overlap or touch.
pub fn intersects(pa: Vec2, ca: Collider, pb: Vec2, cb: Collider) -> (b: bool)
    ensures
        b == shapes_intersect(pa, ca, pb, cb),
{
    let ex: i128 = pa.x as i128 - pb.x as i128;
    let ey: i128 = pa.y as i128 - pb.y as i128;
    let dx = abs_i128(2 * ex);
    let dy = abs_i128(2 * ey);
    match (ca, cb) {
        (Collider::Rect { width: w1, height: h1 }, Collider::Rect { width: w2, height: h2 }) => {
            dx <= w1 as i128 + w2 as i128 && dy <= h1 as i128 + h2 as i128
        },
        (Collider::Circle { radius: r1 }, Collider::Circle { radius: r2 }) => {
            let s: i128 = r1 as i128 + r2 as i128;
            square(ex) + square(ey) <= square(s)
        },
        (Collider::Rect { width, height }, Collider::Circle { radius }) => {
            rect_circle_test(dx, dy, width as i128, height as i128, radius as i128)
        },
        (Collider::Circle { radius }, Collider::Rect { width, height }) => {
            rect_circle_test(dx, dy, width as i128, height as i128, radius as i128)
        },
    }
}

} // verus!

verus! {

/// Velocity of an entity that forces move, in world units per second.
#[derive(Debug, Clone, Copy, PartialEq, Eq, Structural)]
pub struct KinematicBody {
    pub velocity: Vec2,
}

/// Marks immovable geometry such as walls and the ground.
#[derive(Debug, Clone, Copy, PartialEq, Eq, Structural)]
pub struct FixedBody;

/// Acceleration of gravity on one entity, in world units per second squared.
#[derive(Debug, Clone, Copy, PartialEq, Eq, Structural)]
pub struct Gravity {
    pub acceleration: Vec2,
}

/// Whether an entity touches the ground, and for how many milliseconds it
/// has been in that state.
#[derive(Debug, Clone, Copy, PartialEq, Eq, Structural)]
pub enum Grounded {
    Yes { time: u32 },
    No { time: u32 },
}

impl Default for Gravity {
    /// Earth-like gravity, straight down.
    fn default() -> (r: Gravity)
        ensures
            r == (Gravity { acceleration: Vec2 { x: 0i32, y: -981i32 } }),
    {
        Gravity { acceleration: Vec2 { x: 0, y: -981 } }
    }
}

impl Default for Grounded {
    /// Airborne, with the clock at 0.
    fn default() -> (r: Grounded)
        ensures
            r == (Grounded::No { time: 0 }),
    {
        Grounded::No { time: 0 }
    }
}

/// Per-entity multiplier of simulated time, in thousandths.
#[derive(Debug, Clone, Copy, PartialEq, Eq, Structural)]
pub struct TimeScale(pub u32);

} // verus!

verus! {

/// Thousandths of simulated time per thousandth of real time for `r`.
pub open spec fn scale_of(r: EntityRecord) -> u32 {
    match r.time_scale {
        Some(TimeScale(s)) => s,
        None => 1000,
    }
}

/// `v` advanced by `rate` per second over `dt` milliseconds at time scale
/// `scale` thousandths, rounded toward zero and saturating at the bounds of
/// `i32`.
pub open spec fn integrate(v: int, rate: int, dt: int, scale: int) -> int {
    clamp_i32(v + trunc_div(rate * dt * scale, 1_000_000))
}

fn integrate_axis(v: i32, rate: i32, dt: u32, scale: u32) -> (r: i32)
    ensures
        r == integrate(v as int, rate as int, dt as int, scale as int),
{
    proof {
        assert(-0x1_0000_0000_0000_0000 < (rate as int) * (dt as int) < 0x1_0000_0000_0000_0000) by (nonlinear_arith)
            requires
                -0x8000_0000 <= rate < 0x8000_0000,
                0 <= dt < 0x1_0000_0000,
        ;
    }
    let a: i128 = rate as i128 * dt as i128;
    proof {
        assert(-0x1_0000_0000_0000_0000_0000_0000 < a * (scale as int) < 0x1_0000_0000_0000_0000_0000_0000) by (nonlinear_arith)
            requires
                -0x1_0000_0000_0000_0000 < a < 0x1_0000_0000_0000_0000,
                0 <= scale < 0x1_0000_0000,
        ;
    }
    let b: i128 = a * scale as i128;
    let d = div_toward_zero(b, 1_000_000);
    saturate_i32(v as i128 + d)
}

/// `r` after gravity acted on its velocity for `dt` milliseconds.
pub open spec fn gravity_step(r: EntityRecord, dt: u32) -> EntityRecord {
    match (r.body, r.gravity) {
        (Some(b), Some(g)) => EntityRecord {
            body: Some(
                KinematicBody {
                    velocity: Vec2 {
                        x: integrate(b.velocity.x as int, g.acceleration.x as int, dt as int, scale_of(r) as int) as i32,
                        y: integrate(b.velocity.y as int, g.acceleration.y as int, dt as int, scale_of(r) as int) as i32,
                    },
                },
            ),
            ..r
        },
        _ => r,
    }
}

/// `r` after its velocity moved it for `dt` milliseconds.
pub open spec fn kinematic_step(r: EntityRecord, dt: u32) -> EntityRecord {
    match (r.transform, r.body) {
        (Some(t), Some(b)) => EntityRecord {
            transform: Some(
                Transform {
                    translation: Vec2 {
                        x: integrate(t.translation.x as int, b.velocity.x as int, dt as int, scale_of(r) as int) as i32,
                        y: integrate(t.translation.y as int, b.velocity.y as int, dt as int, scale_of(r) as int) as i32,
                    },
                    ..t
                },
            ),
            ..r
        },
        _ => r,
    }
}

fn scale_exec(r: &EntityRecord) -> (s: u32)
    ensures
        s == scale_of(*r),
{
    match r.time_scale {
        Some(TimeScale(s)) => s,
        None => 1000,
    }
}

/// Adds gravity to the velocity of every body that has both.
pub fn compute_gravity(world: &mut World, time: &Time)
    ensures
        final(world).next_id == old(world).next_id,
        final(world).entities@.len() == old(world).entities@.len(),
        forall|i: int| 0 <= i < old(world).entities@.len()
            ==> final(world).entities@[i] == gravity_step(old(world).entities@[i], time.dt_spec()),
{
    let dt = time.dt_ms();
    let n = world.entities.len();
    let mut i: usize = 0;
    while i < n
        invariant
            n == world.entities@.len(),
            n == old(world).entities@.len(),
            i <= n,
            world.next_id == old(world).next_id,
            dt == time.dt_spec(),
            forall|j: int| 0 <= j < i ==> world.entities@[j] == gravity_step(old(world).entities@[j], dt),
            forall|j: int| i <= j < n ==> world.entities@[j] == old(world).entities@[j],
        decreases n - i,
    {
        let r = world.entities[i];
        match (r.body, r.gravity) {
            (Some(b), Some(g)) => {
                let s = scale_exec(&r);
                let v = Vec2 {
                    x: integrate_axis(b.velocity.x, g.acceleration.x, dt, s),
                    y: integrate_axis(b.velocity.y, g.acceleration.y, dt, s),
                };
                world.entities.set(i, EntityRecord { body: Some(KinematicBody { velocity: v }), ..r });
            },
            _ => {},
        }
        i = i + 1;
    }
}

/// Moves every body with a transform by its velocity.
pub fn compute_kinematics(world: &mut World, time: &Time)
    ensures
        final(world).next_id == old(world).next_id,
        final(world).entities@.len() == old(world).entities@.len(),
        forall|i: int| 0 <= i < old(world).entities@.len()
            ==> final(world).entities@[i] == kinematic_step(old(world).entities@[i], time.dt_spec()),
{
    let dt = time.dt_ms();
    let n = world.entities.len();
    let mut i: usize = 0;
    while i < n
        invariant
            n == world.entities@.len(),
            n == old(world).entities@.len(),
            i <= n,
            world.next_id == old(world).next_id,
            dt == time.dt_spec(),
            forall|j: int| 0 <= j < i ==> world.entities@[j] == kinematic_step(old(world).entities@[j], dt),
            forall|j: int| i <= j < n ==> world.entities@[j] == old(world).entities@[j],
        decreases n - i,
    {
        let r = world.entities[i];
        match (r.transform, r.body) {
            (Some(t), Some(b)) => {
                let s = scale_exec(&r);
                let p = Vec2 {
                    x: integrate_axis(t.translation.x, b.velocity.x, dt, s),
                    y: integrate_axis(t.translation.y, b.velocity.y, dt, s),
                };
                world.entities.set(i, EntityRecord { transform: Some(Transform { translation: p, ..t }), ..r });
            },
            _ => {},
        }
        i = i + 1;
    }
}

} // verus!

verus! {

/// The grounded state after one tick of `dt` milliseconds, where `contact`
/// tells whether the entity touched ground this tick: a change of state
/// restarts the clock at 0, else the clock runs on.
pub open spec fn next_grounded(g: Grounded, contact: bool, dt: int) -> Grounded {
    match g {
        Grounded::Yes { time } => if contact {
            Grounded::Yes { time: clamp_u32(time + dt) as u32 }
        } else {
            Grounded::No { time: 0 }
        },
        Grounded::No { time } => if contact {
            Grounded::Yes { time: 0 }
        } else {
            Grounded::No { time: clamp_u32(time + dt) as u32 }
        },
    }
}

pub open spec fn is_grounded(g: Grounded) -> bool {
    g is Yes
}

pub open spec fn grounded_time(g: Grounded) -> u32 {
    match g {
        Grounded::Yes { time } => time,
        Grounded::No { time } => time,
    }
}

/// A unit contact normal `n` points along gravity `g` by more than half:
/// `n · g / |g| > 0.5`, which fails for a zero `g`.
pub open spec fn is_ground_normal(n: Vec2, g: Vec2) -> bool {
    let d = n.x * g.x + n.y * g.y;
    d > 0 && 4 * (d * d) > g.x * g.x + g.y * g.y
}

/// Overlap of the bounding boxes of two colliders along x, doubled; the
/// boxes meet when both overlaps are at least 0.
pub open spec fn overlap_x(p: Vec2, c: Collider, q: Vec2, d: Collider) -> int {
    box_width(c) + box_width(d) - abs(2 * (p.x - q.x))
}

pub open spec fn overlap_y(p: Vec2, c: Collider, q: Vec2, d: Collider) -> int {
    box_height(c) + box_height(d) - abs(2 * (p.y - q.y))
}

/// Unit normal of the contact of a body at `p` with geometry at `q`,
/// pointing from the body toward the geometry along the axis of least
/// penetration (y on a tie).
pub open spec fn contact_normal(p: Vec2, c: Collider, q: Vec2, d: Collider) -> Vec2 {
    if overlap_y(p, c, q, d) <= overlap_x(p, c, q, d) {
        Vec2 { x: 0i32, y: if p.y >= q.y { -1i32 } else { 1i32 } }
    } else {
        Vec2 { x: if p.x >= q.x { -1i32 } else { 1i32 }, y: 0i32 }
    }
}

/// Penetration depth of that contact (half the doubled overlap, rounded
/// down, so that a corrected body still touches).
pub open spec fn contact_depth(p: Vec2, c: Collider, q: Vec2, d: Collider) -> int {
    if overlap_y(p, c, q, d) <= overlap_x(p, c, q, d) {
        overlap_y(p, c, q, d) / 2
    } else {
        overlap_x(p, c, q, d) / 2
    }
}

/// Position, velocity and ground flag of a body after meeting one fixed
/// collider: on contact the body is pushed out along the normal, its
/// velocity along the normal is removed, and the flag records whether the
/// normal is a ground normal for gravity `g`.
pub open spec fn axis_contact_effect(p: Vec2, v: Vec2, c: Collider, g: Vec2, q: Vec2, d: Collider) -> (Vec2, Vec2, bool) {
    if overlap_x(p, c, q, d) >= 0 && overlap_y(p, c, q, d) >= 0 {
        let n = contact_normal(p, c, q, d);
        let depth = contact_depth(p, c, q, d);
        (
            Vec2 {
                x: clamp_i32(p.x - n.x * depth) as i32,
                y: clamp_i32(p.y - n.y * depth) as i32,
            },
            Vec2 { x: if n.x != 0 { 0 } else { v.x }, y: if n.y != 0 { 0 } else { v.y } },
            is_ground_normal(n, g),
        )
    } else {
        (p, v, false)
    }
}

pub open spec fn is_circle(c: Collider) -> bool {
    c is Circle
}

pub open spec fn radius_of(c: Collider) -> int {
    match c {
        Collider::Circle { radius } => radius as int,
        Collider::Rect { .. } => 0,
    }
}

/// The contact of a body at `p` with geometry at `q` is round: two circles
/// with distinct centres, or a circle and a rectangle where the centre of
/// the circle lies beyond a corner of the rectangle. Every other contact
/// meets a face, along an axis.
pub open spec fn round_contact(p: Vec2, c: Collider, q: Vec2, d: Collider) -> bool {
    let ex = 2 * (p.x - q.x);
    let ey = 2 * (p.y - q.y);
    if is_circle(c) && is_circle(d) {
        ex != 0 || ey != 0
    } else if is_circle(c) {
        abs(ex) > box_width(d) && abs(ey) > box_height(d)
    } else if is_circle(d) {
        abs(ex) > box_width(c) && abs(ey) > box_height(c)
    } else {
        false
    }
}

/// One doubled coordinate of the gap of a round contact: from the feature
/// of the geometry (a centre or a corner) to the feature of the body.
pub open spec fn gap_axis(e: int, w: int) -> int {
    if e >= 0 { e - w } else { e + w }
}

/// The doubled gap vector of a round contact.
pub open spec fn gap(p: Vec2, c: Collider, q: Vec2, d: Collider) -> (int, int) {
    let w = if is_circle(c) && is_circle(d) { 0 } else if is_circle(c) { box_width(d) } else { box_width(c) };
    let h = if is_circle(c) && is_circle(d) { 0 } else if is_circle(c) { box_height(d) } else { box_height(c) };
    (gap_axis(2 * (p.x - q.x), w), gap_axis(2 * (p.y - q.y), h))
}

/// A round contact: where the gap is within the sum of the radii, the body
/// moves out along the gap by the penetration (the length of the gap taken
/// rounded down), loses its velocity along the gap, and the contact is
/// ground where the normal, rounded to thousandths, is a ground normal.
pub open spec fn round_effect(p: Vec2, v: Vec2, c: Collider, g: Vec2, q: Vec2, d: Collider) -> (Vec2, Vec2, bool) {
    let (gx, gy) = gap(p, c, q, d);
    let ss = gx * gx + gy * gy;
    let reach = 2 * (radius_of(c) + radius_of(d));
    if ss <= reach * reach {
        let l = choose|l: int| #[trigger] is_isqrt(ss, l);
        let dot = gx * v.x + gy * v.y;
        let nx = trunc_div(-1000 * gx, l);
        let ny = trunc_div(-1000 * gy, l);
        let dd = nx * g.x + ny * g.y;
        (
            Vec2 {
                x: clamp_i32(p.x + trunc_div(gx * (reach - l), 2 * l)) as i32,
                y: clamp_i32(p.y + trunc_div(gy * (reach - l), 2 * l)) as i32,
            },
            Vec2 {
                x: clamp_i32(v.x - trunc_div(gx * dot, ss)) as i32,
                y: clamp_i32(v.y - trunc_div(gy * dot, ss)) as i32,
            },
            dd > 0 && 4 * (dd * dd) > 1_000_000 * (g.x * g.x + g.y * g.y),
        )
    } else {
        (p, v, false)
    }
}

/// Position, velocity and ground flag of a body after meeting one fixed
/// collider: a round contact by `round_effect`, any other by
/// `axis_contact_effect`.
pub open spec fn contact_effect(p: Vec2, v: Vec2, c: Collider, g: Vec2, q: Vec2, d: Collider) -> (Vec2, Vec2, bool) {
    if round_contact(p, c, q, d) {
        round_effect(p, v, c, g, q, d)
    } else {
        axis_contact_effect(p, v, c, g, q, d)
    }
}

/// State of a body after meeting `other`, where only fixed geometry counts.
pub open spec fn contact_step(st: (Vec2, Vec2, bool), c: Collider, g: Vec2, other: EntityRecord) -> (Vec2, Vec2, bool) {
    match (other.fixed, other.transform, other.collider) {
        (Some(_), Some(t), Some(d)) => {
            let e = contact_effect(st.0, st.1, c, g, t.translation, d);
            (e.0, e.1, st.2 || e.2)
        },
        _ => st,
    }
}

/// The state of a body after meeting the first `n` records of `s` in turn.
pub open spec fn contacts(s: Seq<EntityRecord>, n: nat, st: (Vec2, Vec2, bool), c: Collider, g: Vec2) -> (Vec2, Vec2, bool)
    decreases n,
{
    if n == 0 || n > s.len() {
        st
    } else {
        contact_step(contacts(s, (n - 1) as nat, st, c, g), c, g, s[n - 1])
    }
}

/// The gravity that decides what counts as ground for `r`: its own where it
/// tracks whether it is grounded, else none.
pub open spec fn ground_gravity(r: EntityRecord) -> Vec2 {
    match (r.grounded, r.gravity) {
        (Some(_), Some(g)) => g.acceleration,
        _ => Vec2 { x: 0, y: 0 },
    }
}

/// A body that fixed geometry stops: it moves, it collides, and it is not
/// fixed itself.
pub open spec fn is_dynamic(r: EntityRecord) -> bool {
    r.fixed is None && r.transform is Some && r.body is Some && r.collider is Some
}

/// `r` after resolving its contacts with the fixed geometry of `s`.
pub open spec fn resolve_step(s: Seq<EntityRecord>, r: EntityRecord, dt: u32) -> EntityRecord {
    if is_dynamic(r) {
        let t = r.transform.unwrap();
        let c = r.collider.unwrap();
        let st = contacts(s, s.len(), (t.translation, r.body.unwrap().velocity, false), c, ground_gravity(r));
        EntityRecord {
            transform: Some(Transform { translation: st.0, ..t }),
            body: Some(KinematicBody { velocity: st.1 }),
            grounded: match (r.grounded, r.gravity) {
                (Some(g), Some(_)) => Some(next_grounded(g, st.2, (dt as int) * (scale_of(r) as int) / 1000)),
                _ => r.grounded,
            },
            ..r
        }
    } else {
        r
    }
}

fn box_w(c: Collider) -> (w: i128)
    ensures
        w == box_width(c),
        0 <= w <= 2 * (u32::MAX as int),
{
    match c {
        Collider::Rect { width, .. } => width as i128,
        Collider::Circle { radius } => 2 * radius as i128,
    }
}

fn box_h(c: Collider) -> (h: i128)
    ensures
        h == box_height(c),
        0 <= h <= 2 * (u32::MAX as int),
{
    match c {
        Collider::Rect { height, .. } => height as i128,
        Collider::Circle { radius } => 2 * radius as i128,
    }
}

fn ground_normal_test(n: Vec2, g: Vec2) -> (b: bool)
    requires
        -1 <= n.x <= 1,
        -1 <= n.y <= 1,
    ensures
        b == is_ground_normal(n, g),
{
    let dx: i128 = if n.x == 1 { g.x as i128 } else if n.x == -1 { -(g.x as i128) } else { 0 };
    let dy: i128 = if n.y == 1 { g.y as i128 } else if n.y == -1 { -(g.y as i128) } else { 0 };
    assert(dx == n.x * g.x) by (nonlinear_arith)
        requires
            -1 <= n.x <= 1,
            n.x == 1 ==> dx == g.x,
            n.x == -1 ==> dx == -g.x,
            n.x == 0 ==> dx == 0,
    ;
    assert(dy == n.y * g.y) by (nonlinear_arith)
        requires
            -1 <= n.y <= 1,
            n.y == 1 ==> dy == g.y,
            n.y == -1 ==> dy == -g.y,
            n.y == 0 ==> dy == 0,
    ;
    let d: i128 = dx + dy;
    let gg = square(g.x as i128) + square(g.y as i128);
    d > 0 && 4 * square(d) > gg
}

pub proof fn lemma_trunc_div_bound(a: int, b: int, k: int)
    requires
        b >= 1,
        k >= 0,
        abs(a) <= k * b,
    ensures
        abs(crate::math::trunc_div(a, b)) <= k,
{
    if a >= 0 {
        assert(a / b <= k) by (nonlinear_arith)
            requires
                0 <= a <= k * b,
                b >= 1,
        ;
        assert(a / b >= 0) by (nonlinear_arith)
            requires
                a >= 0,
                b >= 1,
        ;
    } else {
        assert((-a) / b <= k) by (nonlinear_arith)
            requires
                0 <= -a <= k * b,
                b >= 1,
        ;
        assert((-a) / b >= 0) by (nonlinear_arith)
            requires
                -a >= 0,
                b >= 1,
        ;
    }
}

fn mul_i(a: i128, b: i128) -> (r: i128)
    requires
        -0x1_0000_0000_0000 < a < 0x1_0000_0000_0000,
        -0x100_0000_0000_0000_0000 < b < 0x100_0000_0000_0000_0000,
    ensures
        r == a * b,
        -0x100_0000_0000_0000_0000_0000_0000_0000 < r < 0x100_0000_0000_0000_0000_0000_0000_0000,
{
    proof {
        assert(-0x100_0000_0000_0000_0000_0000_0000_0000 < a * b < 0x100_0000_0000_0000_0000_0000_0000_0000) by (nonlinear_arith)
            requires
                -0x1_0000_0000_0000 < a < 0x1_0000_0000_0000,
                -0x100_0000_0000_0000_0000 < b < 0x100_0000_0000_0000_0000,
        ;
    }
    a * b
}

fn round_effect_exec(p: Vec2, v: Vec2, c: Collider, g: Vec2, q: Vec2, d: Collider) -> (r: (Vec2, Vec2, bool))
    requires
        round_contact(p, c, q, d),
    ensures
        r == round_effect(p, v, c, g, q, d),
{
    let both = match (c, d) {
        (Collider::Circle { .. }, Collider::Circle { .. }) => true,
        _ => false,
    };
    let w: i128 = if both { 0 } else { match c { Collider::Circle { .. } => box_w(d), _ => box_w(c) } };
    let h: i128 = if both { 0 } else { match c { Collider::Circle { .. } => box_h(d), _ => box_h(c) } };
    let ex: i128 = 2 * (p.x as i128 - q.x as i128);
    let ey: i128 = 2 * (p.y as i128 - q.y as i128);
    let gx: i128 = if ex >= 0 { ex - w } else { ex + w };
    let gy: i128 = if ey >= 0 { ey - h } else { ey + h };
    let rc: i128 = match c { Collider::Circle { radius } => radius as i128, _ => 0 };
    let rd: i128 = match d { Collider::Circle { radius } => radius as i128, _ => 0 };
    let reach: i128 = 2 * (rc + rd);
    assert((gx as int, gy as int) == gap(p, c, q, d));
    assert(reach == 2 * (radius_of(c) + radius_of(d)));
    let ss: i128 = mul_i(gx, gx) + mul_i(gy, gy);
    let rr: i128 = mul_i(reach, reach);
    if ss <= rr {
        proof {
            assert(gx != 0 || gy != 0);
            assert(ss >= 1) by (nonlinear_arith)
                requires
                    ss == gx * gx + gy * gy,
                    gx != 0 || gy != 0,
            ;
            assert(ss <= 0x10_0000_0000_0000_0000) by (nonlinear_arith)
                requires
                    ss <= rr,
                    rr == reach * reach,
                    0 <= reach <= 0x4_0000_0000,
            ;
        }
        let l: i128 = isqrt(ss as u128) as i128;
        proof {
            let l0 = choose|l0: int| #[trigger] is_isqrt(ss as int, l0);
            lemma_isqrt_unique(ss as int, l0, l as int);
            assert(l >= 1) by (nonlinear_arith)
                requires
                    ss >= 1,
                    ss < (l + 1) * (l + 1),
                    l >= 0,
            ;
            assert(l <= reach) by (nonlinear_arith)
                requires
                    l * l <= ss,
                    ss <= reach * reach,
                    l >= 0,
                    reach >= 0,
            ;
        }
        let dot: i128 = mul_i(gx, v.x as i128) + mul_i(gy, v.y as i128);
        proof {
            assert(-0x10_0000_0000_0000_0000 < dot < 0x10_0000_0000_0000_0000) by (nonlinear_arith)
                requires
                    dot == gx * (v.x as int) + gy * (v.y as int),
                    -0x8_0000_0000 < gx < 0x8_0000_0000,
                    -0x8_0000_0000 < gy < 0x8_0000_0000,
                    -0x8000_0000 <= v.x < 0x8000_0000,
                    -0x8000_0000 <= v.y < 0x8000_0000,
            ;
        }
        let nx = div_toward_zero(mul_i(-1000, gx), l);
        let ny = div_toward_zero(mul_i(-1000, gy), l);
        proof {
            assert(abs(gx as int) <= l) by (nonlinear_arith)
                requires
                    gx * gx + gy * gy < (l + 1) * (l + 1),
                    l >= 0,
            ;
            assert(abs(gy as int) <= l) by (nonlinear_arith)
                requires
                    gx * gx + gy * gy < (l + 1) * (l + 1),
                    l >= 0,
            ;
            lemma_trunc_div_bound(-1000 * gx, l as int, 1000);
            lemma_trunc_div_bound(-1000 * gy, l as int, 1000);
        }
        let dd: i128 = mul_i(nx, g.x as i128) + mul_i(ny, g.y as i128);
        let gg: i128 = mul_i(g.x as i128, g.x as i128) + mul_i(g.y as i128, g.y as i128);
        proof {
            assert(0 <= gg <= 0x8000_0000_0000_0000) by (nonlinear_arith)
                requires
                    gg == (g.x as int) * (g.x as int) + (g.y as int) * (g.y as int),
                    -0x8000_0000 <= g.x < 0x8000_0000,
                    -0x8000_0000 <= g.y < 0x8000_0000,
            ;
            assert(-0x1_0000_0000_0000 < dd < 0x1_0000_0000_0000) by (nonlinear_arith)
                requires
                    dd == nx * (g.x as int) + ny * (g.y as int),
                    -1000 <= nx <= 1000,
                    -1000 <= ny <= 1000,
                    -0x8000_0000 <= g.x < 0x8000_0000,
                    -0x8000_0000 <= g.y < 0x8000_0000,
            ;
        }
        let ground = dd > 0 && 4 * mul_i(dd, dd) > mul_i(1_000_000, gg);
        let px = div_toward_zero(mul_i(gx, reach - l), 2 * l);
        let py = div_toward_zero(mul_i(gy, reach - l), 2 * l);
        let vx = div_toward_zero(mul_i(gx, dot), ss);
        let vy = div_toward_zero(mul_i(gy, dot), ss);
        proof {
            assert(abs(gx * (reach - l)) <= 0x100_0000_0000_0000_0000 * (2 * l)) by (nonlinear_arith)
                requires
                    -0x8_0000_0000 < gx < 0x8_0000_0000,
                    0 <= reach - l <= 0x4_0000_0000,
                    l >= 1,
            ;
            assert(abs(gy * (reach - l)) <= 0x100_0000_0000_0000_0000 * (2 * l)) by (nonlinear_arith)
                requires
                    -0x8_0000_0000 < gy < 0x8_0000_0000,
                    0 <= reach - l <= 0x4_0000_0000,
                    l >= 1,
            ;
            lemma_trunc_div_bound(gx * (reach - l), 2 * l, 0x100_0000_0000_0000_0000);
            lemma_trunc_div_bound(gy * (reach - l), 2 * l, 0x100_0000_0000_0000_0000);
        }
        (
            Vec2 { x: saturate_i32(p.x as i128 + px), y: saturate_i32(p.y as i128 + py) },
            Vec2 { x: saturate_i32(v.x as i128 - vx), y: saturate_i32(v.y as i128 - vy) },
            ground,
        )
    } else {
        (p, v, false)
    }
}

fn contact_effect_exec(p: Vec2, v: Vec2, c: Collider, g: Vec2, q: Vec2, d: Collider) -> (r: (Vec2, Vec2, bool))
    ensures
        r == contact_effect(p, v, c, g, q, d),
{
    let ex: i128 = 2 * (p.x as i128 - q.x as i128);
    let ey: i128 = 2 * (p.y as i128 - q.y as i128);
    let aex = abs_i128(ex);
    let aey = abs_i128(ey);
    let round = match (c, d) {
        (Collider::Circle { .. }, Collider::Circle { .. }) => ex != 0 || ey != 0,
        (Collider::Circle { .. }, _) => aex > box_w(d) && aey > box_h(d),
        (_, Collider::Circle { .. }) => aex > box_w(c) && aey > box_h(c),
        _ => false,
    };
    if round {
        round_effect_exec(p, v, c, g, q, d)
    } else {
        axis_contact_exec(p, v, c, g, q, d)
    }
}

fn axis_contact_exec(p: Vec2, v: Vec2, c: Collider, g: Vec2, q: Vec2, d: Collider) -> (r: (Vec2, Vec2, bool))
    ensures
        r == axis_contact_effect(p, v, c, g, q, d),
{
    let ox: i128 = box_w(c) + box_w(d) - abs_i128(2 * (p.x as i128 - q.x as i128));
    let oy: i128 = box_h(c) + box_h(d) - abs_i128(2 * (p.y as i128 - q.y as i128));
    if ox >= 0 && oy >= 0 {
        let n = if oy <= ox {
            Vec2 { x: 0, y: if p.y >= q.y { -1 } else { 1 } }
        } else {
            Vec2 { x: if p.x >= q.x { -1 } else { 1 }, y: 0 }
        };
        let depth: i128 = if oy <= ox { oy / 2 } else { ox / 2 };
        let mx: i128 = if n.x == 1 { depth } else if n.x == -1 { -depth } else { 0 };
        let my: i128 = if n.y == 1 { depth } else if n.y == -1 { -depth } else { 0 };
        assert(mx == n.x * depth) by (nonlinear_arith)
            requires
                -1 <= n.x <= 1,
                n.x == 1 ==> mx == depth,
                n.x == -1 ==> mx == -depth,
                n.x == 0 ==> mx == 0,
        ;
        assert(my == n.y * depth) by (nonlinear_arith)
            requires
                -1 <= n.y <= 1,
                n.y == 1 ==> my == depth,
                n.y == -1 ==> my == -depth,
                n.y == 0 ==> my == 0,
        ;
        let np = Vec2 {
            x: saturate_i32(p.x as i128 - mx),
            y: saturate_i32(p.y as i128 - my),
        };
        let nv = Vec2 { x: if n.x != 0 { 0 } else { v.x }, y: if n.y != 0 { 0 } else { v.y } };
        (np, nv, ground_normal_test(n, g))
    } else {
        (p, v, false)
    }
}

fn grounded_after(g: Grounded, contact: bool, dt: u32, scale: u32) -> (r: Grounded)
    ensures
        r == next_grounded(g, contact, (dt as int) * (scale as int) / 1000),
{
    proof {
        assert(0 <= (dt as int) * (scale as int) < 0x1_0000_0000_0000_0000) by (nonlinear_arith)
            requires
                0 <= dt < 0x1_0000_0000,
                0 <= scale < 0x1_0000_0000,
        ;
    }
    let step: i128 = (dt as i128 * scale as i128) / 1000;
    match g {
        Grounded::Yes { time } => if contact {
            Grounded::Yes { time: saturate_u32(time as i128 + step) }
        } else {
            Grounded::No { time: 0 }
        },
        Grounded::No { time } => if contact {
            Grounded::Yes { time: 0 }
        } else {
            Grounded::No { time: saturate_u32(time as i128 + step) }
        },
    }
}

/// Pushes every dynamic body out of the fixed geometry it meets, one
/// contact after another, removes its velocity along each contact normal,
/// and updates whether it is grounded.
pub fn resolve_collisions(world: &mut World, time: &Time)
    ensures
        final(world).next_id == old(world).next_id,
        final(world).entities@.len() == old(world).entities@.len(),
        forall|i: int| 0 <= i < old(world).entities@.len()
            ==> final(world).entities@[i] == resolve_step(old(world).entities@, old(world).entities@[i], time.dt_spec()),
{
    let ghost s = world.entities@;
    let dt = time.dt_ms();
    let n = world.entities.len();
    let mut i: usize = 0;
    while i < n
        invariant
            n == world.entities@.len(),
            s == old(world).entities@,
            n == s.len(),
            i <= n,
            world.next_id == old(world).next_id,
            dt == time.dt_spec(),
            forall|j: int| 0 <= j < i ==> world.entities@[j] == resolve_step(s, s[j], dt),
            forall|j: int| i <= j < n ==> world.entities@[j] == s[j],
        decreases n - i,
    {
        let r = world.entities[i];
        if r.fixed.is_none() && r.transform.is_some() && r.body.is_some() && r.collider.is_some() {
            let t = r.transform.unwrap();
            let c = r.collider.unwrap();
            let b = r.body.unwrap();
            let g = match (r.grounded, r.gravity) {
                (Some(_), Some(gr)) => gr.acceleration,
                _ => Vec2 { x: 0, y: 0 },
            };
            let ghost init = (t.translation, b.velocity, false);
            let mut p = t.translation;
            let mut v = b.velocity;
            let mut ground = false;
            let mut j: usize = 0;
            while j < n
                invariant
                    n == world.entities@.len(),
                    n == s.len(),
                    j <= n,
                    i < n,
                    forall|k: int| 0 <= k < i ==> world.entities@[k] == resolve_step(s, s[k], dt),
                    forall|k: int| i <= k < n ==> world.entities@[k] == s[k],
                    g == ground_gravity(r),
                    (p, v, ground) == contacts(s, j as nat, init, c, g),
                decreases n - j,
            {
                let o = world.entities[j];
                assert(contact_step(contacts(s, j as nat, init, c, g), c, g, o)
                    == contact_step(contacts(s, j as nat, init, c, g), c, g, s[j as int]));
                match (o.fixed, o.transform, o.collider) {
                    (Some(_), Some(ot), Some(oc)) => {
                        let e = contact_effect_exec(p, v, c, g, ot.translation, oc);
                        p = e.0;
                        v = e.1;
                        ground = ground || e.2;
                    },
                    _ => {},
                }
                j = j + 1;
            }
            let grounded = match (r.grounded, r.gravity) {
                (Some(gd), Some(_)) => Some(grounded_after(gd, ground, dt, scale_exec(&r))),
                _ => r.grounded,
            };
            world.entities.set(i, EntityRecord {
                transform: Some(Transform { translation: p, ..t }),
                body: Some(KinematicBody { velocity: v }),
                grounded,
                ..r
            });
        }
        i = i + 1;
    }
}

} // verus!

verus! {

/// The identifiers of a collision set, inline up to eight; the vector is
/// smallvec's, which Verus cannot declare, so it stands in a field of its
/// own type.
#[verifier::external_body]
pub struct HitList {
    v: smallvec::SmallVec<[Entity; 8]>,
}

/// The identifiers that a hit list holds, in order.
pub uninterp spec fn hit_ids(v: HitList) -> Seq<Entity>;

/// Relies on SmallVec::new: a vector with no element.
#[verifier::external_body]
fn hits_new() -> (r: HitList)
    ensures
        hit_ids(r) == Seq::<Entity>::empty(),
{
    HitList { v: smallvec::SmallVec::new() }
}

/// Relies on SmallVec::push: the element is appended at the end. It panics
/// only where the capacity would overflow, far beyond the bound required.
#[verifier::external_body]
fn hits_push(v: &mut HitList, e: Entity)
    requires
        hit_ids(*old(v)).len() < 0x1000_0000,
    ensures
        hit_ids(*final(v)) == hit_ids(*old(v)).push(e),
{
    v.v.push(e)
}

/// Relies on SmallVec::len: the number of elements.
#[verifier::external_body]
pub(crate) fn hits_len(v: &HitList) -> (n: usize)
    ensures
        n == hit_ids(*v).len(),
{
    v.v.len()
}

/// Relies on indexing a SmallVec (through its slice): the `i`th element,
/// for an index in bounds.
#[verifier::external_body]
pub(crate) fn hits_get(v: &HitList, i: usize) -> (e: Entity)
    requires
        i < hit_ids(*v).len(),
    ensures
        e == hit_ids(*v)[i as int],
{
    v.v[i]
}

/// Entities that `owner`'s collider overlaps this tick.
pub struct Collisions {
    pub owner: Entity,
    pub hits: HitList,
}

impl Collisions {
    /// The identifiers of the set, in order.
    pub fn hit_entities(&self) -> (r: Vec<Entity>)
        ensures
            r@ == hit_ids(self.hits),
    {
        let n = hits_len(&self.hits);
        let mut out: Vec<Entity> = Vec::new();
        let mut k: usize = 0;
        while k < n
            invariant
                n == hit_ids(self.hits).len(),
                k <= n,
                out@ == hit_ids(self.hits).subrange(0, k as int),
            decreases n - k,
        {
            out.push(hits_get(&self.hits, k));
            k = k + 1;
            assert(out@ =~= hit_ids(self.hits).subrange(0, k as int));
        }
        assert(out@ =~= hit_ids(self.hits));
        out
    }
}

/// `o` is another entity whose collider meets `r`'s where both stand.
pub open spec fn collides_with(r: EntityRecord, o: EntityRecord) -> bool {
    &&& o.entity != r.entity
    &&& r.transform is Some && r.collider is Some
    &&& o.transform is Some && o.collider is Some
    &&& shapes_intersect(
        r.transform.unwrap().translation,
        r.collider.unwrap(),
        o.transform.unwrap().translation,
        o.collider.unwrap(),
    )
}

/// Most hits a collision set records, far beyond any arena; the first ones
/// in record order are kept.
pub const MAX_HITS: usize = 0x1000_0000;

/// Identifiers of the records among the first `n` of `s` that `r` collides
/// with, in order (up to `MAX_HITS`).
pub open spec fn hits_upto(s: Seq<EntityRecord>, r: EntityRecord, n: nat) -> Seq<Entity>
    decreases n,
{
    if n == 0 || n > s.len() {
        Seq::empty()
    } else if collides_with(r, s[n - 1]) && hits_upto(s, r, (n - 1) as nat).len() < MAX_HITS {
        hits_upto(s, r, (n - 1) as nat).push(s[n - 1].entity)
    } else {
        hits_upto(s, r, (n - 1) as nat)
    }
}

/// The collision set of `r` among the records `s`: empty for an entity
/// that keeps none.
pub open spec fn collision_set(s: Seq<EntityRecord>, r: EntityRecord) -> Seq<Entity> {
    if r.senses_collisions {
        hits_upto(s, r, s.len())
    } else {
        Seq::empty()
    }
}

/// Recomputes every collision set from scratch, one per record in order:
/// the set of each record that keeps one lists every other entity whose
/// collider meets its own.
pub fn compute_collisions(world: &World) -> (r: Vec<Collisions>)
    ensures
        r@.len() == world.entities@.len(),
        forall|i: int| 0 <= i < r@.len() ==> r@[i].owner == world.entities@[i].entity
            && hit_ids(r@[i].hits) == collision_set(world.entities@, world.entities@[i]),
{
    let ghost s = world.entities@;
    let n = world.entities.len();
    let mut out: Vec<Collisions> = Vec::new();
    let mut i: usize = 0;
    while i < n
        invariant
            s == world.entities@,
            n == s.len(),
            i <= n,
            out@.len() == i,
            forall|k: int| 0 <= k < i ==> out@[k].owner == s[k].entity && hit_ids(out@[k].hits) == collision_set(s, s[k]),
        decreases n - i,
    {
        let r = world.entities[i];
        let mut hits = hits_new();
        if r.senses_collisions && r.transform.is_some() && r.collider.is_some() {
            let t = r.transform.unwrap();
            let c = r.collider.unwrap();
            let mut j: usize = 0;
            while j < n
                invariant
                    s == world.entities@,
                    n == s.len(),
                    j <= n,
                    r == s[i as int],
                    r.transform == Some(t),
                    r.collider == Some(c),
                    hit_ids(hits) == hits_upto(s, r, j as nat),
                    hits_upto(s, r, j as nat).len() <= MAX_HITS,
                decreases n - j,
            {
                let o = world.entities[j];
                if o.entity != r.entity {
                    match (o.transform, o.collider) {
                        (Some(ot), Some(oc)) => {
                            if intersects(t.translation, c, ot.translation, oc) && hits_len(&hits) < MAX_HITS {
                                hits_push(&mut hits, o.entity);
                            }
                        },
                        _ => {},
                    }
                }
                j = j + 1;
            }
        } else if r.senses_collisions {
            proof {
                lemma_no_hits_without_shape(s, r, s.len());
            }
        }
        out.push(Collisions { owner: r.entity, hits });
        i = i + 1;
    }
    out
}

proof fn lemma_no_hits_without_shape(s: Seq<EntityRecord>, r: EntityRecord, n: nat)
    requires
        !(r.transform is Some && r.collider is Some),
    ensures
        hits_upto(s, r, n) == Seq::<Entity>::empty(),
    decreases n,
{
    if n > 0 && n <= s.len() {
        lemma_no_hits_without_shape(s, r, (n - 1) as nat);
    }
}

/// Membership in a collision set is exact: an identifier is in it if and
/// only if it belongs to another entity whose collider meets the owner's
/// (for a set below `MAX_HITS`).
pub proof fn lemma_collision_set_exact(s: Seq<EntityRecord>, r: EntityRecord, e: Entity)
    requires
        r.senses_collisions,
        collision_set(s, r).len() < MAX_HITS,
    ensures
        collision_set(s, r).contains(e) <==> exists|j: int| 0 <= j < s.len() && s[j].entity == e && collides_with(r, s[j]),
{
    lemma_hits_upto_exact(s, r, e, s.len());
}

proof fn lemma_hits_upto_grows(s: Seq<EntityRecord>, r: EntityRecord, n: nat)
    requires
        n < s.len(),
    ensures
        hits_upto(s, r, n).len() <= hits_upto(s, r, n + 1).len(),
{
}

proof fn lemma_hits_upto_exact(s: Seq<EntityRecord>, r: EntityRecord, e: Entity, n: nat)
    requires
        n <= s.len(),
        hits_upto(s, r, n).len() < MAX_HITS,
    ensures
        hits_upto(s, r, n).contains(e) <==> exists|j: int| 0 <= j < n && s[j].entity == e && collides_with(r, s[j]),
    decreases n,
{
    if n > 0 {
        lemma_hits_upto_grows(s, r, (n - 1) as nat);
        lemma_hits_upto_exact(s, r, e, (n - 1) as nat);
        let prev = hits_upto(s, r, (n - 1) as nat);
        if collides_with(r, s[n - 1]) {
            assert(hits_upto(s, r, n) == prev.push(s[n - 1].entity));
            if hits_upto(s, r, n).contains(e) {
                let k = choose|k: int| 0 <= k < hits_upto(s, r, n).len() && hits_upto(s, r, n)[k] == e;
                if k < prev.len() {
                    assert(prev.contains(e));
                }
            }
            if exists|j: int| 0 <= j < n && s[j].entity == e && collides_with(r, s[j]) {
                let j = choose|j: int| 0 <= j < n && s[j].entity == e && collides_with(r, s[j]);
                if j < n - 1 {
                    assert(prev.contains(e));
                    let k = choose|k: int| 0 <= k < prev.len() && prev[k] == e;
                    assert(hits_upto(s, r, n)[k] == e);
                } else {
                    assert(hits_upto(s, r, n)[prev.len() as int] == e);
                }
            }
        } else {
            if exists|j: int| 0 <= j < n && s[j].entity == e && collides_with(r, s[j]) {
                let j = choose|j: int| 0 <= j < n && s[j].entity == e && collides_with(r, s[j]);
                assert(j < n - 1);
            }
        }
    }
}

} // verus!

verus! {

/// Grounded and airborne change places exactly when the ground contact of
/// the tick differs from the current state, and the clock restarts at 0
/// exactly then; otherwise it runs on.
pub proof fn lemma_grounded_transitions(g: Grounded, contact: bool, dt: int)
    ensures
        is_grounded(next_grounded(g, contact, dt)) == contact,
        is_grounded(next_grounded(g, contact, dt)) != is_grounded(g)
            ==> grounded_time(next_grounded(g, contact, dt)) == 0,
        is_grounded(next_grounded(g, contact, dt)) == is_grounded(g)
            ==> grounded_time(next_grounded(g, contact, dt)) == clamp_u32(grounded_time(g) + dt),
{
}

/// Largest `r` with `r * r <= x`.
pub open spec fn is_isqrt(x: int, r: int) -> bool {
    0 <= r && r * r <= x < (r + 1) * (r + 1)
}

pub fn isqrt(x: u128) -> (r: u128)
    requires
        x < 0x1_0000_0000_0000_0000_0000_0000,
    ensures
        is_isqrt(x as int, r as int),
        r < 0x10_0000_0000_0000,
{
    let mut lo: u128 = 0;
    let mut hi: u128 = 0x10_0000_0000_0000;
    assert(hi * hi > x) by (nonlinear_arith)
        requires
            hi == 0x10_0000_0000_0000,
            x < 0x1_0000_0000_0000_0000_0000_0000,
    ;
    while hi - lo > 1
        invariant
            lo < hi <= 0x10_0000_0000_0000,
            lo * lo <= x,
            x < hi * hi,
        decreases hi - lo,
    {
        let mid: u128 = lo + (hi - lo) / 2;
        assert(mid * mid <= 0x100_0000_0000_0000_0000_0000_0000) by (nonlinear_arith)
            requires
                mid <= 0x10_0000_0000_0000,
        ;
        if mid * mid <= x {
            lo = mid;
        } else {
            hi = mid;
        }
    }
    assert(hi == lo + 1);
    lo
}

/// A direction with both components below 2^14 in magnitude.
pub open spec fn small_dir(d: Vec2) -> bool {
    -0x4000 < d.x < 0x4000 && -0x4000 < d.y < 0x4000
}

/// The direction a ray actually travels: `d` with both components halved,
/// rounding toward zero, until both are below 2^14.
pub open spec fn reduce_dir(d: Vec2) -> Vec2
    decreases abs(d.x as int) + abs(d.y as int),
{
    if small_dir(d) {
        d
    } else {
        reduce_dir(Vec2 { x: trunc_div(d.x as int, 2) as i32, y: trunc_div(d.y as int, 2) as i32 })
    }
}

/// Fractions `(n, m)` with `m > 0`: `a` is at most `b`.
pub open spec fn frac_le(a: (int, int), b: (int, int)) -> bool {
    a.0 * b.1 <= b.0 * a.1
}

pub open spec fn frac_max(a: (int, int), b: (int, int)) -> (int, int) {
    if frac_le(a, b) { b } else { a }
}

pub open spec fn frac_min(a: (int, int), b: (int, int)) -> (int, int) {
    if frac_le(a, b) { a } else { b }
}

/// The times along one axis at which a ray with doubled offset `e` and
/// doubled direction `dd` is within a slab `w` wide: every time (kind 0),
/// none (kind 1), or from one fraction to another (kind 2).
pub open spec fn slab(e: int, dd: int, w: int) -> (int, (int, int), (int, int)) {
    if dd == 0 {
        if abs(e) <= w { (0, (0, 1), (0, 1)) } else { (1, (0, 1), (0, 1)) }
    } else if dd > 0 {
        (2, (-w - e, dd), (w - e, dd))
    } else {
        (2, (e - w, -dd), (e + w, -dd))
    }
}

/// When a ray from `o` along `d` (at time `t` it is at `o + t * d`) first
/// meets the rectangle `w` by `h` centred at `q`, as a fraction; 0 from
/// inside it.
pub open spec fn box_toi(o: Vec2, d: Vec2, q: Vec2, w: int, h: int) -> Option<(int, int)> {
    let sx = slab(2 * (o.x - q.x), 2 * d.x, w);
    let sy = slab(2 * (o.y - q.y), 2 * d.y, h);
    if sx.0 == 1 || sy.0 == 1 {
        None
    } else {
        let enter = frac_max(frac_max((0, 1), if sx.0 == 2 { sx.1 } else { (0, 1) }), if sy.0 == 2 { sy.1 } else { (0, 1) });
        let exit = if sx.0 == 2 && sy.0 == 2 { frac_min(sx.2, sy.2) } else if sx.0 == 2 { sx.2 } else if sy.0 == 2 { sy.2 } else { (0, 1) };
        if frac_le(enter, exit) { Some(enter) } else { None }
    }
}

/// When a ray from `o` along `d` first meets the circle of radius `r`
/// centred at `q`, as a fraction (the square root in it rounded down); 0
/// from inside it.
pub open spec fn circle_toi(o: Vec2, d: Vec2, q: Vec2, r: int) -> Option<(int, int)> {
    let fx = o.x - q.x;
    let fy = o.y - q.y;
    let a = d.x * d.x + d.y * d.y;
    let b = fx * d.x + fy * d.y;
    let c = fx * fx + fy * fy - r * r;
    if c <= 0 {
        Some((0, 1))
    } else if b >= 0 {
        None
    } else {
        let disc = b * b - a * c;
        if disc < 0 {
            None
        } else {
            let s = choose|s: int| #[trigger] is_isqrt(disc, s);
            Some((-b - s, a))
        }
    }
}

/// When a ray from `o` along `d` first meets the collider `c` at `q`.
pub open spec fn ray_hit(o: Vec2, d: Vec2, q: Vec2, c: Collider) -> Option<(int, int)> {
    match c {
        Collider::Rect { width, height } => box_toi(o, d, q, width as int, height as int),
        Collider::Circle { radius } => circle_toi(o, d, q, radius as int),
    }
}

pub proof fn lemma_isqrt_unique(x: int, a: int, b: int)
    requires
        is_isqrt(x, a),
        is_isqrt(x, b),
    ensures
        a == b,
{
    if a < b {
        assert((a + 1) * (a + 1) <= b * b) by (nonlinear_arith)
            requires
                0 <= a < b,
        ;
    } else if b < a {
        assert((b + 1) * (b + 1) <= a * a) by (nonlinear_arith)
            requires
                0 <= b < a,
        ;
    }
}

fn reduce_dir_exec(d: Vec2) -> (r: Vec2)
    ensures
        r == reduce_dir(d),
        small_dir(r),
{
    let mut x: i32 = d.x;
    let mut y: i32 = d.y;
    while !(-0x4000 < x && x < 0x4000 && -0x4000 < y && y < 0x4000)
        invariant
            reduce_dir(Vec2 { x, y }) == reduce_dir(d),
        decreases abs(x as int) + abs(y as int),
    {
        let nx: i32 = if x >= 0 { x / 2 } else { -((-(x as i64)) / 2) as i32 };
        let ny: i32 = if y >= 0 { y / 2 } else { -((-(y as i64)) / 2) as i32 };
        assert(nx == trunc_div(x as int, 2) && ny == trunc_div(y as int, 2));
        x = nx;
        y = ny;
    }
    Vec2 { x, y }
}

fn frac_le_exec(a: (i128, i128), b: (i128, i128)) -> (r: bool)
    requires
        -0x1_0000_0000_0000_0000 < a.0 < 0x1_0000_0000_0000_0000,
        -0x1_0000_0000_0000_0000 < b.0 < 0x1_0000_0000_0000_0000,
        0 < a.1 < 0x1_0000_0000,
        0 < b.1 < 0x1_0000_0000,
    ensures
        r == frac_le((a.0 as int, a.1 as int), (b.0 as int, b.1 as int)),
{
    proof {
        assert(-0x1_0000_0000_0000_0000_0000_0000 < a.0 * b.1 < 0x1_0000_0000_0000_0000_0000_0000) by (nonlinear_arith)
            requires
                -0x1_0000_0000_0000_0000 < a.0 < 0x1_0000_0000_0000_0000,
                0 < b.1 < 0x1_0000_0000,
        ;
        assert(-0x1_0000_0000_0000_0000_0000_0000 < b.0 * a.1 < 0x1_0000_0000_0000_0000_0000_0000) by (nonlinear_arith)
            requires
                -0x1_0000_0000_0000_0000 < b.0 < 0x1_0000_0000_0000_0000,
                0 < a.1 < 0x1_0000_0000,
        ;
    }
    a.0 * b.1 <= b.0 * a.1
}

fn slab_exec(e: i128, dd: i128, w: i128) -> (r: (u8, (i128, i128), (i128, i128)))
    requires
        -0x10_0000_0000 < e < 0x10_0000_0000,
        -0x10_0000 < dd < 0x10_0000,
        0 <= w < 0x10_0000_0000,
    ensures
        (r.0 as int, (r.1.0 as int, r.1.1 as int), (r.2.0 as int, r.2.1 as int)) == slab(e as int, dd as int, w as int),
        -0x100_0000_0000 < r.1.0 < 0x100_0000_0000 && 0 < r.1.1 < 0x10_0000,
        -0x100_0000_0000 < r.2.0 < 0x100_0000_0000 && 0 < r.2.1 < 0x10_0000,
{
    if dd == 0 {
        if abs_i128(e) <= w { (0, (0, 1), (0, 1)) } else { (1, (0, 1), (0, 1)) }
    } else if dd > 0 {
        (2, (-w - e, dd), (w - e, dd))
    } else {
        (2, (e - w, -dd), (e + w, -dd))
    }
}

fn box_toi_exec(o: Vec2, d: Vec2, q: Vec2, w: i128, h: i128) -> (r: Option<(i128, i128)>)
    requires
        small_dir(d),
        0 <= w <= u32::MAX,
        0 <= h <= u32::MAX,
    ensures
        match r {
            Some(t) => box_toi(o, d, q, w as int, h as int) == Some((t.0 as int, t.1 as int))
                && -0x100_0000_0000 < t.0 < 0x100_0000_0000 && 0 < t.1 < 0x10_0000,
            None => box_toi(o, d, q, w as int, h as int).is_none(),
        },
{
    let sx = slab_exec(2 * (o.x as i128 - q.x as i128), 2 * d.x as i128, w);
    let sy = slab_exec(2 * (o.y as i128 - q.y as i128), 2 * d.y as i128, h);
    if sx.0 == 1 || sy.0 == 1 {
        return None;
    }
    let zero: (i128, i128) = (0, 1);
    let a = if sx.0 == 2 { sx.1 } else { zero };
    let m1 = if frac_le_exec(zero, a) { a } else { zero };
    let b = if sy.0 == 2 { sy.1 } else { zero };
    let enter = if frac_le_exec(m1, b) { b } else { m1 };
    let exit = if sx.0 == 2 && sy.0 == 2 {
        if frac_le_exec(sx.2, sy.2) { sx.2 } else { sy.2 }
    } else if sx.0 == 2 {
        sx.2
    } else if sy.0 == 2 {
        sy.2
    } else {
        zero
    };
    if frac_le_exec(enter, exit) {
        Some(enter)
    } else {
        None
    }
}

fn circle_toi_exec(o: Vec2, d: Vec2, q: Vec2, r: i128) -> (t: Option<(i128, i128)>)
    requires
        small_dir(d),
        d.x != 0 || d.y != 0,
        0 <= r <= u32::MAX,
    ensures
        match t {
            Some(t) => circle_toi(o, d, q, r as int) == Some((t.0 as int, t.1 as int))
                && -0x1_0000_0000_0000_0000 < t.0 < 0x1_0000_0000_0000_0000 && 0 < t.1 < 0x1_0000_0000,
            None => circle_toi(o, d, q, r as int).is_none(),
        },
{
    let fx: i128 = o.x as i128 - q.x as i128;
    let fy: i128 = o.y as i128 - q.y as i128;
    let dx: i128 = d.x as i128;
    let dy: i128 = d.y as i128;
    let a: i128 = mul_i(dx, dx) + mul_i(dy, dy);
    let b: i128 = mul_i(fx, dx) + mul_i(fy, dy);
    let c: i128 = mul_i(fx, fx) + mul_i(fy, fy) - mul_i(r, r);
    proof {
        assert(0 < a < 0x2000_0000) by (nonlinear_arith)
            requires
                a == dx * dx + dy * dy,
                -0x4000 < dx < 0x4000,
                -0x4000 < dy < 0x4000,
                dx != 0 || dy != 0,
        ;
        assert(-0x1_0000_0000_0000 < b < 0x1_0000_0000_0000) by (nonlinear_arith)
            requires
                b == fx * dx + fy * dy,
                -0x1_0000_0000 < fx < 0x1_0000_0000,
                -0x1_0000_0000 < fy < 0x1_0000_0000,
                -0x4000 < dx < 0x4000,
                -0x4000 < dy < 0x4000,
        ;
        assert(-0x1_0000_0000_0000_0000 <= c <= 0x2_0000_0000_0000_0000) by (nonlinear_arith)
            requires
                c == fx * fx + fy * fy - r * r,
                -0x1_0000_0000 < fx < 0x1_0000_0000,
                -0x1_0000_0000 < fy < 0x1_0000_0000,
                0 <= r <= 0xFFFF_FFFF,
        ;
    }
    if c <= 0 {
        return Some((0, 1));
    }
    if b >= 0 {
        return None;
    }
    let bb = mul_i(b, b);
    proof {
        assert(0 <= a * c <= 0x4000_0000_0000_0000_0000_0000) by (nonlinear_arith)
            requires
                0 < a < 0x2000_0000,
                0 < c <= 0x2_0000_0000_0000_0000,
        ;
        assert(bb < 0x1_0000_0000_0000_0000_0000_0000) by (nonlinear_arith)
            requires
                bb == b * b,
                -0x1_0000_0000_0000 < b < 0x1_0000_0000_0000,
        ;
    }
    let ac = mul_i(a, c);
    let disc: i128 = bb - ac;
    if disc < 0 {
        return None;
    }
    let sq = isqrt(disc as u128) as i128;
    proof {
        let s0 = choose|s0: int| #[trigger] is_isqrt(disc as int, s0);
        lemma_isqrt_unique(disc as int, s0, sq as int);
        assert(sq <= -b) by (nonlinear_arith)
            requires
                sq * sq <= disc,
                disc == b * b - a * c,
                a * c >= 0,
                b < 0,
                sq >= 0,
        ;
    }
    Some((-b - sq, a))
}

fn ray_hit_exec(o: Vec2, d: Vec2, q: Vec2, c: Collider) -> (r: Option<(i128, i128)>)
    requires
        small_dir(d),
        d.x != 0 || d.y != 0,
    ensures
        match r {
            Some(t) => ray_hit(o, d, q, c) == Some((t.0 as int, t.1 as int))
                && -0x1_0000_0000_0000_0000 < t.0 < 0x1_0000_0000_0000_0000 && 0 < t.1 < 0x1_0000_0000,
            None => ray_hit(o, d, q, c).is_none(),
        },
{
    match c {
        Collider::Rect { width, height } => box_toi_exec(o, d, q, width as i128, height as i128),
        Collider::Circle { radius } => circle_toi_exec(o, d, q, radius as i128),
    }
}

/// Nearest hit among the records of `s` that can stop the ray, where each
/// earlier record wins a tie: the hit record's position, and the time as a
/// fraction.
pub open spec fn nearest_hit(
    s: Seq<EntityRecord>,
    n: nat,
    o: Vec2,
    d: Vec2,
    ignore: Option<Entity>,
    solid_only: bool,
) -> Option<(int, (int, int))>
    decreases n,
{
    if n == 0 || n > s.len() {
        None
    } else {
        let prev = nearest_hit(s, (n - 1) as nat, o, d, ignore, solid_only);
        let r = s[n - 1];
        let here = if ray_candidate(r, ignore, solid_only) {
            ray_hit(o, d, r.transform.unwrap().translation, r.collider.unwrap())
        } else {
            None
        };
        match (prev, here) {
            (Some(p), Some(t)) => if !frac_le(p.1, t) { Some(((n - 1) as int, t)) } else { prev },
            (None, Some(t)) => Some(((n - 1) as int, t)),
            _ => prev,
        }
    }
}

/// `r` can stop a ray: it has a shape, is not the ignored entity, and is
/// fixed geometry where only that counts.
pub open spec fn ray_candidate(r: EntityRecord, ignore: Option<Entity>, solid_only: bool) -> bool {
    &&& r.transform is Some && r.collider is Some
    &&& ignore != Some(r.entity)
    &&& (solid_only ==> r.fixed is Some)
}

/// The point a ray from `o` along `d` reaches at time `t`, rounded toward
/// zero.
pub open spec fn ray_point(o: Vec2, d: Vec2, t: (int, int)) -> Vec2 {
    Vec2 {
        x: clamp_i32(o.x + trunc_div(t.0 * d.x, t.1)) as i32,
        y: clamp_i32(o.y + trunc_div(t.0 * d.y, t.1)) as i32,
    }
}

/// What a cast returns for the records `s`: nothing for a zero direction.
pub open spec fn raycast_result(s: Seq<EntityRecord>, o: Vec2, d: Vec2, ignore: Option<Entity>, solid_only: bool) -> Option<(Entity, Vec2)> {
    if d.x == 0 && d.y == 0 {
        None
    } else {
        let dd = reduce_dir(d);
        match nearest_hit(s, s.len(), o, dd, ignore, solid_only) {
            Some((j, t)) => Some((s[j].entity, ray_point(o, dd, t))),
            None => None,
        }
    }
}

proof fn lemma_reduce_nonzero(d: Vec2)
    requires
        d.x != 0 || d.y != 0,
    ensures
        reduce_dir(d).x != 0 || reduce_dir(d).y != 0,
    decreases abs(d.x as int) + abs(d.y as int),
{
    if !small_dir(d) {
        lemma_reduce_nonzero(Vec2 { x: trunc_div(d.x as int, 2) as i32, y: trunc_div(d.y as int, 2) as i32 });
    }
}

fn cast(world: &World, origin: Vec2, dir: Vec2, ignore: Option<Entity>, solid_only: bool) -> (r: Option<(Entity, Vec2)>)
    ensures
        r == raycast_result(world.entities@, origin, dir, ignore, solid_only),
{
    if dir.x == 0 && dir.y == 0 {
        return None;
    }
    let d = reduce_dir_exec(dir);
    proof {
        lemma_reduce_nonzero(dir);
    }
    let ghost s = world.entities@;
    let n = world.entities.len();
    let mut best: Option<(usize, (i128, i128))> = None;
    let mut j: usize = 0;
    while j < n
        invariant
            s == world.entities@,
            n == s.len(),
            j <= n,
            small_dir(d),
            d.x != 0 || d.y != 0,
            match best {
                Some((k, t)) => k < j && nearest_hit(s, j as nat, origin, d, ignore, solid_only) == Some((k as int, (t.0 as int, t.1 as int)))
                    && -0x1_0000_0000_0000_0000 < t.0 < 0x1_0000_0000_0000_0000 && 0 < t.1 < 0x1_0000_0000,
                None => nearest_hit(s, j as nat, origin, d, ignore, solid_only).is_none(),
            },
        decreases n - j,
    {
        let r = world.entities[j];
        let candidate = r.transform.is_some() && r.collider.is_some() && ignore != Some(r.entity)
            && (!solid_only || r.fixed.is_some());
        if candidate {
            match ray_hit_exec(origin, d, r.transform.unwrap().translation, r.collider.unwrap()) {
                Some(t) => {
                    match best {
                        Some((_, bt)) => {
                            if !frac_le_exec(bt, t) {
                                best = Some((j, t));
                            }
                        },
                        None => {
                            best = Some((j, t));
                        },
                    }
                },
                None => {},
            }
        }
        j = j + 1;
    }
    match best {
        Some((k, t)) => {
            proof {
                assert(-0x1_0000_0000_0000_0000_0000_0000 < t.0 * (d.x as int) < 0x1_0000_0000_0000_0000_0000_0000) by (nonlinear_arith)
                    requires
                        -0x1_0000_0000_0000_0000 < t.0 < 0x1_0000_0000_0000_0000,
                        -0x4000 < d.x < 0x4000,
                ;
                assert(-0x1_0000_0000_0000_0000_0000_0000 < t.0 * (d.y as int) < 0x1_0000_0000_0000_0000_0000_0000) by (nonlinear_arith)
                    requires
                        -0x1_0000_0000_0000_0000 < t.0 < 0x1_0000_0000_0000_0000,
                        -0x4000 < d.y < 0x4000,
                ;
            }
            let px = div_toward_zero(t.0 * d.x as i128, t.1);
            let py = div_toward_zero(t.0 * d.y as i128, t.1);
            proof {
                let ax = abs(t.0 * (d.x as int));
                let ay = abs(t.0 * (d.y as int));
                assert(ax <= ax * (t.1 as int)) by (nonlinear_arith)
                    requires
                        t.1 >= 1,
                        ax >= 0,
                ;
                assert(ay <= ay * (t.1 as int)) by (nonlinear_arith)
                    requires
                        t.1 >= 1,
                        ay >= 0,
                ;
                lemma_trunc_div_bound(t.0 * (d.x as int), t.1 as int, ax);
                lemma_trunc_div_bound(t.0 * (d.y as int), t.1 as int, ay);
            }
            let p = Vec2 { x: saturate_i32(origin.x as i128 + px), y: saturate_i32(origin.y as i128 + py) };
            Some((world.entities[k].entity, p))
        },
        None => None,
    }
}

/// Nearest entity hit by a ray from `origin` along `dir`, skipping
/// `ignore`, and the point hit. A zero `dir` hits nothing. The ray travels
/// along `reduce_dir(dir)`, which keeps the direction of any vector whose
/// components are below 2^14.
pub fn raycast(world: &World, origin: Vec2, dir: Vec2, ignore: Option<Entity>) -> (r: Option<(Entity, Vec2)>)
    ensures
        r == raycast_result(world.entities@, origin, dir, ignore, false),
{
    cast(world, origin, dir, ignore, false)
}

/// `raycast` restricted to fixed geometry.
pub fn raycast_solid(world: &World, origin: Vec2, dir: Vec2, ignore: Option<Entity>) -> (r: Option<(Entity, Vec2)>)
    ensures
        r == raycast_result(world.entities@, origin, dir, ignore, true),
{
    cast(world, origin, dir, ignore, true)
}

} // verus!
