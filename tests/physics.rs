use arena_core::math::Vec2;
use arena_core::physics::{
    compute_collisions, compute_gravity, compute_kinematics, intersects, raycast, raycast_solid,
    resolve_collisions, Collider, FixedBody, Gravity, Grounded, KinematicBody, TimeScale, Transform,
};
use arena_core::time::Time;
use arena_core::world::{Entity, EntityRecord, World};

fn at(x: i32, y: i32) -> Option<Transform> {
    Some(Transform { translation: Vec2::new(x, y), rotation: 0 })
}

fn ticked(dt: u32) -> Time {
    let mut t = Time::new();
    t.poll(1000);
    t.poll(1000 + dt);
    t
}

fn add(world: &mut World, rec: EntityRecord) -> Entity {
    world.spawn(rec).expect("identifiers left")
}

fn platform(world: &mut World, x: i32, y: i32, w: u32) -> Entity {
    add(world, EntityRecord {
        transform: at(x, y),
        collider: Some(Collider::rect(w, 20)),
        fixed: Some(FixedBody),
        ..EntityRecord::empty(Entity { id: 0 })
    })
}

#[test]
fn rectangles_thirty_by_fifty_collide_both_ways() {
    let mut world = World::new();
    let a = add(&mut world, EntityRecord {
        transform: at(0, 0),
        collider: Some(Collider::rect(30, 50)),
        senses_collisions: true,
        ..EntityRecord::empty(Entity { id: 0 })
    });
    let b = add(&mut world, EntityRecord {
        transform: at(10, 0),
        collider: Some(Collider::rect(30, 50)),
        senses_collisions: true,
        ..EntityRecord::empty(Entity { id: 0 })
    });
    let sets = compute_collisions(&world);
    assert_eq!(sets.len(), 2);
    assert_eq!(sets[0].owner, a);
    assert_eq!(sets[0].hit_entities(), vec![b]);
    assert_eq!(sets[1].owner, b);
    assert_eq!(sets[1].hit_entities(), vec![a]);
}

#[test]
fn collision_sets_exclude_self_and_distant_shapes() {
    let mut world = World::new();
    let a = add(&mut world, EntityRecord {
        transform: at(0, 0),
        collider: Some(Collider::circle(10)),
        senses_collisions: true,
        ..EntityRecord::empty(Entity { id: 0 })
    });
    let near = add(&mut world, EntityRecord {
        transform: at(0, 14),
        collider: Some(Collider::rect(10, 10)),
        ..EntityRecord::empty(Entity { id: 0 })
    });
    let _far = add(&mut world, EntityRecord {
        transform: at(100, 0),
        collider: Some(Collider::circle(10)),
        ..EntityRecord::empty(Entity { id: 0 })
    });
    let _no_shape = add(&mut world, EntityRecord { transform: at(0, 0), ..EntityRecord::empty(Entity { id: 0 }) });
    let sets = compute_collisions(&world);
    assert_eq!(sets[0].owner, a);
    assert_eq!(sets[0].hit_entities(), vec![near]);
    // records that keep no set get an empty one
    assert!(sets[1].hit_entities().is_empty());
}

#[test]
fn shapes_touching_count_as_intersecting() {
    let o = Vec2::new(0, 0);
    assert!(intersects(o, Collider::rect(30, 50), Vec2::new(30, 0), Collider::rect(30, 50)));
    assert!(!intersects(o, Collider::rect(30, 50), Vec2::new(31, 0), Collider::rect(30, 50)));
    assert!(intersects(o, Collider::circle(3), Vec2::new(5, 0), Collider::circle(2)));
    assert!(!intersects(o, Collider::circle(3), Vec2::new(4, 4), Collider::circle(2)));
    // corner of the rectangle is 5*sqrt(2) ~ 7.07 away
    assert!(!intersects(Vec2::new(10, 10), Collider::circle(7), o, Collider::rect(10, 10)));
    assert!(intersects(Vec2::new(10, 10), Collider::circle(8), o, Collider::rect(10, 10)));
}

#[test]
fn velocity_moves_translation_exactly() {
    let mut world = World::new();
    add(&mut world, EntityRecord {
        transform: at(0, 0),
        body: Some(KinematicBody { velocity: Vec2::new(0, -100) }),
        gravity: Some(Gravity { acceleration: Vec2::new(0, 0) }),
        ..EntityRecord::empty(Entity { id: 0 })
    });
    let time = ticked(100);
    compute_gravity(&mut world, &time);
    compute_kinematics(&mut world, &time);
    let t = world.entities[0].transform.unwrap();
    assert_eq!(t.translation, Vec2::new(0, -10));
}

#[test]
fn gravity_and_time_scale_scale_integration() {
    let mut world = World::new();
    add(&mut world, EntityRecord {
        transform: at(0, 0),
        body: Some(KinematicBody { velocity: Vec2::new(0, 0) }),
        gravity: Some(Gravity { acceleration: Vec2::new(0, -2500) }),
        time_scale: Some(TimeScale(500)),
        ..EntityRecord::empty(Entity { id: 0 })
    });
    let time = ticked(100);
    compute_gravity(&mut world, &time);
    // -2500 * 0.1 s * 0.5
    assert_eq!(world.entities[0].body.unwrap().velocity, Vec2::new(0, -125));
    compute_kinematics(&mut world, &time);
    // -125 * 0.1 s * 0.5, rounded toward zero
    assert_eq!(world.entities[0].transform.unwrap().translation, Vec2::new(0, -6));
}

#[test]
fn resting_body_is_pushed_out_and_grounded() {
    let mut world = World::new();
    platform(&mut world, 0, 0, 200);
    add(&mut world, EntityRecord {
        transform: at(0, 30),
        body: Some(KinematicBody { velocity: Vec2::new(40, -300) }),
        collider: Some(Collider::rect(30, 50)),
        gravity: Some(Gravity { acceleration: Vec2::new(0, -2500) }),
        grounded: Some(Grounded::No { time: 70 }),
        ..EntityRecord::empty(Entity { id: 0 })
    });
    resolve_collisions(&mut world, &ticked(16));
    let r = world.entities[1];
    // overlap of 5 along y: pushed up by it, vertical velocity removed
    assert_eq!(r.transform.unwrap().translation, Vec2::new(0, 35));
    assert_eq!(r.body.unwrap().velocity, Vec2::new(40, 0));
    assert_eq!(r.grounded, Some(Grounded::Yes { time: 0 }));
    // still touching: stays grounded and the clock runs
    resolve_collisions(&mut world, &ticked(16));
    assert_eq!(world.entities[1].grounded, Some(Grounded::Yes { time: 16 }));
}

#[test]
fn leaving_the_ground_resets_the_clock() {
    let mut world = World::new();
    platform(&mut world, 0, 0, 200);
    add(&mut world, EntityRecord {
        transform: at(0, 100),
        body: Some(KinematicBody { velocity: Vec2::new(0, 0) }),
        collider: Some(Collider::rect(30, 50)),
        gravity: Some(Gravity { acceleration: Vec2::new(0, -2500) }),
        grounded: Some(Grounded::Yes { time: 500 }),
        ..EntityRecord::empty(Entity { id: 0 })
    });
    resolve_collisions(&mut world, &ticked(16));
    assert_eq!(world.entities[1].grounded, Some(Grounded::No { time: 0 }));
    resolve_collisions(&mut world, &ticked(16));
    assert_eq!(world.entities[1].grounded, Some(Grounded::No { time: 16 }));
}

#[test]
fn wall_contact_is_not_ground() {
    let mut world = World::new();
    add(&mut world, EntityRecord {
        transform: at(0, 0),
        collider: Some(Collider::rect(20, 400)),
        fixed: Some(FixedBody),
        ..EntityRecord::empty(Entity { id: 0 })
    });
    add(&mut world, EntityRecord {
        transform: at(20, 0),
        body: Some(KinematicBody { velocity: Vec2::new(-100, 7) }),
        collider: Some(Collider::rect(30, 50)),
        gravity: Some(Gravity { acceleration: Vec2::new(0, -2500) }),
        grounded: Some(Grounded::No { time: 0 }),
        ..EntityRecord::empty(Entity { id: 0 })
    });
    resolve_collisions(&mut world, &ticked(10));
    let r = world.entities[1];
    assert_eq!(r.transform.unwrap().translation, Vec2::new(25, 0));
    assert_eq!(r.body.unwrap().velocity, Vec2::new(0, 7));
    assert_eq!(r.grounded, Some(Grounded::No { time: 10 }));
}

#[test]
fn raycast_finds_nearest_below() {
    let mut world = World::new();
    let low = platform(&mut world, 0, 0, 200);
    let high = platform(&mut world, 0, 100, 200);
    let me = add(&mut world, EntityRecord {
        transform: at(0, 300),
        collider: Some(Collider::rect(30, 50)),
        ..EntityRecord::empty(Entity { id: 0 })
    });
    let down = Vec2::new(0, -1);
    assert_eq!(raycast(&world, Vec2::new(0, 300), down, Some(me)), Some((high, Vec2::new(0, 110))));
    // from inside itself the caster would be hit at once
    assert_eq!(raycast(&world, Vec2::new(0, 300), down, None), Some((me, Vec2::new(0, 300))));
    assert_eq!(raycast_solid(&world, Vec2::new(0, 50), down, None), Some((low, Vec2::new(0, 10))));
    assert_eq!(raycast(&world, Vec2::new(500, 300), down, None), None);
}

#[test]
fn zero_direction_hits_nothing() {
    let mut world = World::new();
    platform(&mut world, 0, 0, 200);
    assert_eq!(raycast(&world, Vec2::new(0, 50), Vec2::new(0, 0), None), None);
}

#[test]
fn diagonal_rays_hit_what_they_cross() {
    let mut world = World::new();
    let b = add(&mut world, EntityRecord {
        transform: at(20, 20),
        collider: Some(Collider::rect(10, 10)),
        ..EntityRecord::empty(Entity { id: 0 })
    });
    assert_eq!(raycast(&world, Vec2::new(0, 0), Vec2::new(1, 1), None), Some((b, Vec2::new(15, 15))));
    assert_eq!(raycast(&world, Vec2::new(0, 0), Vec2::new(1000, 1000), None), Some((b, Vec2::new(15, 15))));
    assert_eq!(raycast(&world, Vec2::new(0, 0), Vec2::new(-1, -1), None), None);
    assert_eq!(raycast_solid(&world, Vec2::new(0, 0), Vec2::new(1, 1), None), None);
    // a circle met at an angle
    let c = add(&mut world, EntityRecord {
        transform: at(0, 100),
        collider: Some(Collider::circle(5)),
        fixed: Some(FixedBody),
        ..EntityRecord::empty(Entity { id: 0 })
    });
    assert_eq!(raycast_solid(&world, Vec2::new(0, 0), Vec2::new(0, 3), None), Some((c, Vec2::new(0, 95))));
}

#[test]
fn raycast_meets_circle_surface() {
    let mut world = World::new();
    let ball = add(&mut world, EntityRecord {
        transform: at(0, 0),
        collider: Some(Collider::circle(10)),
        ..EntityRecord::empty(Entity { id: 0 })
    });
    // chord half-height at x = 6 is 8
    assert_eq!(raycast(&world, Vec2::new(6, 50), Vec2::new(0, -1), None), Some((ball, Vec2::new(6, 8))));
    assert_eq!(raycast(&world, Vec2::new(-50, 0), Vec2::new(1, 0), None), Some((ball, Vec2::new(-10, 0))));
}

#[test]
fn hit_lists_grow_past_their_inline_capacity() {
    let mut world = World::new();
    let mut others = Vec::new();
    let me = add(&mut world, EntityRecord {
        transform: at(0, 0),
        collider: Some(Collider::circle(100)),
        senses_collisions: true,
        ..EntityRecord::empty(Entity { id: 0 })
    });
    for i in 0..12 {
        others.push(add(&mut world, EntityRecord {
            transform: at(i, 0),
            collider: Some(Collider::circle(1)),
            ..EntityRecord::empty(Entity { id: 0 })
        }));
    }
    let sets = compute_collisions(&world);
    assert_eq!(sets[0].owner, me);
    assert_eq!(sets[0].hit_entities().len(), 12);
    assert_eq!(sets[0].hit_entities(), others);
}

#[test]
fn defaults_are_earth_gravity_and_airborne() {
    assert_eq!(Gravity::default().acceleration, Vec2::new(0, -981));
    assert_eq!(Grounded::default(), Grounded::No { time: 0 });
}

#[test]
fn circles_resolve_against_corners_by_true_distance() {
    let mut world = World::new();
    let circle = |world: &mut World| {
        add(world, EntityRecord {
            transform: at(0, 0),
            body: Some(KinematicBody { velocity: Vec2::new(0, -100) }),
            collider: Some(Collider::circle(10)),
            ..EntityRecord::empty(Entity { id: 0 })
        })
    };
    // a corner 11.3 away: no contact
    add(&mut world, EntityRecord {
        transform: at(13, 13),
        collider: Some(Collider::rect(10, 10)),
        fixed: Some(FixedBody),
        ..EntityRecord::empty(Entity { id: 0 })
    });
    circle(&mut world);
    resolve_collisions(&mut world, &ticked(16));
    assert_eq!(world.entities[1].transform.unwrap().translation, Vec2::new(0, 0));
    assert_eq!(world.entities[1].body.unwrap().velocity, Vec2::new(0, -100));
    // a corner about 7.07 away: pushed out along the diagonal
    let mut world = World::new();
    add(&mut world, EntityRecord {
        transform: at(10, 10),
        collider: Some(Collider::rect(10, 10)),
        fixed: Some(FixedBody),
        ..EntityRecord::empty(Entity { id: 0 })
    });
    circle(&mut world);
    resolve_collisions(&mut world, &ticked(16));
    assert_eq!(world.entities[1].transform.unwrap().translation, Vec2::new(-2, -2));
    assert_eq!(world.entities[1].body.unwrap().velocity, Vec2::new(50, -50));
}
