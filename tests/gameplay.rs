use arena_core::ability::{
    apply_toggle, chosen, gun_step, instantiate, toggle_abilities, Ability, AbilityKind, Cooldown, Effect, GunKind,
    Lightning,
};
use arena_core::bullet::{despawn_time_to_live, TimeToLive};
use arena_core::effects::{heal_controller, push_controller, trigger_step};
use arena_core::health::{impact_and_damage, kill_players, respawn_players, tick_respawn_timers, Damage, Health};
use arena_core::input::Input;
use arena_core::level::void_damage;
use arena_core::lightning::{lightning_controller, lightning_transition, LightningEvent};
use arena_core::math::Vec2;
use arena_core::net::{Connection, Cosmetic, Outbound, Packet};
use arena_core::physics::{
    compute_collisions, compute_gravity, compute_kinematics, resolve_collisions, Collider, FixedBody, Gravity, Grounded,
    KinematicBody, Transform,
};
use arena_core::player::platformer_controller;
use arena_core::time::Time;
use arena_core::view::health_percentage;
use arena_core::weapons::{gun_controller, gun_of, pellet_velocity_exec};
use arena_core::world::{Entity, EntityRecord, World};

fn at(x: i32, y: i32) -> Option<Transform> {
    Some(Transform { translation: Vec2::new(x, y), rotation: 0 })
}

fn ticked(dt: u32) -> Time {
    let mut t = Time::new();
    t.poll(1000);
    t.poll(1000 + dt);
    t
}

fn add(world: &mut World, rec: EntityRecord) -> Entity {
    world.spawn(rec).expect("identifiers left")
}

fn blank() -> EntityRecord {
    EntityRecord::empty(Entity { id: 0 })
}

fn input(dx: i8, dy: i8, ax: i8, ay: i8, btn: u8) -> Input {
    Input { dx, dy, ax, ay, btn }
}

fn jumper(g: Grounded, vy: i32, dy: i8) -> EntityRecord {
    EntityRecord {
        body: Some(KinematicBody { velocity: Vec2::new(0, vy) }),
        grounded: Some(g),
        input: Some(input(0, dy, 0, 0, 0)),
        ..blank()
    }
}

fn vy_after(g: Grounded, vy: i32, dy: i8) -> i32 {
    let mut world = World::new();
    add(&mut world, jumper(g, vy, dy));
    platformer_controller(&mut world, &Time::new());
    world.entities[0].body.unwrap().velocity.y
}

#[test]
fn jump_succeeds_only_when_allowed() {
    assert_eq!(vy_after(Grounded::Yes { time: 999 }, 300, 127), 1800);
    assert_eq!(vy_after(Grounded::No { time: 100 }, 0, 127), 1500);
    assert_eq!(vy_after(Grounded::No { time: 100 }, -40, 127), 1460);
    assert_eq!(vy_after(Grounded::No { time: 101 }, 0, 127), 0);
    assert_eq!(vy_after(Grounded::No { time: 50 }, 10, 127), 10);
    // without upward input a fall is clamped to the terminal speed
    assert_eq!(vy_after(Grounded::No { time: 0 }, -1000, 0), -500);
    assert_eq!(vy_after(Grounded::No { time: 0 }, -1000, -127), -500);
    assert_eq!(vy_after(Grounded::No { time: 0 }, -400, 0), -400);
    assert_eq!(vy_after(Grounded::No { time: 0 }, 900, 0), 900);
}

#[test]
fn running_and_damping() {
    let mut world = World::new();
    add(&mut world, EntityRecord {
        body: Some(KinematicBody { velocity: Vec2::new(0, 0) }),
        grounded: Some(Grounded::Yes { time: 0 }),
        input: Some(input(127, 0, 0, 0, 0)),
        ..blank()
    });
    platformer_controller(&mut world, &ticked(100));
    // 1700 * 0.1 = 170, divided by 1 + 5 * 0.1
    assert_eq!(world.entities[0].body.unwrap().velocity, Vec2::new(113, 0));
}

#[test]
fn held_jump_gives_one_impulse_over_two_ticks() {
    let mut world = World::new();
    add(&mut world, EntityRecord {
        transform: at(0, 0),
        collider: Some(Collider::rect(200, 20)),
        fixed: Some(FixedBody),
        ..blank()
    });
    add(&mut world, EntityRecord {
        transform: at(0, 35),
        body: Some(KinematicBody { velocity: Vec2::new(0, 0) }),
        collider: Some(Collider::rect(30, 50)),
        gravity: Some(Gravity { acceleration: Vec2::new(0, -2500) }),
        grounded: Some(Grounded::Yes { time: 0 }),
        input: Some(input(0, 127, 0, 0, 0)),
        ..blank()
    });
    let time = ticked(16);
    platformer_controller(&mut world, &time);
    // 1500 / (1 + 5 * 0.016)
    assert_eq!(world.entities[1].body.unwrap().velocity.y, 1388);
    compute_gravity(&mut world, &time);
    compute_kinematics(&mut world, &time);
    resolve_collisions(&mut world, &time);
    assert_eq!(world.entities[1].body.unwrap().velocity.y, 1348);
    assert_eq!(world.entities[1].grounded, Some(Grounded::No { time: 0 }));
    platformer_controller(&mut world, &time);
    // no second impulse: only damping
    assert_eq!(world.entities[1].body.unwrap().velocity.y, 1248);
}

fn owner_with_deck(world: &mut World, btn: u8) -> (Entity, Vec<Entity>) {
    let owner = add(world, EntityRecord {
        transform: at(0, 100),
        body: Some(KinematicBody { velocity: Vec2::new(0, 0) }),
        input: Some(input(0, 0, 127, 0, btn)),
        connection: Some(Connection(7)),
        health: Some(Health { now: 50, max: 100 }),
        ..blank()
    });
    let kinds = [AbilityKind::Shotgun, AbilityKind::Heal, AbilityKind::Push, AbilityKind::Lightning];
    let mut abilities = Vec::new();
    for (b, k) in kinds.iter().enumerate() {
        abilities.push(add(world, instantiate(Entity { id: 0 }, owner, b, *k)));
    }
    (owner, abilities)
}

fn active_slots(world: &World, owner: Entity) -> Vec<usize> {
    world
        .entities
        .iter()
        .filter_map(|r| r.ability)
        .filter(|a| a.owner == owner && a.active)
        .map(|a| a.binding)
        .collect()
}

#[test]
fn lowest_held_binding_is_the_only_active_one() {
    let mut world = World::new();
    let (owner, _) = owner_with_deck(&mut world, 0b0110);
    let out = toggle_abilities(&mut world);
    assert_eq!(active_slots(&world, owner), vec![1]);
    assert_eq!(out, vec![Outbound::Broadcast(Packet::PlayerToggleAbility(owner, Some(1)))]);
    // nothing changes, nothing is sent
    assert!(toggle_abilities(&mut world).is_empty());
    assert_eq!(chosen(&input(0, 0, 0, 0, 0b1000)), Some(3));
    assert_eq!(chosen(&input(0, 0, 0, 0, 0b10000)), None);
}

#[test]
fn client_mirrors_a_toggle() {
    let mut world = World::new();
    let (owner, _) = owner_with_deck(&mut world, 0);
    apply_toggle(&mut world, owner, Some(2));
    assert_eq!(active_slots(&world, owner), vec![2]);
    apply_toggle(&mut world, owner, None);
    assert!(active_slots(&world, owner).is_empty());
}

#[test]
fn gun_fires_once_then_waits_for_its_cooldown() {
    let gun = gun_of(GunKind::Shotgun);
    assert_eq!(gun.cooldown, Cooldown(1500));
    assert_eq!(gun_step(Cooldown(0), gun, true, true, 16), (Cooldown(1500), true));
    assert_eq!(gun_step(Cooldown(1500), gun, true, true, 500), (Cooldown(1000), false));
    assert_eq!(gun_step(Cooldown(10), gun, true, true, 16), (Cooldown(1500), true));
    assert_eq!(gun_step(Cooldown(0), gun, false, true, 16), (Cooldown(0), false));
    assert_eq!(gun_step(Cooldown(0), gun, true, false, 16), (Cooldown(0), false));
}

#[test]
fn shotgun_shot_spawns_ten_pellets_once() {
    let mut world = World::new();
    let (owner, abilities) = owner_with_deck(&mut world, 0b10001);
    toggle_abilities(&mut world);
    let before = world.entities.len();
    let out = gun_controller(&mut world, &ticked(16));
    assert_eq!(world.entities.len(), before + 10);
    let gun = world.entities.iter().find(|r| r.entity == abilities[0]).unwrap();
    assert_eq!(gun.cooldown, Some(Cooldown(1500)));
    assert!(out.contains(&Outbound::To(Connection(7), Packet::CooldownStart { binding: 0, duration: 1500 })));
    let pellets: Vec<&EntityRecord> = world.entities[before..].iter().collect();
    let mut ys = Vec::new();
    for p in &pellets {
        assert_eq!(p.damage, Some(Damage { amount: 5, exclude: Some(owner), destroy: true }));
        assert_eq!(p.ttl, Some(TimeToLive::Millis(300)));
        assert_eq!(p.transform.unwrap().translation, Vec2::new(0, 100));
        let v = p.body.unwrap().velocity;
        assert_eq!(v.x, 1500);
        assert!(v.y >= -75 && v.y <= 75);
        ys.push(v.y);
    }
    // the spread is drawn anew for each pellet
    assert!(ys.iter().any(|y| *y != ys[0]));
    // recoil against the aim
    let me = world.entities.iter().find(|r| r.entity == owner).unwrap();
    assert_eq!(me.body.unwrap().velocity, Vec2::new(-250, 0));
    // half a second later: no shot
    let count = world.entities.len();
    gun_controller(&mut world, &ticked(500));
    assert_eq!(world.entities.len(), count);
    let gun = world.entities.iter().find(|r| r.entity == abilities[0]).unwrap();
    assert_eq!(gun.cooldown, Some(Cooldown(1000)));
}

#[test]
fn pellet_velocity_turns_with_spread() {
    let aim = input(0, 0, 127, 0, 0);
    assert_eq!(pellet_velocity_exec(&aim, 1500, 0), Vec2::new(1500, 0));
    assert_eq!(pellet_velocity_exec(&aim, 1500, 50), Vec2::new(1500, 75));
    assert_eq!(pellet_velocity_exec(&aim, 1500, -50), Vec2::new(1500, -75));
}

fn bullet(world: &mut World, x: i32, shooter: Entity) -> Entity {
    add(world, EntityRecord {
        transform: at(x, 0),
        collider: Some(Collider::circle(3)),
        senses_collisions: true,
        damage: Some(Damage { amount: 5, exclude: Some(shooter), destroy: true }),
        ..blank()
    })
}

fn target(world: &mut World, x: i32, hp: u32) -> Entity {
    add(world, EntityRecord {
        transform: at(x, 0),
        collider: Some(Collider::rect(30, 50)),
        health: Some(Health { now: hp, max: 100 }),
        ..blank()
    })
}

fn health_of(world: &World, e: Entity) -> u32 {
    world.entities.iter().find(|r| r.entity == e).unwrap().health.unwrap().now
}

#[test]
fn bullet_hitting_two_targets_is_removed_once() {
    let mut world = World::new();
    let a = target(&mut world, -10, 100);
    let b = target(&mut world, 10, 3);
    let shot = bullet(&mut world, 0, Entity { id: 999 });
    let sets = compute_collisions(&world);
    let out = impact_and_damage(&mut world, &sets);
    assert_eq!(world.entities.len(), 2);
    assert!(world.find(shot).is_none());
    assert_eq!(health_of(&world, a), 95);
    assert_eq!(health_of(&world, b), 0);
    assert_eq!(out, vec![
        Outbound::Broadcast(Packet::EntityHealth(a, 95)),
        Outbound::Broadcast(Packet::EntityHealth(b, 0)),
    ]);
}

#[test]
fn excluded_shooter_inactive_shield_and_bullets_take_no_damage() {
    let mut world = World::new();
    let shooter = target(&mut world, 0, 100);
    let shield = add(&mut world, EntityRecord {
        transform: at(0, 0),
        collider: Some(Collider::rect(25, 40)),
        ability: Some(Ability { owner: shooter, binding: 0, active: false }),
        health: Some(Health { now: 10, max: 10 }),
        ..blank()
    });
    let other = bullet(&mut world, 1, Entity { id: 999 });
    let shot = bullet(&mut world, 0, shooter);
    let sets = compute_collisions(&world);
    impact_and_damage(&mut world, &sets);
    assert_eq!(health_of(&world, shield), 10);
    // the other bullet harms the shooter and is removed; the shot harms nothing and stays
    assert_eq!(health_of(&world, shooter), 95);
    assert!(world.find(other).is_none());
    assert!(world.find(shot).is_some());
}

#[test]
fn death_makes_exactly_one_respawn_timer() {
    let mut world = World::new();
    let p = add(&mut world, EntityRecord {
        transform: at(300, 200),
        health: Some(Health { now: 0, max: 100 }),
        ..blank()
    });
    let out = kill_players(&mut world);
    assert_eq!(out, vec![Outbound::Broadcast(Packet::EntityHealth(p, 100))]);
    assert_eq!(world.entities.len(), 2);
    assert_eq!(world.entities[0].health, Some(Health { now: 100, max: 100 }));
    assert_eq!(world.entities[0].transform.unwrap().translation, Vec2::new(-2000, 5000));
    let timer = world.entities[1].respawn.unwrap();
    assert_eq!((timer.player, timer.left), (p, 2000));
    // alive again: no second timer
    assert!(kill_players(&mut world).is_empty());
    assert_eq!(world.entities.len(), 2);
    let out = tick_respawn_timers(&mut world, 1999);
    assert!(out.is_empty());
    assert_eq!(world.entities[1].respawn.unwrap().left, 1);
    let out = tick_respawn_timers(&mut world, 16);
    assert_eq!(out, vec![Outbound::Broadcast(Packet::PlayerRespawn(p, Vec2::new(100, 500)))]);
    assert_eq!(world.entities.len(), 1);
    assert_eq!(world.entities[0].transform.unwrap().translation, Vec2::new(100, 500));
}

#[test]
fn falling_into_the_void_kills_and_respawns() {
    let mut world = World::new();
    add(&mut world, EntityRecord { transform: at(0, -1001), health: Some(Health { now: 80, max: 100 }), ..blank() });
    add(&mut world, EntityRecord { transform: at(0, -1000), health: Some(Health { now: 80, max: 100 }), ..blank() });
    void_damage(&mut world);
    assert_eq!(world.entities[0].health.unwrap().now, 0);
    assert_eq!(world.entities[1].health.unwrap().now, 80);
    respawn_players(&mut world, &ticked(16));
    assert_eq!(world.entities.len(), 3);
    assert_eq!(world.entities[2].respawn.unwrap().left, 2000 - 16);
}

#[test]
fn lightning_state_machine() {
    let h = Entity { id: 9 };
    let p = Vec2::new(4, 10);
    let charging = Lightning::Charging { time_left: 3000, hazard: h, impact: p };
    assert_eq!(
        lightning_transition(Lightning::Idle, 0, true, 16, Some((h, p))),
        (charging, 5000, LightningEvent::Charge { hazard: h })
    );
    assert_eq!(lightning_transition(Lightning::Idle, 0, false, 16, Some((h, p))), (Lightning::Idle, 0, LightningEvent::Nothing));
    assert_eq!(lightning_transition(Lightning::Idle, 5, true, 16, Some((h, p))), (Lightning::Idle, 5, LightningEvent::Nothing));
    assert_eq!(
        lightning_transition(charging, 0, true, 16, None),
        (Lightning::Charging { time_left: 2984, hazard: h, impact: p }, 0, LightningEvent::Nothing)
    );
    let landed = Lightning::Active { time_left: 500, hazard: h, impact: p };
    assert_eq!(
        lightning_transition(Lightning::Charging { time_left: 0, hazard: h, impact: p }, 0, true, 16, None),
        (landed, 0, LightningEvent::Land { hazard: h, impact: p })
    );
    assert_eq!(
        lightning_transition(Lightning::Active { time_left: 0, hazard: h, impact: p }, 0, true, 16, None),
        (Lightning::Idle, 0, LightningEvent::Clear { hazard: h })
    );
}

#[test]
fn lightning_strikes_the_ground_below_its_owner() {
    let mut world = World::new();
    add(&mut world, EntityRecord {
        transform: at(0, 0),
        collider: Some(Collider::rect(400, 20)),
        fixed: Some(FixedBody),
        ..blank()
    });
    let (_owner, abilities) = owner_with_deck(&mut world, 0b1000);
    toggle_abilities(&mut world);
    let state = |w: &World| -> Lightning {
        match w.entities.iter().find(|r| r.entity == abilities[3]).unwrap().effect {
            Some(Effect::Lightning(s)) => s,
            _ => panic!("not a lightning ability"),
        }
    };
    assert!(lightning_controller(&mut world, &ticked(16)).is_empty());
    let hazard = match state(&world) {
        Lightning::Charging { time_left, hazard, impact } => {
            assert_eq!(time_left, 3000);
            assert_eq!(impact, Vec2::new(0, 10));
            hazard
        },
        s => panic!("unexpected {:?}", s),
    };
    assert!(world.find(hazard).is_none());
    lightning_controller(&mut world, &ticked(3000));
    let out = lightning_controller(&mut world, &ticked(16));
    assert_eq!(out, vec![Outbound::Broadcast(Packet::EffectSpawn(Cosmetic::Lightning { position: Vec2::new(0, 10) }))]);
    let k = world.find(hazard).unwrap();
    assert_eq!(world.entities[k].transform.unwrap().translation, Vec2::new(0, 2510));
    assert_eq!(world.entities[k].collider, Some(Collider::rect(100, 5000)));
    lightning_controller(&mut world, &ticked(500));
    lightning_controller(&mut world, &ticked(16));
    assert_eq!(state(&world), Lightning::Idle);
    assert!(world.find(hazard).is_none());
}

#[test]
fn heal_restores_up_to_max() {
    let mut world = World::new();
    let (owner, abilities) = owner_with_deck(&mut world, 0b0010);
    toggle_abilities(&mut world);
    let out = heal_controller(&mut world, &ticked(16));
    assert_eq!(health_of(&world, owner), 70);
    assert!(out.contains(&Outbound::Broadcast(Packet::EntityHealth(owner, 70))));
    assert!(out.contains(&Outbound::To(Connection(7), Packet::CooldownStart { binding: 1, duration: 5000 })));
    let heal = world.entities.iter().find(|r| r.entity == abilities[1]).unwrap();
    assert_eq!(heal.cooldown, Some(Cooldown(5000)));
    heal_controller(&mut world, &ticked(16));
    assert_eq!(health_of(&world, owner), 70);
    heal_controller(&mut world, &ticked(5000));
    heal_controller(&mut world, &ticked(16));
    assert_eq!(health_of(&world, owner), 90);
    heal_controller(&mut world, &ticked(5000));
    assert_eq!(health_of(&world, owner), 100);
}

#[test]
fn push_sends_bodies_away_from_the_owner() {
    let mut world = World::new();
    let (owner, _) = owner_with_deck(&mut world, 0b0100);
    let other = add(&mut world, EntityRecord {
        transform: at(30, 140),
        body: Some(KinematicBody { velocity: Vec2::new(5, 5) }),
        ..blank()
    });
    toggle_abilities(&mut world);
    let out = push_controller(&mut world, &ticked(16));
    assert!(out.contains(&Outbound::Broadcast(Packet::EffectSpawn(Cosmetic::Push { position: Vec2::new(0, 100) }))));
    let o = world.entities.iter().find(|r| r.entity == other).unwrap();
    assert_eq!(o.body.unwrap().velocity, Vec2::new(1200, 1600));
    // the owner stands at the origin and keeps its velocity
    let me = world.entities.iter().find(|r| r.entity == owner).unwrap();
    assert_eq!(me.body.unwrap().velocity, Vec2::new(0, 0));
}

#[test]
fn generic_trigger_pattern() {
    assert_eq!(trigger_step(Cooldown(0), true, 16, 5000), (Cooldown(5000), true));
    assert_eq!(trigger_step(Cooldown(100), true, 16, 5000), (Cooldown(84), false));
    assert_eq!(trigger_step(Cooldown(0), false, 16, 5000), (Cooldown(0), false));
}

#[test]
fn countdowns_remove_expired_entities() {
    let mut world = World::new();
    let a = add(&mut world, EntityRecord { ttl: Some(TimeToLive::Frames(1)), ..blank() });
    let b = add(&mut world, EntityRecord { ttl: Some(TimeToLive::Millis(100)), ..blank() });
    let c = add(&mut world, EntityRecord { ttl: Some(TimeToLive::Millis(16)), ..blank() });
    despawn_time_to_live(&mut world, &ticked(16));
    assert!(world.find(a).is_none());
    assert!(world.find(c).is_none());
    let k = world.find(b).unwrap();
    assert_eq!(world.entities[k].ttl, Some(TimeToLive::Millis(84)));
}

#[test]
fn health_bar_percentage() {
    assert_eq!(health_percentage(Health { now: 37, max: 50 }), 74);
    assert_eq!(health_percentage(Health { now: 0, max: 0 }), 0);
    assert_eq!(health_percentage(Health { now: 100, max: 100 }), 100);
}

#[test]
fn each_hit_broadcasts_the_new_health() {
    let mut world = World::new();
    let t = target(&mut world, 0, 100);
    bullet(&mut world, -5, Entity { id: 999 });
    bullet(&mut world, 5, Entity { id: 999 });
    let sets = compute_collisions(&world);
    let out = impact_and_damage(&mut world, &sets);
    assert_eq!(out, vec![
        Outbound::Broadcast(Packet::EntityHealth(t, 95)),
        Outbound::Broadcast(Packet::EntityHealth(t, 90)),
    ]);
    assert_eq!(health_of(&world, t), 90);
    assert_eq!(world.entities.len(), 1);
}

#[test]
fn players_face_where_they_aim() {
    let mut world = World::new();
    let p = add(&mut world, EntityRecord { transform: at(0, 0), input: Some(input(0, 0, 0, 0, 0)), ..blank() });
    let still = add(&mut world, EntityRecord { transform: at(0, 0), ..blank() });
    let out = arena_core::server::network_look_direction(&mut world, &vec![(p, 1571), (still, 300)]);
    assert_eq!(out, vec![Outbound::Broadcast(Packet::EntityLookDirection(p, 1571))]);
    assert_eq!(world.entities[0].transform.unwrap().rotation, 1571);
    assert_eq!(world.entities[1].transform.unwrap().rotation, 0);
}
