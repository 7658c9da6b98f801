use arena_core::ability::{instantiate, toggle_abilities, Ability, AbilityKind, Cooldown, Effect};
use arena_core::effects::{bubble_shield_controller, freeze_controller};
use arena_core::input::Input;
use arena_core::math::Vec2;
use arena_core::net::{Connection, Cosmetic, Outbound, Packet};
use arena_core::physics::{Collider, Grounded, TimeScale, Transform};
use arena_core::tick::{client_tick, server_tick, Inbound};
use arena_core::time::Time;
use arena_core::world::{Entity, EntityRecord, World};

fn ticked(dt: u32) -> Time {
    let mut t = Time::new();
    t.poll(1000);
    t.poll(1000 + dt);
    t
}

#[test]
fn time_dilation_runs_for_its_frames_then_reverts() {
    let mut world = World::new();
    let owner = world
        .spawn(EntityRecord {
            transform: Some(Transform { translation: Vec2::new(0, 0), rotation: 0 }),
            input: Some(Input { dx: 0, dy: 0, ax: 0, ay: 0, btn: 1 }),
            ..EntityRecord::empty(Entity { id: 0 })
        })
        .unwrap();
    let ability = world.spawn(instantiate(Entity { id: 0 }, owner, 0, AbilityKind::Freeze)).unwrap();
    toggle_abilities(&mut world);
    let out = freeze_controller(&mut world, &ticked(16));
    assert_eq!(out, vec![Outbound::Broadcast(Packet::EffectSpawn(Cosmetic::Freeze))]);
    let get = |w: &World, e: Entity| *w.entities.iter().find(|r| r.entity == e).unwrap();
    assert_eq!(get(&world, owner).time_scale, Some(TimeScale(3333)));
    assert_eq!(get(&world, ability).effect, Some(Effect::Freeze { left: 239, saved: None }));
    assert_eq!(get(&world, ability).cooldown, Some(Cooldown(5000)));
    for _ in 0..238 {
        freeze_controller(&mut world, &ticked(0));
    }
    assert_eq!(get(&world, owner).time_scale, Some(TimeScale(3333)));
    freeze_controller(&mut world, &ticked(0));
    assert_eq!(get(&world, ability).effect, Some(Effect::Freeze { left: 0, saved: None }));
    assert_eq!(get(&world, owner).time_scale, None);
}

#[test]
fn joined_player_falls_onto_a_platform() {
    let mut world = World::new();
    arena_core::level::instantiate(&mut world);
    let mut pool = Vec::new();
    let mut time = Time::new();
    let deck = [AbilityKind::Shotgun, AbilityKind::Heal, AbilityKind::Push, AbilityKind::Freeze];
    let join = Inbound {
        packets: vec![],
        connections: vec![Connection(1)],
        disconnections: vec![],
        joins: vec![(Connection(1), deck)],
    };
    time.poll(1000);
    time.poll(1016);
    let out = server_tick(&mut world, &time, &join, &mut pool);
    let player = Entity { id: 7 };
    let spawn = Packet::PlayerSpawn { entity: player, connection: Connection(1), deck, color: 7 };
    assert_eq!(out[0], Outbound::Broadcast(spawn));
    assert_eq!(out[1], Outbound::To(Connection(1), spawn));
    let quiet = Inbound { packets: vec![], connections: vec![], disconnections: vec![], joins: vec![] };
    let mut now = 1016;
    let mut last = Vec::new();
    for _ in 0..200 {
        now += 16;
        time.poll(now);
        last = server_tick(&mut world, &time, &quiet, &mut pool);
    }
    let k = world.find(player).unwrap();
    let r = world.entities[k];
    assert_eq!(r.transform.unwrap().translation, Vec2::new(100, 165));
    assert!(matches!(r.grounded, Some(Grounded::Yes { .. })));
    assert!(last.contains(&Outbound::Broadcast(Packet::EntityPosition(player, Vec2::new(100, 165)))));
}

#[test]
fn client_tick_applies_packets_and_reports_input() {
    let mut world = World::new();
    let me = Connection(4);
    let deck = [AbilityKind::Shotgun, AbilityKind::Heal, AbilityKind::Push, AbilityKind::Freeze];
    let packets = vec![
        Packet::PlayerSpawn { entity: Entity { id: 20 }, connection: me, deck, color: 20 },
        Packet::EntityPosition(Entity { id: 20 }, Vec2::new(1, 2)),
    ];
    let out = client_tick(&mut world, &ticked(16), &packets, me);
    assert_eq!(out, vec![Outbound::Broadcast(Packet::PlayerCommand(Input::neutral()))]);
    let k = world.find(Entity { id: 20 }).unwrap();
    assert_eq!(world.entities[k].transform.unwrap().translation, Vec2::new(1, 2));
}

#[test]
fn bubble_shrinks_while_raised_then_recharges() {
    let mut world = World::new();
    let owner = world
        .spawn(EntityRecord { connection: Some(Connection(3)), ..EntityRecord::empty(Entity { id: 0 }) })
        .unwrap();
    let bubble = world
        .spawn(EntityRecord {
            ability: Some(Ability { owner, binding: 2, active: true }),
            effect: Some(Effect::BubbleShield { radius: 50_000 }),
            cooldown: Some(Cooldown(0)),
            collider: Some(Collider::circle(50)),
            ..EntityRecord::empty(Entity { id: 0 })
        })
        .unwrap();
    assert!(bubble_shield_controller(&mut world, &ticked(1000)).is_empty());
    let r = world.entities[1];
    assert_eq!(r.entity, bubble);
    assert_eq!(r.effect, Some(Effect::BubbleShield { radius: 48_500 }));
    assert_eq!(r.collider, Some(Collider::circle(48)));
    world.entities[1].effect = Some(Effect::BubbleShield { radius: 16_000 });
    let out = bubble_shield_controller(&mut world, &ticked(1000));
    assert_eq!(out, vec![Outbound::To(Connection(3), Packet::CooldownStart { binding: 2, duration: 5000 })]);
    assert_eq!(world.entities[1].effect, Some(Effect::BubbleShield { radius: 50_000 }));
    assert_eq!(world.entities[1].cooldown, Some(Cooldown(5000)));
    // cooling down: no shrinking
    bubble_shield_controller(&mut world, &ticked(1000));
    assert_eq!(world.entities[1].effect, Some(Effect::BubbleShield { radius: 50_000 }));
    assert_eq!(world.entities[1].cooldown, Some(Cooldown(4000)));
}

#[test]
fn time_dilation_multiplies_and_restores_an_existing_scale() {
    let mut world = World::new();
    let owner = world
        .spawn(EntityRecord {
            input: Some(Input { dx: 0, dy: 0, ax: 0, ay: 0, btn: 1 }),
            time_scale: Some(TimeScale(500)),
            ..EntityRecord::empty(Entity { id: 0 })
        })
        .unwrap();
    let ability = world.spawn(instantiate(Entity { id: 0 }, owner, 0, AbilityKind::Freeze)).unwrap();
    toggle_abilities(&mut world);
    freeze_controller(&mut world, &ticked(16));
    assert_eq!(world.entities[0].time_scale, Some(TimeScale(1666)));
    assert_eq!(world.entities[1].entity, ability);
    assert_eq!(world.entities[1].effect, Some(Effect::Freeze { left: 239, saved: Some(TimeScale(500)) }));
    for _ in 0..239 {
        freeze_controller(&mut world, &ticked(0));
    }
    assert_eq!(world.entities[0].time_scale, Some(TimeScale(500)));
}
