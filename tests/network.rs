use arena_core::ability::{instantiate, Ability, AbilityKind, Cooldown};
use arena_core::bullet::TimeToLive;
use arena_core::client::{apply_command, apply_packet, input, network_player_commands, stop_projectiles};
use arena_core::input::{Input, Key};
use arena_core::math::Vec2;
use arena_core::net::{Connection, Outbound, Packet};
use arena_core::physics::{compute_collisions, Collider, FixedBody, Transform};
use arena_core::server::{networked_despawn, networked_instantiate, networked_position};
use arena_core::time::Time;
use arena_core::view::{visibility, Prefab, Visibility};
use arena_core::world::{Entity, EntityRecord, NetworkPosition, World};

const DECK: [AbilityKind; 4] = [AbilityKind::Shotgun, AbilityKind::Shield, AbilityKind::Heal, AbilityKind::Lightning];

fn owned_by(world: &World, e: Entity) -> usize {
    world.entities.iter().filter(|r| matches!(r.ability, Some(a) if a.owner == e)).count()
}

#[test]
fn join_spawns_player_and_replays_world_to_new_connection() {
    let mut world = World::new();
    let mut pool = vec![Entity { id: 40 }];
    let joins = vec![(Connection(1), DECK)];
    let out = networked_instantiate(&mut world, &joins, &vec![Connection(1)], &mut pool);
    let p = Entity { id: 40 };
    assert!(pool.is_empty());
    assert!(world.find(p).is_some());
    assert_eq!(owned_by(&world, p), 4);
    let spawn = Packet::PlayerSpawn { entity: p, connection: Connection(1), deck: DECK, color: 40 };
    assert_eq!(out, vec![Outbound::Broadcast(spawn), Outbound::To(Connection(1), spawn)]);
    // a second join with an empty pool reserves a fresh identifier
    let out = networked_instantiate(&mut world, &vec![(Connection(2), DECK)], &vec![Connection(2)], &mut pool);
    let q = Entity { id: 41 };
    assert!(world.find(q).is_some());
    assert_eq!(out.len(), 3);
    assert_eq!(out[1], Outbound::To(Connection(2), spawn));
}

#[test]
fn disconnect_removes_player_and_its_abilities() {
    let mut world = World::new();
    let mut pool = Vec::new();
    networked_instantiate(&mut world, &vec![(Connection(1), DECK), (Connection(2), DECK)], &vec![], &mut pool);
    assert_eq!(world.entities.len(), 10);
    let gone = Entity { id: 0 };
    let out = networked_despawn(&mut world, &vec![Connection(1), Connection(9)]);
    assert_eq!(out, vec![Outbound::Broadcast(Packet::PlayerDespawn(gone))]);
    assert!(world.find(gone).is_none());
    assert_eq!(owned_by(&world, gone), 0);
    assert_eq!(world.entities.len(), 5);
}

#[test]
fn positions_are_sent_only_for_replicated_entities() {
    let mut world = World::new();
    let a = world
        .spawn(EntityRecord {
            transform: Some(Transform { translation: Vec2::new(3, 4), rotation: 0 }),
            network_position: Some(NetworkPosition),
            ..EntityRecord::empty(Entity { id: 0 })
        })
        .unwrap();
    world
        .spawn(EntityRecord {
            transform: Some(Transform { translation: Vec2::new(5, 6), rotation: 0 }),
            ..EntityRecord::empty(Entity { id: 0 })
        })
        .unwrap();
    assert_eq!(networked_position(&world), vec![Outbound::Broadcast(Packet::EntityPosition(a, Vec2::new(3, 4)))]);
}

#[test]
fn client_mirrors_spawns_and_only_drives_its_own_player() {
    let mut world = World::new();
    let mine = Entity { id: 3 };
    let theirs = Entity { id: 8 };
    let me = Connection(1);
    apply_packet(&mut world, &Packet::PlayerSpawn { entity: mine, connection: me, deck: DECK, color: 3 }, me);
    apply_packet(&mut world, &Packet::PlayerSpawn { entity: theirs, connection: Connection(2), deck: DECK, color: 8 }, me);
    let k = world.find(theirs).unwrap();
    assert!(world.entities[k].input.is_none());
    assert!(world.entities[k].body.is_none());
    assert_eq!(input(&world), vec![Outbound::Broadcast(Packet::PlayerCommand(Input::neutral()))]);
    apply_packet(&mut world, &Packet::EntityPosition(theirs, Vec2::new(7, 9)), me);
    assert_eq!(world.entities[world.find(theirs).unwrap()].transform.unwrap().translation, Vec2::new(7, 9));
    apply_packet(&mut world, &Packet::EntityHealth(theirs, 250), me);
    assert_eq!(world.entities[world.find(theirs).unwrap()].health.unwrap().now, 100);
    apply_packet(&mut world, &Packet::EntityHealth(theirs, 40), me);
    assert_eq!(world.entities[world.find(theirs).unwrap()].health.unwrap().now, 40);
    apply_packet(&mut world, &Packet::PlayerDespawn(theirs), me);
    assert!(world.find(theirs).is_none());
    assert_eq!(owned_by(&world, theirs), 0);
    // a second despawn of the same entity is ignored
    let n = world.entities.len();
    apply_packet(&mut world, &Packet::PlayerDespawn(theirs), me);
    assert_eq!(world.entities.len(), n);
    // a position for an entity that does not exist changes nothing
    apply_packet(&mut world, &Packet::EntityPosition(Entity { id: 77 }, Vec2::new(1, 1)), me);
    assert_eq!(world.entities.len(), n);
}

#[test]
fn commands_drive_the_connection_owner() {
    let mut world = World::new();
    world
        .spawn(EntityRecord { connection: Some(Connection(5)), input: Some(Input::neutral()), ..EntityRecord::empty(Entity { id: 0 }) })
        .unwrap();
    let cmd = Input { dx: 127, dy: 0, ax: 0, ay: -127, btn: 3 };
    network_player_commands(&mut world, &vec![(Connection(6), Packet::PlayerCommand(cmd)), (Connection(5), Packet::PlayerDespawn(Entity { id: 0 }))]);
    assert_eq!(world.entities[0].input, Some(Input::neutral()));
    apply_command(&mut world, Connection(5), cmd);
    assert_eq!(world.entities[0].input, Some(cmd));
}

#[test]
fn time_measures_ticks_across_clock_wrap() {
    let mut t = Time::new();
    assert_eq!(t.dt_ms(), 0);
    t.poll(0xFFFF_FF00);
    assert_eq!(t.dt_ms(), 0xFFFF_FF00);
    assert_eq!(t.elapsed_ms(), 0);
    t.poll(0x100);
    assert_eq!(t.dt_ms(), 0x200);
    assert_eq!(t.elapsed_ms(), 0x200);
    t.poll(0x110);
    assert_eq!(t.dt_ms(), 0x10);
}

#[test]
fn input_axes_and_buttons() {
    let i = Input { dx: -128, dy: 127, ax: 5, ay: -5, btn: 0b1001_0001 };
    assert_eq!(i.dx(), -127);
    assert_eq!(i.dy(), 127);
    assert_eq!(i.ax(), 5);
    assert_eq!(i.ay(), -5);
    assert!(i.button(0));
    assert!(!i.button(1));
    assert!(i.button(4));
    assert!(i.fire());
    assert!(i.button(7));
    assert_eq!(Key::variants(), vec![Key::Up, Key::Down, Key::Left, Key::Right]);
}

#[test]
fn prefab_and_visibility() {
    let r = Prefab::Player.instantiate(Entity { id: 12 });
    assert_eq!(r.entity, Entity { id: 12 });
    assert_eq!(r.player.unwrap().color, 12);
    assert_eq!(r.transform.unwrap().translation, Vec2::new(100, 500));
    assert_eq!(visibility(&r), Visibility::Shown);
    let owner = Entity { id: 12 };
    let gun = instantiate(Entity { id: 13 }, owner, 0, AbilityKind::Shotgun);
    assert_eq!(visibility(&gun), Visibility::Hidden);
    let raised = EntityRecord { ability: Some(Ability { owner, binding: 0, active: true }), ..gun };
    assert_eq!(visibility(&raised), Visibility::Shown);
    let bubble = instantiate(Entity { id: 14 }, owner, 1, AbilityKind::BubbleShield);
    let up = EntityRecord { ability: Some(Ability { owner, binding: 1, active: true }), ..bubble };
    assert_eq!(visibility(&up), Visibility::Shown);
    let cooling = EntityRecord { cooldown: Some(Cooldown(300)), ..up };
    assert_eq!(visibility(&cooling), Visibility::Hidden);
}

#[test]
fn client_projectiles_stop_at_walls_and_raised_shields() {
    let mut world = World::new();
    let wall = world
        .spawn(EntityRecord {
            transform: Some(Transform { translation: Vec2::new(0, 0), rotation: 0 }),
            collider: Some(Collider::rect(20, 200)),
            fixed: Some(FixedBody),
            ..EntityRecord::empty(Entity { id: 0 })
        })
        .unwrap();
    let owner = Entity { id: 50 };
    let lowered = world
        .spawn(EntityRecord {
            transform: Some(Transform { translation: Vec2::new(100, 0), rotation: 0 }),
            ..instantiate(Entity { id: 0 }, owner, 0, AbilityKind::Shield)
        })
        .unwrap();
    let mut ids = Vec::new();
    for x in [5, 100, 300] {
        ids.push(
            world
                .spawn(EntityRecord {
                    transform: Some(Transform { translation: Vec2::new(x, 0), rotation: 0 }),
                    collider: Some(Collider::circle(3)),
                    senses_collisions: true,
                    ttl: Some(TimeToLive::Millis(1000)),
                    ..EntityRecord::empty(Entity { id: 0 })
                })
                .unwrap(),
        );
    }
    let sets = compute_collisions(&world);
    stop_projectiles(&mut world, &sets);
    assert!(world.find(ids[0]).is_none());
    assert!(world.find(ids[1]).is_some());
    assert!(world.find(ids[2]).is_some());
    assert!(world.find(wall).is_some());
    // raise the shield: the projectile on it stops too
    let k = world.find(lowered).unwrap();
    world.entities[k].ability = Some(Ability { owner, binding: 0, active: true });
    let sets = compute_collisions(&world);
    stop_projectiles(&mut world, &sets);
    assert!(world.find(ids[1]).is_none());
    assert!(world.find(ids[2]).is_some());
}
