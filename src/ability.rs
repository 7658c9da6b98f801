use vstd::prelude::*;

use crate::input::Input;
use crate::math::Vec2;
use crate::physics::{Collider, TimeScale};
use crate::net::{Outbound, Packet};
use crate::world::{alive, ids_unique, Entity, EntityRecord, World};

verus! {

/// Every kind of ability a player can bind.
#[derive(Debug, Clone, Copy, PartialEq, Eq, Structural)]
pub enum AbilityKind {
    Shotgun,
    AssaultRifle,
    DualGun,
    Shield,
    Push,
    Freeze,
    Lightning,
    BubbleShield,
    Heal,
}

/// Marks an entity as one of `owner`'s abilities, bound to slot `binding`.
#[derive(Debug, Clone, Copy, PartialEq, Eq, Structural)]
pub struct Ability {
    pub owner: Entity,
    /// Binding slot, 0 to 3.
    pub binding: usize,
    /// Whether the ability is selected this tick.
    pub active: bool,
}

/// Milliseconds left before an ability may trigger again.
#[derive(Debug, Clone, Copy, PartialEq, Eq, Structural)]
pub struct Cooldown(pub u32);

/// The weapons that fire projectiles.
#[derive(Debug, Clone, Copy, PartialEq, Eq, Structural)]
pub enum GunKind {
    Shotgun,
    AssaultRifle,
    DualGun,
}

/// A weapon, and the cooldown it starts after each shot.
#[derive(Debug, Clone, Copy, PartialEq, Eq, Structural)]
pub struct Gun {
    pub cooldown: Cooldown,
    pub kind: GunKind,
}

/// State of the lightning ability: idle, charging while a strike is
/// announced, then active while the strike's hazard stands.
#[derive(Debug, Clone, Copy, PartialEq, Eq, Structural)]
pub enum Lightning {
    Idle,
    Charging { time_left: u32, hazard: Entity, impact: Vec2 },
    Active { time_left: u32, hazard: Entity, impact: Vec2 },
}

/// What an ability does when it triggers.
#[derive(Debug, Clone, Copy, PartialEq, Eq, Structural)]
pub enum Effect {
    Gun(Gun),
    Lightning(Lightning),
    Heal,
    Push,
    /// Time dilation; `left` counts the frames still to run, and `saved`
    /// holds the owner's time scale from before the dilation.
    Freeze { left: u32, saved: Option<TimeScale> },
    Shield,
    /// A shield that shrinks while raised; `radius` in thousandths.
    BubbleShield { radius: u32 },
}

} // verus!

verus! {

/// The binding an input selects: the lowest of the four ability buttons
/// held down, if any.
pub open spec fn chosen_binding(inp: Input) -> Option<usize> {
    if inp.button_spec(0) {
        Some(0usize)
    } else if inp.button_spec(1) {
        Some(1usize)
    } else if inp.button_spec(2) {
        Some(2usize)
    } else if inp.button_spec(3) {
        Some(3usize)
    } else {
        None
    }
}

/// Executable `chosen_binding`.
pub fn chosen(inp: &Input) -> (r: Option<usize>)
    ensures
        r == chosen_binding(*inp),
{
    let mut i: usize = 0;
    while i < 4
        invariant
            i <= 4,
            forall|k: int| 0 <= k < i ==> !inp.button_spec(k),
        decreases 4 - i,
    {
        if inp.button(i) {
            return Some(i);
        }
        i = i + 1;
    }
    None
}

/// Index of `e`'s record in `s`, where it is alive.
pub open spec fn index_of(s: Seq<EntityRecord>, e: Entity) -> int {
    choose|j: int| 0 <= j < s.len() && s[j].entity == e
}

/// Input of the owner `e`, where it is alive and has one.
pub open spec fn owner_input(s: Seq<EntityRecord>, e: Entity) -> Option<Input> {
    if alive(s, e) {
        s[index_of(s, e)].input
    } else {
        None
    }
}

/// `r` after its owner's input chose the active binding: an ability is
/// active exactly when its binding is the chosen one. Abilities whose owner
/// has no input keep their state.
pub open spec fn toggle_step(s: Seq<EntityRecord>, r: EntityRecord) -> EntityRecord {
    match r.ability {
        Some(a) => match owner_input(s, a.owner) {
            Some(inp) => EntityRecord {
                ability: Some(Ability { active: chosen_binding(inp) == Some(a.binding), ..a }),
                ..r
            },
            None => r,
        },
        None => r,
    }
}

/// `r` is an ability of `e` whose state changes when `c` is chosen.
pub open spec fn flips(r: EntityRecord, e: Entity, c: Option<usize>) -> bool {
    match r.ability {
        Some(a) => a.owner == e && a.active != (c == Some(a.binding)),
        None => false,
    }
}

/// Some ability of `e` changes its state when `c` is chosen.
pub open spec fn toggle_changes(s: Seq<EntityRecord>, e: Entity, c: Option<usize>) -> bool {
    exists|k: int| 0 <= k < s.len() && #[trigger] flips(s[k], e, c)
}

/// Notices of a new choice, one per owner among the first `n` records of
/// `s` whose abilities change, in order.
pub open spec fn toggle_notices(s: Seq<EntityRecord>, n: nat) -> Seq<Outbound>
    decreases n,
{
    if n == 0 || n > s.len() {
        Seq::empty()
    } else {
        let prev = toggle_notices(s, (n - 1) as nat);
        let r = s[n - 1];
        match r.input {
            Some(inp) => if toggle_changes(s, r.entity, chosen_binding(inp)) {
                prev.push(Outbound::Broadcast(Packet::PlayerToggleAbility(r.entity, chosen_binding(inp))))
            } else {
                prev
            },
            None => prev,
        }
    }
}

fn changes(world: &World, e: Entity, c: Option<usize>) -> (b: bool)
    ensures
        b == toggle_changes(world.entities@, e, c),
{
    let n = world.entities.len();
    let mut k: usize = 0;
    while k < n
        invariant
            n == world.entities@.len(),
            k <= n,
            forall|j: int| 0 <= j < k ==> !#[trigger] flips(world.entities@[j], e, c),
        decreases n - k,
    {
        match world.entities[k].ability {
            Some(a) => {
                let now = match c {
                    Some(b) => a.binding == b,
                    None => false,
                };
                if a.owner == e && a.active != now {
                    assert(flips(world.entities@[k as int], e, c));
                    return true;
                }
            },
            None => {},
        }
        k = k + 1;
    }
    false
}

pub proof fn lemma_index_of(s: Seq<EntityRecord>, i: int)
    requires
        ids_unique(s),
        0 <= i < s.len(),
    ensures
        alive(s, s[i].entity),
        index_of(s, s[i].entity) == i,
{
    assert(s[i].entity == s[i].entity);
    assert(alive(s, s[i].entity));
}

/// The contract of `toggle_abilities`, as a relation between the records before
/// (`s`) and after (`t`) and the messages `r`.
pub open spec fn toggle_rel(s: Seq<EntityRecord>, sn: u64, t: Seq<EntityRecord>, tn: u64, r: Seq<Outbound>) -> bool {
    &&& (tn == sn)
    &&& (t.len() == s.len())
    &&& (forall|i: int| 0 <= i < s.len()
            ==> t[i] == toggle_step(s, s[i]))
    &&& (r == toggle_notices(s, s.len()))
}

/// Server side: each owner's input chooses at most one binding; every
/// ability of that owner becomes active exactly when it holds that binding.
/// Returns a broadcast of the choice for each owner whose abilities change.
pub fn toggle_abilities(world: &mut World) -> (r: Vec<Outbound>)
    requires
        old(world).wf(),
    ensures
        final(world).wf(),
        final(world).next_id == old(world).next_id,
        final(world).entities@.len() == old(world).entities@.len(),
        forall|i: int| 0 <= i < old(world).entities@.len()
            ==> final(world).entities@[i] == toggle_step(old(world).entities@, old(world).entities@[i]),
        r@ == toggle_notices(old(world).entities@, old(world).entities@.len()),
{
    let ghost s = world.entities@;
    let n = world.entities.len();
    let mut out: Vec<Outbound> = Vec::new();
    let mut j: usize = 0;
    while j < n
        invariant
            s == world.entities@,
            n == s.len(),
            j <= n,
            out@ == toggle_notices(s, j as nat),
        decreases n - j,
    {
        let r = world.entities[j];
        match r.input {
            Some(inp) => {
                let c = chosen(&inp);
                if changes(world, r.entity, c) {
                    out.push(Outbound::Broadcast(Packet::PlayerToggleAbility(r.entity, c)));
                }
            },
            None => {},
        }
        j = j + 1;
    }
    let mut i: usize = 0;
    while i < n
        invariant
            s == old(world).entities@,
            ids_unique(s),
            forall|k: int| 0 <= k < s.len() ==> s[k].entity.id < world.next_id,
            world.next_id == old(world).next_id,
            n == world.entities@.len(),
            n == s.len(),
            i <= n,
            forall|k: int| 0 <= k < i ==> world.entities@[k] == toggle_step(s, s[k]),
            forall|k: int| i <= k < n ==> world.entities@[k] == s[k],
            forall|k: int| 0 <= k < n ==> world.entities@[k].entity == s[k].entity && world.entities@[k].input == s[k].input,
        decreases n - i,
    {
        let r = world.entities[i];
        match r.ability {
            Some(a) => {
                match world.find(a.owner) {
                    Some(k) => {
                        proof {
                            lemma_index_of(s, k as int);
                        }
                        match world.entities[k].input {
                            Some(inp) => {
                                let c = chosen(&inp);
                                let now = match c {
                                    Some(b) => a.binding == b,
                                    None => false,
                                };
                                world.entities.set(i, EntityRecord { ability: Some(Ability { active: now, ..a }), ..r });
                            },
                            None => {},
                        }
                    },
                    None => {
                        proof {
                            if alive(s, a.owner) {
                                let k = choose|k: int| 0 <= k < s.len() && s[k].entity == a.owner;
                                assert(world.entities@[k].entity == a.owner);
                            }
                        }
                    },
                }
            },
            None => {},
        }
        i = i + 1;
    }
    proof {
        assert forall|a: int, b: int| 0 <= a < world.entities@.len() && 0 <= b < world.entities@.len() && a != b
            implies world.entities@[a].entity != world.entities@[b].entity by {
            assert(world.entities@[a].entity == s[a].entity);
            assert(world.entities@[b].entity == s[b].entity);
        }
        assert forall|a: int| 0 <= a < world.entities@.len() implies world.entities@[a].entity.id < world.next_id by {
            assert(world.entities@[a].entity == s[a].entity);
        }
    }
    out
}

/// `r` after a choice of `binding` for `owner`: an ability of `owner` is
/// active exactly when it holds that binding.
pub open spec fn toggled(r: EntityRecord, owner: Entity, binding: Option<usize>) -> EntityRecord {
    match r.ability {
        Some(a) => if a.owner == owner {
            EntityRecord { ability: Some(Ability { active: binding == Some(a.binding), ..a }), ..r }
        } else {
            r
        },
        None => r,
    }
}

/// Applies a choice received from the server: every ability of `owner`
/// becomes active exactly when it holds `binding`.
pub fn apply_toggle(world: &mut World, owner: Entity, binding: Option<usize>)
    ensures
        final(world).next_id == old(world).next_id,
        final(world).entities@.len() == old(world).entities@.len(),
        forall|i: int| 0 <= i < old(world).entities@.len() ==> final(world).entities@[i] == (
            match old(world).entities@[i].ability {
                Some(a) => if a.owner == owner {
                    EntityRecord { ability: Some(Ability { active: binding == Some(a.binding), ..a }), ..old(world).entities@[i] }
                } else {
                    old(world).entities@[i]
                },
                None => old(world).entities@[i],
            }),
{
    let n = world.entities.len();
    let mut i: usize = 0;
    while i < n
        invariant
            n == world.entities@.len(),
            n == old(world).entities@.len(),
            i <= n,
            world.next_id == old(world).next_id,
            forall|k: int| 0 <= k < i ==> world.entities@[k] == (
                match old(world).entities@[k].ability {
                    Some(a) => if a.owner == owner {
                        EntityRecord { ability: Some(Ability { active: binding == Some(a.binding), ..a }), ..old(world).entities@[k] }
                    } else {
                        old(world).entities@[k]
                    },
                    None => old(world).entities@[k],
                }),
            forall|k: int| i <= k < n ==> world.entities@[k] == old(world).entities@[k],
        decreases n - i,
    {
        let r = world.entities[i];
        match r.ability {
            Some(a) => {
                if a.owner == owner {
                    let now = match binding {
                        Some(b) => a.binding == b,
                        None => false,
                    };
                    world.entities.set(i, EntityRecord { ability: Some(Ability { active: now, ..a }), ..r });
                }
            },
            None => {},
        }
        i = i + 1;
    }
}

/// Two abilities of one owner that hold different bindings are never both
/// active after a choice: where the owner has an input, the choice decides;
/// where it has none, the pair keeps the state it had, so the property
/// carries from one tick to the next.
pub proof fn lemma_one_active_per_owner(s: Seq<EntityRecord>, i: int, j: int)
    requires
        0 <= i < s.len(),
        0 <= j < s.len(),
        s[i].ability is Some,
        s[j].ability is Some,
        s[i].ability.unwrap().owner == s[j].ability.unwrap().owner,
        s[i].ability.unwrap().binding != s[j].ability.unwrap().binding,
        owner_input(s, s[i].ability.unwrap().owner) is Some
            || !(s[i].ability.unwrap().active && s[j].ability.unwrap().active),
    ensures
        !(toggle_step(s, s[i]).ability.unwrap().active && toggle_step(s, s[j]).ability.unwrap().active),
{
}

/// `c` milliseconds of cooldown after `dt` more have passed.
pub open spec fn cool(c: u32, dt: u32) -> u32 {
    if c > dt {
        (c - dt) as u32
    } else {
        0
    }
}

/// Executable `cool`.
pub fn cool_down(c: Cooldown, dt: u32) -> (r: Cooldown)
    ensures
        r == Cooldown(cool(c.0, dt)),
{
    if c.0 > dt {
        Cooldown(c.0 - dt)
    } else {
        Cooldown(0)
    }
}

/// Whether a gun fires this tick: it is active, its cooldown ran out, and
/// the trigger is held.
pub open spec fn gun_fires(cooldown: Cooldown, active: bool, fire: bool, dt: u32) -> bool {
    active && cool(cooldown.0, dt) == 0 && fire
}

/// One tick of a gun: the cooldown runs down, and where the gun fires it
/// restarts at the gun's own cooldown. Returns the new cooldown and whether
/// it fired.
pub fn gun_step(cooldown: Cooldown, gun: Gun, active: bool, fire: bool, dt: u32) -> (r: (Cooldown, bool))
    ensures
        r.1 == gun_fires(cooldown, active, fire, dt),
        r.0 == (if r.1 {
            gun.cooldown
        } else {
            Cooldown(cool(cooldown.0, dt))
        }),
{
    let c = cool_down(cooldown, dt);
    if active && c.0 == 0 && fire {
        (gun.cooldown, true)
    } else {
        (c, false)
    }
}

/// A gun that fired does not fire again before its cooldown has run out.
pub proof fn lemma_gun_rearm(cooldown: Cooldown, gun: Gun, active: bool, fire: bool, dt: u32, later: u32)
    requires
        gun_fires(cooldown, active, fire, dt),
        later < gun.cooldown.0,
    ensures
        forall|a: bool, f: bool| !gun_fires(gun.cooldown, a, f, later),
{
}

} // verus!

verus! {

/// What an ability of `kind` starts with.
pub open spec fn effect_of(kind: AbilityKind) -> Effect {
    match kind {
        AbilityKind::Shotgun => Effect::Gun(Gun { cooldown: Cooldown(1500), kind: GunKind::Shotgun }),
        AbilityKind::AssaultRifle => Effect::Gun(Gun { cooldown: Cooldown(70), kind: GunKind::AssaultRifle }),
        AbilityKind::DualGun => Effect::Gun(Gun { cooldown: Cooldown(200), kind: GunKind::DualGun }),
        AbilityKind::Shield => Effect::Shield,
        AbilityKind::Push => Effect::Push,
        AbilityKind::Freeze => Effect::Freeze { left: 0, saved: None },
        AbilityKind::Lightning => Effect::Lightning(Lightning::Idle),
        AbilityKind::BubbleShield => Effect::BubbleShield { radius: 50_000 },
        AbilityKind::Heal => Effect::Heal,
    }
}

/// The record of an inactive, ready ability `e` of `owner` in slot
/// `binding`. Shields carry a collider of their own.
pub open spec fn ability_record(e: Entity, owner: Entity, binding: usize, kind: AbilityKind) -> EntityRecord {
    EntityRecord {
        ability: Some(Ability { owner, binding, active: false }),
        cooldown: Some(Cooldown(0)),
        effect: Some(effect_of(kind)),
        collider: match kind {
            AbilityKind::Shield => Some(Collider::Rect { width: 25, height: 40 }),
            AbilityKind::BubbleShield => Some(Collider::Circle { radius: 50 }),
            _ => None,
        },
        ..EntityRecord::empty_spec(e)
    }
}

/// Executable `ability_record`.
pub fn instantiate(e: Entity, owner: Entity, binding: usize, kind: AbilityKind) -> (r: EntityRecord)
    ensures
        r == ability_record(e, owner, binding, kind),
{
    let effect = match kind {
        AbilityKind::Shotgun => Effect::Gun(Gun { cooldown: Cooldown(1500), kind: GunKind::Shotgun }),
        AbilityKind::AssaultRifle => Effect::Gun(Gun { cooldown: Cooldown(70), kind: GunKind::AssaultRifle }),
        AbilityKind::DualGun => Effect::Gun(Gun { cooldown: Cooldown(200), kind: GunKind::DualGun }),
        AbilityKind::Shield => Effect::Shield,
        AbilityKind::Push => Effect::Push,
        AbilityKind::Freeze => Effect::Freeze { left: 0, saved: None },
        AbilityKind::Lightning => Effect::Lightning(Lightning::Idle),
        AbilityKind::BubbleShield => Effect::BubbleShield { radius: 50_000 },
        AbilityKind::Heal => Effect::Heal,
    };
    let collider = match kind {
        AbilityKind::Shield => Some(Collider::rect(25, 40)),
        AbilityKind::BubbleShield => Some(Collider::circle(50)),
        _ => None,
    };
    EntityRecord {
        ability: Some(Ability { owner, binding, active: false }),
        cooldown: Some(Cooldown(0)),
        effect: Some(effect),
        collider,
        ..EntityRecord::empty(e)
    }
}

} // verus!
