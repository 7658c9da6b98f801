use vstd::prelude::*;

use crate::ability::{AbilityKind, Effect};
use crate::health::Health;
use crate::player::{player_record, prefab};
use crate::world::{Entity, EntityRecord};

verus! {

/// Whether a presented entity is shown.
#[derive(Debug, Clone, Copy, PartialEq, Eq, Structural)]
pub enum Visibility {
    Shown,
    Hidden,
}

/// Kinds of entity that can be spawned by name.
#[derive(Debug, Clone, Copy, PartialEq, Eq, Structural)]
pub enum Prefab {
    Player,
}

impl Prefab {
    /// The record of a fresh entity `e` of this kind: a server-simulated
    /// player with four shotguns and no connection.
    pub fn instantiate(&self, e: Entity) -> (r: EntityRecord)
        ensures
            r == player_record(e, [AbilityKind::Shotgun, AbilityKind::Shotgun, AbilityKind::Shotgun, AbilityKind::Shotgun], e.id, None, true),
    {
        prefab(e, [AbilityKind::Shotgun, AbilityKind::Shotgun, AbilityKind::Shotgun, AbilityKind::Shotgun], e.id, None, true)
    }
}

/// Share of health left, in percent, rounded down; 0 for a zero maximum.
pub open spec fn percent_of(h: Health) -> int {
    if h.max == 0 {
        0
    } else {
        (h.now as int) * 100 / (h.max as int)
    }
}

/// What a health bar shows.
pub fn health_percentage(h: Health) -> (r: u64)
    ensures
        r == percent_of(h),
{
    if h.max == 0 {
        0
    } else {
        (h.now as u64 * 100) / h.max as u64
    }
}

/// An ability is shown only while it is active, and a bubble shield only
/// while it is also off cooldown; everything else is shown.
pub open spec fn visibility_of(r: EntityRecord) -> Visibility {
    match r.ability {
        Some(a) => {
            let shown = match (r.effect, r.cooldown) {
                (Some(Effect::BubbleShield { .. }), Some(c)) => a.active && c.0 == 0,
                _ => a.active,
            };
            if shown { Visibility::Shown } else { Visibility::Hidden }
        },
        None => Visibility::Shown,
    }
}

/// Executable `visibility_of`.
pub fn visibility(r: &EntityRecord) -> (v: Visibility)
    ensures
        v == visibility_of(*r),
{
    match r.ability {
        Some(a) => {
            let shown = match (r.effect, r.cooldown) {
                (Some(Effect::BubbleShield { .. }), Some(c)) => a.active && c.0 == 0,
                _ => a.active,
            };
            if shown {
                Visibility::Shown
            } else {
                Visibility::Hidden
            }
        },
        None => Visibility::Shown,
    }
}

} // verus!
