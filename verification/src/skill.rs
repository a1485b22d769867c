//! Skill identities and the per-player casting state.

use vstd::prelude::*;
use crate::fix::{Fix64, Vec2};

verus! {

/// Number of skill slots a player has (cooldowns, levels and form flags are kept per slot).
pub const MAX_SKILL_SLOTS: usize = 48;

/// A skill, identified by its numeric code.
#[derive(Clone, Copy, Debug, PartialEq, Eq, Structural)]
pub struct SkillId(pub u32);

impl SkillId {
    /// The numeric code of the skill.
    pub fn as_u32(self) -> (r: u32)
        ensures
            r == self.0,
    {
        self.0
    }

    /// The skill with the given numeric code.
    pub fn from_u32(v: u32) -> (r: SkillId)
        ensures
            r.0 == v,
    {
        SkillId(v)
    }
}

/// Where a player's current cast stands.
#[derive(Clone, Copy, Debug, PartialEq, Eq, Structural)]
pub enum CastPhase {
    /// Not casting.
    Idle,
    /// Winding up `id` towards an optional target; `remaining` seconds left.
    Windup { id: SkillId, target: Option<Vec2>, remaining: Fix64 },
    /// Recovering after `id`; `remaining` seconds left.
    Recovery { id: SkillId, remaining: Fix64 },
}

/// A player's casting state: the current phase and a cooldown per skill slot.
#[derive(Clone, Debug, PartialEq, Eq)]
pub struct Caster {
    pub phase: CastPhase,
    /// Remaining cooldown per skill slot.
    pub cooldowns: Vec<Fix64>,
}

/// The mathematical value of a [`Caster`].
pub struct CasterView {
    pub phase: CastPhase,
    pub cooldowns: Seq<Fix64>,
}

impl View for Caster {
    type V = CasterView;

    open spec fn view(&self) -> CasterView {
        CasterView { phase: self.phase, cooldowns: self.cooldowns@ }
    }
}

impl Caster {
    /// An idle caster with every cooldown at zero.
    pub fn new() -> (c: Caster)
        ensures
            c.phase == CastPhase::Idle,
            c.cooldowns@.len() == MAX_SKILL_SLOTS,
            forall|k: int| 0 <= k < MAX_SKILL_SLOTS ==> #[trigger] c.cooldowns@[k] == Fix64(0),
    {
        let mut cooldowns: Vec<Fix64> = Vec::new();
        let mut k: usize = 0;
        while k < MAX_SKILL_SLOTS
            invariant
                k <= MAX_SKILL_SLOTS,
                cooldowns@.len() == k,
                forall|j: int| 0 <= j < k ==> #[trigger] cooldowns@[j] == Fix64(0),
            decreases MAX_SKILL_SLOTS - k,
        {
            cooldowns.push(Fix64(0));
            k = k + 1;
        }
        Caster { phase: CastPhase::Idle, cooldowns }
    }

    /// The phase and the cooldowns, for snapshots.
    pub fn raw_snapshot(&self) -> (r: (CastPhase, &Vec<Fix64>))
        ensures
            r.0 == self.phase,
            r.1@ == self.cooldowns@,
    {
        (self.phase, &self.cooldowns)
    }

    /// Restores the phase and the cooldowns from a snapshot.
    pub fn raw_restore(&mut self, phase: CastPhase, cooldowns: Vec<Fix64>)
        ensures
            final(self).phase == phase,
            final(self).cooldowns@ == cooldowns@,
    {
        self.phase = phase;
        self.cooldowns = cooldowns;
    }
}

/// Flight behaviour of a roster projectile.
#[derive(Clone, Copy, Debug, PartialEq, Eq, Structural)]
pub enum W098bProjKind {
    Straight,
    Homing,
    Boomerang,
    Bounce,
    Magma,
}

/// Side effect of a roster projectile's hit.
#[derive(Clone, Copy, Debug, PartialEq, Eq, Structural)]
pub enum W098bOnHit {
    Ki,
    Cripple,
    ChainPull,
    Scorched,
    DrainSlow,
    Weaken,
    Recharge,
    RedChain,
    Silence,
    SwapTarget,
    CarrySelf,
}

} // verus!
