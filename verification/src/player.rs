//! Per-player state carried by snapshots.
//!
//! Quantities that the simulation keeps as binary64 floats are held here by their
//! bit pattern (a `u64`), which is all that snapshots and hashes read.

use vstd::prelude::*;
use crate::fix::{Fix64, Vec2};
use crate::skill::{Caster, CasterView, SkillId};

verus! {

/// Number of timed buff slots per player.
pub const MAX_BUFFS: usize = 16;
/// Capacity of a player's queued-command ring buffer.
pub const MAX_CMDS: usize = 16;
/// Number of mastery tracks (life, range, time).
pub const MASTERY_TRACKS: usize = 3;

/// Kind of a timed buff; `Speed` and `Slow` carry a factor as binary64 bits.
#[derive(Clone, Copy, Debug, PartialEq, Eq, Structural)]
pub enum BuffKind {
    Speed(u64),
    Reflect,
    Stealth,
    Tied,
    Boost,
    Scorched,
    LavaShield,
    Aegis,
    Pancake,
    Slow(u64),
    Weakened,
    Silenced,
    Mirror,
    Haste,
}

/// A timed buff slot.
#[derive(Clone, Copy, Debug, PartialEq, Eq, Structural)]
pub struct Buff {
    pub kind: BuffKind,
    pub remaining: Fix64,
}

/// A queued player command.
#[derive(Clone, Copy, Debug, PartialEq, Eq, Structural)]
pub enum Cmd {
    /// Walk to a point.
    Move(Vec2),
    /// Cast a skill, optionally at a point.
    Cast(SkillId, Option<Vec2>),
    /// Stop.
    Stop,
}

/// Forced movement (knockback and the like).
#[derive(Clone, Copy, Debug, PartialEq, Eq, Structural)]
pub struct Control {
    pub vel: Vec2,
    pub remaining: Fix64,
    pub decay: bool,
}

/// A pending contact kick.
#[derive(Clone, Copy, Debug, PartialEq, Eq, Structural)]
pub struct Kick {
    pub push_power: Fix64,
    pub push_time: Fix64,
    pub push_damage: Fix64,
    pub remaining: Fix64,
    pub stop_on_hit: bool,
}

/// A running bullet sweep; `cadence`, `turn_step` and `elapsed` are binary64 bits.
#[derive(Clone, Copy, Debug, PartialEq, Eq, Structural)]
pub struct SweepState {
    pub dir: Vec2,
    pub bullet_speed: Fix64,
    pub damage: Fix64,
    pub remaining: u32,
    pub cadence: u64,
    pub turn_step: u64,
    pub elapsed: u64,
    pub id: u32,
}

/// A rewind mark: position, hit points and time left.
#[derive(Clone, Copy, Debug, PartialEq, Eq, Structural)]
pub struct Rewind {
    pub pos: Vec2,
    pub hp: Fix64,
    pub remaining: Fix64,
}

/// The state of one player that a snapshot carries.
#[derive(Clone, Debug, PartialEq, Eq)]
pub struct Player {
    pub id: u32,
    pub pos: Vec2,
    pub radius: Fix64,
    pub hp: Fix64,
    pub max_hp: Fix64,
    pub rewind: Option<Rewind>,
    pub catastrophe_stage: u8,
    pub lava_boot_cd: Fix64,
    /// Mana, as binary64 bits.
    pub mana: u64,
    /// Damage growth, as binary64 bits.
    pub growth: u64,
    pub aegis_charged: bool,
    /// Mastery levels, one per track.
    pub mastery: Vec<u8>,
    /// Alternate-form flag per skill slot.
    pub forms: Vec<bool>,
    pub phoenix_remaining: Fix64,
    pub team: u8,
    /// Item codes. Which codes name an item is up to the item catalogue, which this
    /// library does not hold: codes are carried as plain numbers, and decoding a
    /// snapshot does not refuse an unknown one.
    pub items: Vec<u32>,
    pub move_target: Option<Vec2>,
    pub caster: Caster,
    /// Level per skill slot.
    pub skill_levels: Vec<u32>,
    pub last_hit_by: Option<u32>,
    pub control: Option<Control>,
    pub pull: Vec2,
    pub cur_vel: Vec2,
    pub buffs: Vec<Buff>,
    pub shadow_anchor: Option<Vec2>,
    pub shadow_window: Fix64,
    pub kick: Option<Kick>,
    pub boost_soaked: Fix64,
    pub s007_absorb: Fix64,
    pub s007_bonus: Fix64,
    pub fake_active: Option<Fix64>,
    pub blink2_window: Option<Fix64>,
    pub dash_active: bool,
    pub dash_vel: Vec2,
    pub burning: bool,
    pub charging: bool,
    pub parry_ready: bool,
    pub parry_cd: Fix64,
    pub ricochet_pending: Option<Fix64>,
    pub ricochet_kick: Option<Kick>,
    pub ricochet_window: Fix64,
    pub sweep: Option<SweepState>,
    /// Damage bonus, as binary64 bits.
    pub damageplus: u64,
    /// Queued-command ring buffer.
    pub cmd_buf: Vec<Cmd>,
    pub cmd_head: usize,
    pub cmd_len: usize,
    pub alive: bool,
}

/// The mathematical value of a [`Player`]: the same fields, sequences in place of vectors.
pub struct PlayerView {
    pub id: u32,
    pub pos: Vec2,
    pub radius: Fix64,
    pub hp: Fix64,
    pub max_hp: Fix64,
    pub rewind: Option<Rewind>,
    pub catastrophe_stage: u8,
    pub lava_boot_cd: Fix64,
    pub mana: u64,
    pub growth: u64,
    pub aegis_charged: bool,
    pub mastery: Seq<u8>,
    pub forms: Seq<bool>,
    pub phoenix_remaining: Fix64,
    pub team: u8,
    pub items: Seq<u32>,
    pub move_target: Option<Vec2>,
    pub caster: CasterView,
    pub skill_levels: Seq<u32>,
    pub last_hit_by: Option<u32>,
    pub control: Option<Control>,
    pub pull: Vec2,
    pub cur_vel: Vec2,
    pub buffs: Seq<Buff>,
    pub shadow_anchor: Option<Vec2>,
    pub shadow_window: Fix64,
    pub kick: Option<Kick>,
    pub boost_soaked: Fix64,
    pub s007_absorb: Fix64,
    pub s007_bonus: Fix64,
    pub fake_active: Option<Fix64>,
    pub blink2_window: Option<Fix64>,
    pub dash_active: bool,
    pub dash_vel: Vec2,
    pub burning: bool,
    pub charging: bool,
    pub parry_ready: bool,
    pub parry_cd: Fix64,
    pub ricochet_pending: Option<Fix64>,
    pub ricochet_kick: Option<Kick>,
    pub ricochet_window: Fix64,
    pub sweep: Option<SweepState>,
    pub damageplus: u64,
    pub cmd_buf: Seq<Cmd>,
    pub cmd_head: usize,
    pub cmd_len: usize,
    pub alive: bool,
}

impl View for Player {
    type V = PlayerView;

    open spec fn view(&self) -> PlayerView {
        PlayerView {
            id: self.id,
            pos: self.pos,
            radius: self.radius,
            hp: self.hp,
            max_hp: self.max_hp,
            rewind: self.rewind,
            catastrophe_stage: self.catastrophe_stage,
            lava_boot_cd: self.lava_boot_cd,
            mana: self.mana,
            growth: self.growth,
            aegis_charged: self.aegis_charged,
            mastery: self.mastery@,
            forms: self.forms@,
            phoenix_remaining: self.phoenix_remaining,
            team: self.team,
            items: self.items@,
            move_target: self.move_target,
            caster: self.caster@,
            skill_levels: self.skill_levels@,
            last_hit_by: self.last_hit_by,
            control: self.control,
            pull: self.pull,
            cur_vel: self.cur_vel,
            buffs: self.buffs@,
            shadow_anchor: self.shadow_anchor,
            shadow_window: self.shadow_window,
            kick: self.kick,
            boost_soaked: self.boost_soaked,
            s007_absorb: self.s007_absorb,
            s007_bonus: self.s007_bonus,
            fake_active: self.fake_active,
            blink2_window: self.blink2_window,
            dash_active: self.dash_active,
            dash_vel: self.dash_vel,
            burning: self.burning,
            charging: self.charging,
            parry_ready: self.parry_ready,
            parry_cd: self.parry_cd,
            ricochet_pending: self.ricochet_pending,
            ricochet_kick: self.ricochet_kick,
            ricochet_window: self.ricochet_window,
            sweep: self.sweep,
            damageplus: self.damageplus,
            cmd_buf: self.cmd_buf@,
            cmd_head: self.cmd_head,
            cmd_len: self.cmd_len,
            alive: self.alive,
        }
    }
}

} // verus!
