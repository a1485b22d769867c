//! World-level data: inputs, projectiles, obstacles, presentation events, and the
//! state that a snapshot carries.

use vstd::prelude::*;
use crate::fix::{Fix64, Vec2};
use crate::skill::{SkillId, W098bProjKind, W098bOnHit};
use crate::player::{Cmd, Player, PlayerView};

verus! {

/// One player's input for one frame.
#[derive(Clone, Debug, Default, PartialEq)]
pub struct PlayerInput {
    /// Walk straight towards this point.
    pub set_target: Option<Vec2>,
    /// Try to cast this skill, at an optional point.
    pub cast: Option<(SkillId, Option<Vec2>)>,
    /// Commands queued this frame.
    pub queued: Vec<Cmd>,
    /// Clear this player's command queue first.
    pub clear_queue: bool,
    /// Drop the current movement target.
    pub stop_move: bool,
}

/// How a scatter line releases its bullets.
#[derive(Clone, Copy, Debug, PartialEq, Eq, Structural)]
pub enum ScatterKind {
    /// One fan of `count` bullets at the end, `step_rad` apart.
    Burst { count: u32, step_rad: Fix64, bullet_speed: Fix64 },
    /// One bullet every `interval` seconds in flight, turning by `turn_rad` each time.
    Periodic { count: u32, interval: Fix64, elapsed: Fix64, bullet_speed: Fix64, turn_rad: Fix64 },
}

/// What a projectile or timed area is, with its own state.
#[derive(Clone, Copy, Debug, PartialEq, Eq, Structural)]
pub enum ProjectileKind {
    Rock { fuse: Fix64, radius: Fix64, damage: Fix64, bomb_force: Fix64 },
    Decoy { radius: Fix64, lifetime: Fix64 },
    Bullet { dir: Vec2, speed: Fix64, damage: Fix64, radius: Fix64, remaining: Fix64 },
    Missile { dir: Vec2, speed: Fix64, damage: Fix64, radius: Fix64, push_power: Fix64, push_time: Fix64, remaining: Fix64 },
    Boomerang { vel: Vec2, accelerate: Fix64, damage: Fix64, radius: Fix64, push_power: Fix64, push_time: Fix64, life: Fix64, owner_pos: Vec2 },
    Banana { dir: Vec2, speed: Fix64, turn: Fix64, damage: Fix64, radius: Fix64, push_power: Fix64, push_time: Fix64, life: Fix64 },
    Rolling { dir: Vec2, speed: Fix64, damage_per_sec: Fix64, radius: Fix64, remaining: Fix64 },
    ScatterLine { dir: Vec2, speed: Fix64, remaining: Fix64, scatter: ScatterKind },
    Beam { dir: Vec2, length: Fix64, width: Fix64, damage_per_sec: Fix64, remaining: Fix64 },
    Chain { dir: Vec2, speed: Fix64, damage: Fix64, heal: Fix64, ratio: Fix64, ratio_decay: Fix64, life: Fix64, last_target: u32, owner: u32, max_chain: u32, hit_count: u32, turn_delay: Fix64 },
    BonusBomb { dir: Vec2, speed: Fix64, damage: Fix64, radius: Fix64, push_power: Fix64, push_time: Fix64, remaining: Fix64, owner: u32 },
    Returner { dir: Vec2, speed: Fix64, damage: Fix64, radius: Fix64, push_power: Fix64, push_time: Fix64, owner: u32 },
    Tether { owner: u32, target: u32, damage_per_sec: Fix64, pull_speed: Fix64, remaining: Fix64, beam: bool },
    Gravity { dir: Vec2, speed: Fix64, radius: Fix64, pull_speed: Fix64, damage_per_sec: Fix64, remaining: Fix64 },
    Star { owner: u32, radius: Fix64, damage_per_sec: Fix64, heal_per_sec: Fix64, remaining: Fix64, heal_team: bool },
    BindLine { dir: Vec2, speed: Fix64, count: u32, fired: u32, bind_time: Fix64, from: Vec2, end: Vec2 },
    PushBullet { dir: Vec2, speed: Fix64, damage: Fix64, radius: Fix64, push_power: Fix64, push_time: Fix64, remaining: Fix64 },
    /// Roster projectile; `emit_angle` is binary64 bits.
    W098b {
        proj: W098bProjKind,
        vel: Vec2,
        speed: Fix64,
        radius: Fix64,
        remaining: Fix64,
        life: Fix64,
        gx: Fix64,
        kb_ji: Fix64,
        ignite: Option<Fix64>,
        blast: Option<Fix64>,
        target: Option<u32>,
        returning: bool,
        on_hit: W098bOnHit,
        debuff_dur: Fix64,
        lateral: Fix64,
        forward_dir: Vec2,
        burst: u8,
        emit_cooldown: Fix64,
        emit_angle: u64,
        out_dist: Fix64,
        pillar_rest: Fix64,
        pillar_bounce: bool,
        lightning_dmg: Fix64,
    },
    Clone { owner: u32, offset: Vec2, fire_timer: Fix64, fire_cd: Fix64, fire_dmg: Fix64, remaining: Fix64 },
    DelayedBlast { radius: Fix64, damage: Fix64, kb_ji: Fix64, falloff_denom: Fix64, remaining: Fix64 },
}

/// A projectile or timed area on the field.
#[derive(Clone, Copy, Debug, PartialEq, Eq, Structural)]
pub struct Projectile {
    /// Owning player (immune to its own damage).
    pub owner: u32,
    pub kind: ProjectileKind,
    pub pos: Vec2,
    pub alive: bool,
}

/// A static circular obstacle (a pillar).
#[derive(Clone, Copy, Debug, PartialEq, Eq, Structural)]
pub struct Obstacle {
    pub pos: Vec2,
    pub radius: Fix64,
    /// Hit points left.
    pub hp: u32,
}

/// Presentation-only combat events; never part of snapshots or hashes.
#[derive(Clone, Copy, Debug, PartialEq, Eq, Structural)]
pub enum CombatEvent {
    MultiHit { owner: u32, pos: Vec2, vampire: bool },
    Pancake { victim: u32, pos: Vec2 },
    Silencer { owner: u32, pos: Vec2 },
    Denied { owner: u32, pos: Vec2 },
    Burnout { owner: u32, pos: Vec2 },
    PillarBreak { pos: Vec2 },
    Explode { pos: Vec2, radius: Fix64 },
    Splash { pos: Vec2, radius: Fix64 },
    HealPulse { pos: Vec2, radius: Fix64 },
}

/// The state of a match, as snapshots carry it: two peers that hold equal worlds continue
/// the match identically.
#[derive(Clone, Debug, PartialEq, Eq)]
pub struct World {
    pub arena_radius: Fix64,
    /// Single-player practice mode.
    pub sandbox: bool,
    /// Seed of the obstacle layout of this round.
    pub round_seed: u64,
    pub time: Fix64,
    pub players: Vec<Player>,
    pub round_number: u32,
    /// Ice discs: centre and radius.
    pub ice: Vec<(Vec2, Fix64)>,
    /// Game mode.
    pub mode: u8,
    pub avatar: Option<u32>,
    pub kings: Vec<u32>,
    /// Replacement skill of each player's last slot.
    pub f_override: Vec<Option<SkillId>>,
    pub round_forced: bool,
    /// `damage_matrix[attacker][victim]`: damage dealt this round.
    pub damage_matrix: Vec<Vec<Fix64>>,
    pub avatar_score: Vec<Fix64>,
    pub obstacles: Vec<Obstacle>,
    pub projectiles: Vec<Projectile>,
    /// Player indices in order of elimination.
    pub eliminated_order: Vec<u32>,
    /// `(killer, victim)` pairs of this round.
    pub kills_this_round: Vec<(u32, u32)>,
    pub shrink_timer: Fix64,
    pub pending_avatar: Option<u32>,
    pub pending_kings: Vec<u32>,
}

/// The mathematical value of a [`World`].
pub struct WorldView {
    pub arena_radius: Fix64,
    pub sandbox: bool,
    pub round_seed: u64,
    pub time: Fix64,
    pub players: Seq<PlayerView>,
    pub round_number: u32,
    pub ice: Seq<(Vec2, Fix64)>,
    pub mode: u8,
    pub avatar: Option<u32>,
    pub kings: Seq<u32>,
    pub f_override: Seq<Option<SkillId>>,
    pub round_forced: bool,
    pub damage_matrix: Seq<Seq<Fix64>>,
    pub avatar_score: Seq<Fix64>,
    pub obstacles: Seq<Obstacle>,
    pub projectiles: Seq<Projectile>,
    pub eliminated_order: Seq<u32>,
    pub kills_this_round: Seq<(u32, u32)>,
    pub shrink_timer: Fix64,
    pub pending_avatar: Option<u32>,
    pub pending_kings: Seq<u32>,
}

/// The views of a list of players.
pub open spec fn players_view(ps: Seq<Player>) -> Seq<PlayerView> {
    ps.map_values(|p: Player| p@)
}

/// The views of the rows of a matrix.
pub open spec fn rows_view(rows: Seq<Vec<Fix64>>) -> Seq<Seq<Fix64>> {
    rows.map_values(|r: Vec<Fix64>| r@)
}

impl View for World {
    type V = WorldView;

    open spec fn view(&self) -> WorldView {
        WorldView {
            arena_radius: self.arena_radius,
            sandbox: self.sandbox,
            round_seed: self.round_seed,
            time: self.time,
            players: players_view(self.players@),
            round_number: self.round_number,
            ice: self.ice@,
            mode: self.mode,
            avatar: self.avatar,
            kings: self.kings@,
            f_override: self.f_override@,
            round_forced: self.round_forced,
            damage_matrix: rows_view(self.damage_matrix@),
            avatar_score: self.avatar_score@,
            obstacles: self.obstacles@,
            projectiles: self.projectiles@,
            eliminated_order: self.eliminated_order@,
            kills_this_round: self.kills_this_round@,
            shrink_timer: self.shrink_timer,
            pending_avatar: self.pending_avatar,
            pending_kings: self.pending_kings@,
        }
    }
}

/// The players that are alive, in player order.
pub open spec fn alive_of(ps: Seq<PlayerView>) -> Seq<PlayerView>
    decreases ps.len(),
{
    if ps.len() == 0 {
        Seq::empty()
    } else if ps.last().alive {
        alive_of(ps.drop_last()).push(ps.last())
    } else {
        alive_of(ps.drop_last())
    }
}

/// The indices of the players that are alive, in player order.
pub open spec fn alive_ids_of(ps: Seq<PlayerView>) -> Seq<u32> {
    alive_of(ps).map_values(|p: PlayerView| p.id)
}

/// Whether the round is over: never in practice mode; always once forced; when nobody
/// is alive; in last-man-standing mode (5) when every survivor was last hit by one same
/// player; otherwise when all survivors are on one team.
pub open spec fn round_over_spec(w: WorldView) -> bool {
    let alive = alive_of(w.players);
    if w.sandbox {
        false
    } else if w.round_forced {
        true
    } else if alive.len() == 0 {
        true
    } else if w.mode == 5 && (forall|i: int| 0 <= i < alive.len() ==> (#[trigger] alive[i]).last_hit_by is Some)
        && (forall|i: int| 0 <= i < alive.len() ==> (#[trigger] alive[i]).last_hit_by == alive[0].last_hit_by) {
        true
    } else {
        forall|i: int| 0 <= i < alive.len() ==> (#[trigger] alive[i]).team == alive[0].team
    }
}

/// Whether `p` is one of the alive players of `ps`.
spec fn alive_in(ps: Seq<PlayerView>, p: PlayerView) -> bool {
    exists|j: int| 0 <= j < ps.len() && ps[j].alive && ps[j] == p
}

/// The alive players are exactly the players of the list that are alive.
proof fn lemma_alive_members(ps: Seq<PlayerView>)
    ensures
        forall|i: int| 0 <= i < alive_of(ps).len() ==> alive_in(ps, #[trigger] alive_of(ps)[i]),
        forall|j: int| 0 <= j < ps.len() && ps[j].alive ==> alive_of(ps).contains(#[trigger] ps[j]),
    decreases ps.len(),
{
    if ps.len() > 0 {
        let p1 = ps.drop_last();
        let last = ps.last();
        lemma_alive_members(p1);
        let a1 = alive_of(p1);
        let a = alive_of(ps);
        assert forall|j: int| 0 <= j < p1.len() implies #[trigger] p1[j] == ps[j] by {}
        if last.alive {
            assert(a == a1.push(last));
        } else {
            assert(a == a1);
        }
        assert forall|i: int| 0 <= i < a.len() implies alive_in(ps, #[trigger] a[i]) by {
            if i < a1.len() {
                assert(a[i] == a1[i]);
                assert(alive_in(p1, a1[i]));
                let j = choose|j: int| 0 <= j < p1.len() && p1[j].alive && p1[j] == a1[i];
                assert(ps[j] == p1[j]);
            } else {
                assert(ps[ps.len() - 1] == last);
                assert(a[i] == last);
            }
        }
        assert forall|j: int| 0 <= j < ps.len() && ps[j].alive implies a.contains(#[trigger] ps[j]) by {
            if j < p1.len() {
                assert(ps[j] == p1[j]);
                assert(a1.contains(p1[j]));
                let k = choose|k: int| 0 <= k < a1.len() && a1[k] == p1[j];
                assert(a[k] == a1[k]);
            } else {
                assert(a[a.len() - 1] == last);
            }
        }
    }
}

/// Law (end of a round), over the players themselves:
/// - the practice sandbox never ends;
/// - outside it, a forced round is over;
/// - in every mode, the round is over when all survivors (if any) are on one team; a
///   lone survivor always ends it;
/// - in last-man-standing mode (5), it is also over when every survivor was last hit,
///   and by one same player;
/// - otherwise it goes on: when two survivors are on different teams, the round goes on
///   outside mode 5, and in mode 5 as soon as some survivor was never hit or two were
///   last hit by different players.
pub proof fn law_round_over(w: WorldView)
    ensures
        w.sandbox ==> !round_over_spec(w),
        !w.sandbox && w.round_forced ==> round_over_spec(w),
        !w.sandbox && (forall|i: int, j: int|
            0 <= i < w.players.len() && 0 <= j < w.players.len() && w.players[i].alive && w.players[j].alive
                ==> #[trigger] w.players[i].team == #[trigger] w.players[j].team) ==> round_over_spec(w),
        !w.sandbox && w.mode == 5 && (forall|i: int|
            0 <= i < w.players.len() && w.players[i].alive ==> (#[trigger] w.players[i]).last_hit_by is Some) && (
        forall|i: int, j: int|
            0 <= i < w.players.len() && 0 <= j < w.players.len() && w.players[i].alive && w.players[j].alive
                ==> #[trigger] w.players[i].last_hit_by == #[trigger] w.players[j].last_hit_by) ==> round_over_spec(w),
        !w.sandbox && !w.round_forced && (exists|i: int, j: int|
            0 <= i < w.players.len() && 0 <= j < w.players.len() && w.players[i].alive && w.players[j].alive
                && #[trigger] w.players[i].team != #[trigger] w.players[j].team) && (w.mode != 5 || (exists|i: int|
            0 <= i < w.players.len() && w.players[i].alive && (#[trigger] w.players[i]).last_hit_by is None) || (
        exists|i: int, j: int|
            0 <= i < w.players.len() && 0 <= j < w.players.len() && w.players[i].alive && w.players[j].alive
                && #[trigger] w.players[i].last_hit_by != #[trigger] w.players[j].last_hit_by)) ==> !round_over_spec(w),
{
    let ps = w.players;
    let al = alive_of(ps);
    lemma_alive_members(ps);
    if !w.sandbox && (forall|i: int, j: int|
        0 <= i < ps.len() && 0 <= j < ps.len() && ps[i].alive && ps[j].alive ==> #[trigger] ps[i].team
            == #[trigger] ps[j].team) {
        if al.len() > 0 {
            assert(alive_in(ps, al[0]));
            let j0 = choose|j: int| 0 <= j < ps.len() && ps[j].alive && ps[j] == al[0];
            assert forall|x: int| 0 <= x < al.len() implies (#[trigger] al[x]).team == al[0].team by {
                assert(alive_in(ps, al[x]));
                let j = choose|j: int| 0 <= j < ps.len() && ps[j].alive && ps[j] == al[x];
                assert(ps[j].team == ps[j0].team);
            }
        }
    }
    if !w.sandbox && w.mode == 5 && (forall|i: int|
        0 <= i < ps.len() && ps[i].alive ==> (#[trigger] ps[i]).last_hit_by is Some) && (forall|i: int, j: int|
        0 <= i < ps.len() && 0 <= j < ps.len() && ps[i].alive && ps[j].alive ==> #[trigger] ps[i].last_hit_by
            == #[trigger] ps[j].last_hit_by) {
        if al.len() > 0 {
            assert(alive_in(ps, al[0]));
            let j0 = choose|j: int| 0 <= j < ps.len() && ps[j].alive && ps[j] == al[0];
            assert forall|x: int| 0 <= x < al.len() implies (#[trigger] al[x]).last_hit_by is Some
                && al[x].last_hit_by == al[0].last_hit_by by {
                assert(alive_in(ps, al[x]));
                let j = choose|j: int| 0 <= j < ps.len() && ps[j].alive && ps[j] == al[x];
                assert(ps[j].last_hit_by == ps[j0].last_hit_by);
                assert(ps[j].last_hit_by is Some);
            }
        }
    }
    if !w.sandbox && !w.round_forced && (exists|i: int, j: int|
        0 <= i < ps.len() && 0 <= j < ps.len() && ps[i].alive && ps[j].alive && #[trigger] ps[i].team
            != #[trigger] ps[j].team) && (w.mode != 5 || (exists|i: int|
        0 <= i < ps.len() && ps[i].alive && (#[trigger] ps[i]).last_hit_by is None) || (exists|i: int, j: int|
        0 <= i < ps.len() && 0 <= j < ps.len() && ps[i].alive && ps[j].alive && #[trigger] ps[i].last_hit_by
            != #[trigger] ps[j].last_hit_by)) {
        let (i, j) = choose|i: int, j: int|
            0 <= i < ps.len() && 0 <= j < ps.len() && ps[i].alive && ps[j].alive && #[trigger] ps[i].team
                != #[trigger] ps[j].team;
        assert(al.contains(ps[i]));
        assert(al.contains(ps[j]));
        let xi = choose|x: int| 0 <= x < al.len() && al[x] == ps[i];
        let xj = choose|x: int| 0 <= x < al.len() && al[x] == ps[j];
        assert(al.len() > 0);
        assert(!(forall|x: int| 0 <= x < al.len() ==> (#[trigger] al[x]).team == al[0].team)) by {
            if al[xi].team == al[0].team {
                assert(al[xj].team != al[0].team);
            }
        }
        if w.mode == 5 {
            if exists|i: int| 0 <= i < ps.len() && ps[i].alive && (#[trigger] ps[i]).last_hit_by is None {
                let k = choose|k: int| 0 <= k < ps.len() && ps[k].alive && (#[trigger] ps[k]).last_hit_by is None;
                assert(al.contains(ps[k]));
                let x = choose|x: int| 0 <= x < al.len() && al[x] == ps[k];
                assert(!(al[x].last_hit_by is Some));
            } else {
                let (a, b) = choose|a: int, b: int|
                    0 <= a < ps.len() && 0 <= b < ps.len() && ps[a].alive && ps[b].alive
                        && #[trigger] ps[a].last_hit_by != #[trigger] ps[b].last_hit_by;
                assert(al.contains(ps[a]));
                assert(al.contains(ps[b]));
                let xa = choose|x: int| 0 <= x < al.len() && al[x] == ps[a];
                let xb = choose|x: int| 0 <= x < al.len() && al[x] == ps[b];
                assert(!(forall|x: int| 0 <= x < al.len() ==> (#[trigger] al[x]).last_hit_by == al[0].last_hit_by)) by {
                    if al[xa].last_hit_by == al[0].last_hit_by {
                        assert(al[xb].last_hit_by != al[0].last_hit_by);
                    }
                }
            }
        }
    }
}

/// Whether `a` may be credited with an assist on `victim` killed by `killer`: neither
/// the victim's own row nor the killer's.
pub open spec fn assist_eligible(a: int, victim: u32, killer: u32) -> bool {
    a != victim && (a as u32) != killer
}

/// Whether a sequence of words is in ascending order.
pub open spec fn ascending(s: Seq<u32>) -> bool {
    forall|i: int, j: int| 0 <= i < j < s.len() ==> s[i] <= s[j]
}

proof fn lemma_alive_step(ps: Seq<PlayerView>, k: int)
    requires
        0 <= k < ps.len(),
    ensures
        alive_of(ps.take(k + 1)) == (if ps[k].alive {
            alive_of(ps.take(k)).push(ps[k])
        } else {
            alive_of(ps.take(k))
        }),
{
    assert(ps.take(k + 1).drop_last() =~= ps.take(k));
}

/// Inserting into a sequence adds exactly that element to its multiset.
proof fn lemma_insert_multiset_u32(s: Seq<u32>, j: int, x: u32)
    requires
        0 <= j <= s.len(),
    ensures
        s.insert(j, x).to_multiset() =~= s.to_multiset().insert(x),
{
    broadcast use vstd::multiset::group_multiset_axioms;
    broadcast use vstd::seq_lib::group_to_multiset_ensures;

    let t = s.insert(j, x);
    assert(t.remove(j) =~= s);
    assert(t[j] == x);
    assert(t.to_multiset().count(x) > 0) by {
        assert(t.contains(x));
    }
}

/// The eliminated players in ranking order: `e` read from its last entry to its first,
/// leaving out the ids already in `ranked` and any id met before (a player eliminated
/// more than once is ranked by the last elimination).
pub open spec fn fallen(e: Seq<u32>, ranked: Seq<u32>) -> Seq<u32>
    decreases e.len(),
{
    if e.len() == 0 {
        Seq::empty()
    } else if ranked.contains(e.last()) {
        fallen(e.drop_last(), ranked)
    } else {
        seq![e.last()] + fallen(e.drop_last(), ranked.push(e.last()))
    }
}

/// `fallen` depends only on which ids are already ranked.
proof fn lemma_fallen_same_members(e: Seq<u32>, s1: Seq<u32>, s2: Seq<u32>)
    requires
        forall|x: u32| s1.contains(x) == s2.contains(x),
    ensures
        fallen(e, s1) == fallen(e, s2),
    decreases e.len(),
{
    if e.len() > 0 {
        let y = e.last();
        assert forall|x: u32| s1.push(y).contains(x) == s2.push(y).contains(x) by {
            if s1.push(y).contains(x) {
                let i = choose|i: int| 0 <= i < s1.push(y).len() && s1.push(y)[i] == x;
                if i < s1.len() {
                    assert(s1.contains(x));
                    let j = choose|j: int| 0 <= j < s2.len() && s2[j] == x;
                    assert(s2.push(y)[j] == x);
                } else {
                    assert(s2.push(y)[s2.len() as int] == x);
                }
            }
            if s2.push(y).contains(x) {
                let i = choose|i: int| 0 <= i < s2.push(y).len() && s2.push(y)[i] == x;
                if i < s2.len() {
                    assert(s2.contains(x));
                    let j = choose|j: int| 0 <= j < s1.len() && s1[j] == x;
                    assert(s1.push(y)[j] == x);
                } else {
                    assert(s1.push(y)[s1.len() as int] == x);
                }
            }
        }
        lemma_fallen_same_members(e.drop_last(), s1, s2);
        lemma_fallen_same_members(e.drop_last(), s1.push(y), s2.push(y));
    }
}

/// What `fallen` holds: no id twice, none of the ranked ones, only ids of `e`, and every
/// id of `e` that is not ranked yet.
pub proof fn lemma_fallen(e: Seq<u32>, ranked: Seq<u32>)
    ensures
        fallen(e, ranked).no_duplicates(),
        fallen(e, ranked).len() <= e.len(),
        forall|i: int| 0 <= i < fallen(e, ranked).len() ==> !ranked.contains(#[trigger] fallen(e, ranked)[i]),
        forall|i: int| 0 <= i < fallen(e, ranked).len() ==> e.contains(#[trigger] fallen(e, ranked)[i]),
        forall|x: u32| #[trigger] e.contains(x) && !ranked.contains(x) ==> fallen(e, ranked).contains(x),
    decreases e.len(),
{
    if e.len() > 0 {
        let x = e.last();
        let e1 = e.drop_last();
        assert forall|y: u32| e1.contains(y) implies e.contains(y) by {
            let i = choose|i: int| 0 <= i < e1.len() && e1[i] == y;
            assert(e[i] == y);
        }
        assert forall|y: u32| #[trigger] e.contains(y) && y != x implies e1.contains(y) by {
            let i = choose|i: int| 0 <= i < e.len() && e[i] == y;
            assert(i < e1.len());
            assert(e1[i] == y);
        }
        assert(e[e.len() - 1] == x);
        if ranked.contains(x) {
            lemma_fallen(e1, ranked);
        } else {
            let r1 = ranked.push(x);
            lemma_fallen(e1, r1);
            let f1 = fallen(e1, r1);
            let f = fallen(e, ranked);
            assert(f == seq![x] + f1);
            assert forall|y: u32| ranked.contains(y) implies r1.contains(y) by {
                let i = choose|i: int| 0 <= i < ranked.len() && ranked[i] == y;
                assert(r1[i] == y);
            }
            assert(r1[ranked.len() as int] == x);
            assert forall|i: int| 0 <= i < f.len() implies !ranked.contains(#[trigger] f[i]) by {
                if i > 0 {
                    assert(f[i] == f1[i - 1]);
                }
            }
            assert forall|i: int| 0 <= i < f.len() implies e.contains(#[trigger] f[i]) by {
                if i > 0 {
                    assert(f[i] == f1[i - 1]);
                }
            }
            assert forall|i: int, j: int| 0 <= i < f.len() && 0 <= j < f.len() && i != j implies f[i] != f[j] by {
                if i > 0 && j > 0 {
                    assert(f[i] == f1[i - 1] && f[j] == f1[j - 1]);
                } else if i == 0 {
                    assert(f[j] == f1[j - 1]);
                    assert(!r1.contains(f1[j - 1]));
                } else {
                    assert(f[i] == f1[i - 1]);
                    assert(!r1.contains(f1[i - 1]));
                }
            }
            assert forall|y: u32| #[trigger] e.contains(y) && !ranked.contains(y) implies f.contains(y) by {
                if y == x {
                    assert(f[0] == x);
                } else {
                    assert(e1.contains(y));
                    if r1.contains(y) {
                        let i = choose|i: int| 0 <= i < r1.len() && r1[i] == y;
                        assert(ranked[i] == y);
                    }
                    let k = choose|k: int| 0 <= k < f1.len() && f1[k] == y;
                    assert(f[k + 1] == y);
                }
            }
        }
    }
}

/// The ids of a list of players, in player order.
pub open spec fn ids_of(ps: Seq<PlayerView>) -> Seq<u32> {
    ps.map_values(|p: PlayerView| p.id)
}

/// Whether `x` is the id of an alive player.
spec fn is_alive_id(ps: Seq<PlayerView>, x: u32) -> bool {
    exists|j: int| 0 <= j < ps.len() && ps[j].alive && ps[j].id == x
}

/// The alive ids are the ids of alive players, each alive player's id among them, and
/// distinct when the player ids are.
proof fn lemma_alive_ids(ps: Seq<PlayerView>)
    ensures
        forall|i: int| 0 <= i < alive_ids_of(ps).len() ==> is_alive_id(ps, #[trigger] alive_ids_of(ps)[i]),
        forall|j: int| 0 <= j < ps.len() && ps[j].alive ==> alive_ids_of(ps).contains(#[trigger] ps[j].id),
        ids_of(ps).no_duplicates() ==> alive_ids_of(ps).no_duplicates(),
    decreases ps.len(),
{
    if ps.len() > 0 {
        let p1 = ps.drop_last();
        let last = ps.last();
        lemma_alive_ids(p1);
        let a1 = alive_ids_of(p1);
        let a = alive_ids_of(ps);
        assert(ids_of(p1) =~= ids_of(ps).drop_last());
        assert forall|j: int| 0 <= j < p1.len() implies #[trigger] p1[j] == ps[j] by {}
        if last.alive {
            assert(a =~= a1.push(last.id));
        } else {
            assert(a =~= a1);
        }
        assert forall|i: int| 0 <= i < a.len() implies is_alive_id(ps, #[trigger] a[i]) by {
            if i < a1.len() {
                assert(a[i] == a1[i]);
                assert(is_alive_id(p1, a1[i]));
                let j = choose|j: int| 0 <= j < p1.len() && p1[j].alive && p1[j].id == a1[i];
                assert(ps[j] == p1[j]);
            } else {
                assert(ps[ps.len() - 1] == last);
                assert(a[i] == last.id);
            }
        }
        assert forall|j: int| 0 <= j < ps.len() && ps[j].alive implies a.contains(#[trigger] ps[j].id) by {
            if j < p1.len() {
                assert(ps[j] == p1[j]);
                assert(a1.contains(p1[j].id));
                let k = choose|k: int| 0 <= k < a1.len() && a1[k] == p1[j].id;
                assert(a[k] == a1[k]);
            } else {
                assert(a[a.len() - 1] == last.id);
            }
        }
        if ids_of(ps).no_duplicates() && last.alive {
            assert forall|i: int| 0 <= i < a1.len() implies a1[i] != last.id by {
                assert(is_alive_id(p1, a1[i]));
                let j = choose|j: int| 0 <= j < p1.len() && p1[j].alive && p1[j].id == a1[i];
                assert(ids_of(ps)[j] == p1[j].id);
                assert(ids_of(ps)[ps.len() - 1] == last.id);
            }
            assert forall|i: int, k: int| 0 <= i < a.len() && 0 <= k < a.len() && i != k implies a[i] != a[k] by {
                if i < a1.len() && k < a1.len() {
                    assert(a[i] == a1[i] && a[k] == a1[k]);
                } else if i < a1.len() {
                    assert(a[i] == a1[i]);
                } else {
                    assert(a[k] == a1[k]);
                }
            }
        }
    } else {
        assert(alive_ids_of(ps) =~= Seq::<u32>::empty());
    }
}

/// Law (one place per player): when the player ids are distinct and every eliminated id
/// is a player's, the ranked part of a placement (the alive ids, then the fallen) holds
/// each id at most once, only player ids, and every player that is alive or was
/// eliminated; so it fits in the number of players, and fills it exactly when every
/// player who is not alive was eliminated.
pub proof fn law_placement_ranks_each_player_once(ps: Seq<PlayerView>, e: Seq<u32>)
    requires
        ids_of(ps).no_duplicates(),
        forall|i: int| 0 <= i < e.len() ==> ids_of(ps).contains(#[trigger] e[i]),
    ensures
        ({
            let a = alive_ids_of(ps);
            let ranked = a + fallen(e, a);
            &&& ranked.no_duplicates()
            &&& forall|x: u32| ranked.contains(x) ==> ids_of(ps).contains(x)
            &&& forall|j: int|
                0 <= j < ps.len() && (ps[j].alive || e.contains(ps[j].id)) ==> ranked.contains(#[trigger] ps[j].id)
            &&& ranked.len() <= ps.len()
            &&& (forall|j: int| 0 <= j < ps.len() && !ps[j].alive ==> e.contains(#[trigger] ps[j].id)) ==> ranked.len()
                == ps.len()
        }),
{
    let a = alive_ids_of(ps);
    let f = fallen(e, a);
    let ranked = a + f;
    let ids = ids_of(ps);
    lemma_alive_ids(ps);
    lemma_fallen(e, a);
    assert forall|i: int, j: int| 0 <= i < a.len() && 0 <= j < f.len() implies a[i] != f[j] by {
        assert(!a.contains(f[j]));
    }
    vstd::seq_lib::lemma_no_dup_in_concat(a, f);
    assert forall|x: u32| ranked.contains(x) implies ids.contains(x) by {
        let i = choose|i: int| 0 <= i < ranked.len() && ranked[i] == x;
        if i < a.len() {
            assert(a[i] == x);
            assert(is_alive_id(ps, a[i]));
            let j = choose|j: int| 0 <= j < ps.len() && ps[j].alive && ps[j].id == a[i];
            assert(ids[j] == x);
        } else {
            assert(f[i - a.len()] == x);
            assert(e.contains(x));
            let k = choose|k: int| 0 <= k < e.len() && e[k] == x;
            assert(ids.contains(e[k]));
        }
    }
    assert forall|j: int| 0 <= j < ps.len() && (ps[j].alive || e.contains(ps[j].id)) implies ranked.contains(
        #[trigger] ps[j].id,
    ) by {
        let x = ps[j].id;
        if a.contains(x) {
            let k = choose|k: int| 0 <= k < a.len() && a[k] == x;
            assert(ranked[k] == x);
        } else {
            assert(e.contains(x));
            assert(f.contains(x));
            let k = choose|k: int| 0 <= k < f.len() && f[k] == x;
            assert(ranked[a.len() + k] == x);
        }
    }
    ranked.unique_seq_to_set();
    assert(ranked.to_set().subset_of(ids.to_set()));
    vstd::set_lib::lemma_len_subset(ranked.to_set(), ids.to_set());
    ids.lemma_cardinality_of_set();
    assert(ids.len() == ps.len());
    if forall|j: int| 0 <= j < ps.len() && !ps[j].alive ==> e.contains(#[trigger] ps[j].id) {
        ids.unique_seq_to_set();
        assert forall|x: u32| ids.to_set().contains(x) implies ranked.to_set().contains(x) by {
            let j = choose|j: int| 0 <= j < ids.len() && ids[j] == x;
            assert(ps[j].id == x);
        }
        assert(ids.to_set().subset_of(ranked.to_set()));
        vstd::set_lib::lemma_len_subset(ids.to_set(), ranked.to_set());
    }
}

/// Whether a list of words holds `x`.
fn contains_u32(v: &Vec<u32>, x: u32) -> (r: bool)
    ensures
        r == v@.contains(x),
{
    let mut i: usize = 0;
    while i < v.len()
        invariant
            i <= v@.len(),
            forall|j: int| 0 <= j < i ==> v@[j] != x,
        decreases v@.len() - i,
    {
        if v[i] == x {
            proof {
                assert(v@[i as int] == x);
            }
            return true;
        }
        i = i + 1;
    }
    false
}

/// Sorts words in ascending order.
fn sort_u32(v: Vec<u32>) -> (r: Vec<u32>)
    ensures
        ascending(r@),
        r@.to_multiset() == v@.to_multiset(),
{
    broadcast use vstd::multiset::group_multiset_axioms;
    broadcast use vstd::seq_lib::group_to_multiset_ensures;

    let mut r: Vec<u32> = Vec::new();
    let n = v.len();
    let mut k: usize = 0;
    while k < n
        invariant
            n == v@.len(),
            k <= n,
            ascending(r@),
            r@.to_multiset() == v@.take(k as int).to_multiset(),
        decreases n - k,
    {
        let x = v[k];
        let mut p: usize = 0;
        while p < r.len() && r[p] <= x
            invariant
                p <= r@.len(),
                forall|q: int| 0 <= q < p ==> r@[q] <= x,
            decreases r@.len() - p,
        {
            p = p + 1;
        }
        let ghost before = r@;
        r.insert(p, x);
        proof {
            assert(r@ =~= before.insert(p as int, x));
            assert forall|i: int, j: int| 0 <= i < j < r@.len() implies r@[i] <= r@[j] by {
                if j < p {
                    assert(r@[i] == before[i] && r@[j] == before[j]);
                } else if j == p {
                    assert(r@[i] == before[i]);
                } else if i < p {
                    assert(r@[i] == before[i] && r@[j] == before[j - 1]);
                    assert(before[p as int] > x);
                    assert(before[i] <= x);
                } else if i == p {
                    assert(before[p as int] > x);
                    assert(before[p as int] <= before[j - 1]);
                } else {
                    assert(r@[i] == before[i - 1] && r@[j] == before[j - 1]);
                }
            }
            lemma_insert_multiset_u32(before, p as int, x);
            assert(v@.take(k as int + 1) =~= v@.take(k as int).push(x));
            v@.take(k as int).to_multiset_ensures();
            assert(r@.to_multiset() =~= v@.take(k as int + 1).to_multiset());
        }
        k = k + 1;
    }
    proof {
        assert(v@.take(n as int) =~= v@);
    }
    r
}

impl World {
    /// The simulation clock.
    pub fn time(&self) -> (r: Fix64)
        ensures
            r == self.time,
    {
        self.time
    }

    /// Sets the game mode of the coming rounds.
    pub fn configure_mode(&mut self, mode: u8)
        ensures
            final(self)@ == (WorldView { mode, ..old(self)@ }),
    {
        self.mode = mode;
    }

    /// The number of players alive.
    pub fn alive_count(&self) -> (r: usize)
        ensures
            r == alive_of(self@.players).len(),
    {
        let n = self.players.len();
        let mut c: usize = 0;
        let mut k: usize = 0;
        while k < n
            invariant
                n == self.players@.len(),
                k <= n,
                c == alive_of(self@.players.take(k as int)).len(),
                c <= k,
            decreases n - k,
        {
            proof {
                lemma_alive_step(self@.players, k as int);
            }
            if self.players[k].alive {
                c = c + 1;
            }
            k = k + 1;
        }
        proof {
            assert(self@.players.take(n as int) =~= self@.players);
        }
        c
    }

    /// The players still alive: the winners once the round is over (none after a draw).
    pub fn round_winners(&self) -> (r: Vec<u32>)
        ensures
            r@ == alive_ids_of(self@.players),
    {
        let n = self.players.len();
        let mut out: Vec<u32> = Vec::new();
        let mut k: usize = 0;
        while k < n
            invariant
                n == self.players@.len(),
                k <= n,
                out@ == alive_ids_of(self@.players.take(k as int)),
            decreases n - k,
        {
            proof {
                lemma_alive_step(self@.players, k as int);
            }
            if self.players[k].alive {
                out.push(self.players[k].id);
            }
            proof {
                assert(out@ =~= alive_ids_of(self@.players.take(k as int + 1)));
            }
            k = k + 1;
        }
        proof {
            assert(self@.players.take(n as int) =~= self@.players);
        }
        out
    }

    /// Takes this round's `(killer, victim)` records, leaving none.
    pub fn take_kills(&mut self) -> (r: Vec<(u32, u32)>)
        ensures
            r@ == old(self)@.kills_this_round,
            final(self)@ == (WorldView { kills_this_round: Seq::empty(), ..old(self)@ }),
    {
        let mut taken: Vec<(u32, u32)> = Vec::new();
        std::mem::swap(&mut taken, &mut self.kills_this_round);
        proof {
            assert(self@.kills_this_round =~= Seq::<(u32, u32)>::empty());
        }
        taken
    }

    /// The placements of the round: `r[i]` is the player placed `i + 1`-th. Players still
    /// alive come first, by id; then the eliminated, last eliminated first, each once and
    /// none that is alive again; places nobody holds are filled with `u32::MAX` up to the
    /// number of players.
    pub fn placement(&self) -> (r: Vec<u32>)
        ensures
            ({
                let a = alive_ids_of(self@.players);
                let f = fallen(self@.eliminated_order, a);
                let m = a.len() + f.len();
                let n = self@.players.len();
                &&& r@.len() == (if m < n { n } else { m })
                &&& ascending(r@.take(a.len() as int))
                &&& r@.take(a.len() as int).to_multiset() == a.to_multiset()
                &&& r@.subrange(a.len() as int, m as int) == f
                &&& forall|i: int| m <= i < r@.len() ==> #[trigger] r@[i] == u32::MAX
            }),
    {
        broadcast use vstd::seq_lib::group_to_multiset_ensures;

        let alive = self.round_winners();
        let mut list = sort_u32(alive);
        let ghost a = alive_ids_of(self@.players);
        let ghost head = list@;
        proof {
            assert forall|x: u32| head.contains(x) == a.contains(x) by {
                assert(head.to_multiset().count(x) == a.to_multiset().count(x));
            }
            lemma_fallen_same_members(self@.eliminated_order, head, a);
            head.to_multiset_ensures();
            a.to_multiset_ensures();
            assert(head.len() == a.len());
            assert(ascending(head));
        }
        let e = &self.eliminated_order;
        let ne = e.len();
        let ghost total = head + fallen(e@, head);
        let mut k: usize = ne;
        proof {
            assert(e@.take(ne as int) =~= e@);
        }
        while k > 0
            invariant
                ne == e@.len(),
                e@ == self@.eliminated_order,
                k <= ne,
                total == head + fallen(e@, head),
                list@ + fallen(e@.take(k as int), list@) == total,
            decreases k,
        {
            let x = e[k - 1];
            let ghost t = e@.take(k as int);
            proof {
                assert(t.drop_last() =~= e@.take(k - 1));
                assert(t.last() == x);
            }
            let seen = contains_u32(&list, x);
            if !seen {
                let ghost before = list@;
                list.push(x);
                proof {
                    assert(before + (seq![x] + fallen(e@.take(k - 1), before.push(x))) =~= list@ + fallen(
                        e@.take(k - 1),
                        list@,
                    ));
                }
            }
            k = k - 1;
        }
        proof {
            assert(e@.take(0) =~= Seq::<u32>::empty());
            assert(list@ =~= total);
        }
        let n = self.players.len();
        let ghost m = list@.len();
        while list.len() < n
            invariant
                list@.len() >= m,
                n == self@.players.len(),
                list@.len() <= (if m < n { n as nat } else { m }),
                forall|j: int| m <= j < list@.len() ==> #[trigger] list@[j] == u32::MAX,
                list@.take(m as int) == total,
            decreases n - list@.len(),
        {
            let ghost before = list@;
            list.push(u32::MAX);
            proof {
                assert(list@.take(m as int) =~= before.take(m as int));
            }
        }
        proof {
            assert(list@.take(head.len() as int) =~= head) by {
                assert(list@.take(m as int).take(head.len() as int) =~= list@.take(head.len() as int));
            }
            assert(list@.subrange(head.len() as int, m as int) =~= fallen(e@, head)) by {
                assert(list@.take(m as int).subrange(head.len() as int, m as int) =~= list@.subrange(
                    head.len() as int,
                    m as int,
                ));
            }
        }
        list
    }

    /// The assist for a kill: among the players other than the victim and the killer,
    /// the one who dealt the victim the most damage this round, if that is more than
    /// zero; the first such player on a tie.
    pub fn assist_damager_of(&self, victim: u32, killer: u32) -> (r: Option<u32>)
        requires
            forall|a: int| 0 <= a < self@.damage_matrix.len() ==> victim < (#[trigger] self@.damage_matrix[a]).len(),
        ensures
            ({
                let rows = self@.damage_matrix;
                match r {
                    Some(id) => exists|a: int|
                        {
                            &&& 0 <= a < rows.len()
                            &&& id == a as u32
                            &&& assist_eligible(a, victim, killer)
                            &&& #[trigger] rows[a][victim as int].0 > 0
                            &&& forall|b: int|
                                0 <= b < rows.len() && assist_eligible(b, victim, killer) ==> (#[trigger] rows[b][victim as int]).0
                                    <= rows[a][victim as int].0
                            &&& forall|b: int|
                                0 <= b < a && assist_eligible(b, victim, killer) ==> (#[trigger] rows[b][victim as int]).0
                                    < rows[a][victim as int].0
                        },
                    None => forall|b: int|
                        0 <= b < rows.len() && assist_eligible(b, victim, killer) ==> (#[trigger] rows[b][victim as int]).0 <= 0,
                }
            }),
    {
        let ghost rows = self@.damage_matrix;
        let n = self.damage_matrix.len();
        let mut best: Option<(usize, i64)> = None;
        let mut a: usize = 0;
        while a < n
            invariant
                n == rows.len(),
                rows == self@.damage_matrix,
                a <= n,
                forall|x: int| 0 <= x < rows.len() ==> victim < (#[trigger] rows[x]).len(),
                match best {
                    Some((b, d)) => {
                        &&& b < a
                        &&& d == rows[b as int][victim as int].0
                        &&& assist_eligible(b as int, victim, killer)
                        &&& d > 0
                        &&& forall|x: int| 0 <= x < a && assist_eligible(x, victim, killer) ==> (#[trigger] rows[x][victim as int]).0 <= d
                        &&& forall|x: int| 0 <= x < b && assist_eligible(x, victim, killer) ==> (#[trigger] rows[x][victim as int]).0 < d
                    },
                    None => forall|x: int| 0 <= x < a && assist_eligible(x, victim, killer) ==> (#[trigger] rows[x][victim as int]).0 <= 0,
                },
            decreases n - a,
        {
            let a32: u32 = #[verifier::truncate] (a as u32);
            if a != victim as usize && a32 != killer {
                proof {
                    assert(self.damage_matrix@[a as int]@ == rows[a as int]);
                }
                let d = self.damage_matrix[a][victim as usize].0;
                let better = match best {
                    Some((_, bd)) => d > bd,
                    None => d > 0,
                };
                if better {
                    best = Some((a, d));
                }
            }
            a = a + 1;
        }
        match best {
            Some((b, _)) => {
                let id: u32 = #[verifier::truncate] (b as u32);
                Some(id)
            },
            None => None,
        }
    }

    /// Whether the round is over.
    pub fn round_over(&self) -> (r: bool)
        ensures
            r == round_over_spec(self@),
    {
        if self.sandbox {
            return false;
        }
        if self.round_forced {
            return true;
        }
        let ghost ps = self@.players;
        let n = self.players.len();
        let mut first: Option<usize> = None;
        let mut all_hit: bool = true;
        let mut one_killer: bool = true;
        let mut one_team: bool = true;
        let mut k: usize = 0;
        while k < n
            invariant
                n == ps.len(),
                ps == self@.players,
                k <= n,
                ({
                    let al = alive_of(ps.take(k as int));
                    &&& (first is None <==> al.len() == 0)
                    &&& (first matches Some(f) ==> f < k && ps[f as int] == al[0])
                    &&& all_hit == (forall|i: int| 0 <= i < al.len() ==> (#[trigger] al[i]).last_hit_by is Some)
                    &&& one_killer == (forall|i: int| 0 <= i < al.len() ==> (#[trigger] al[i]).last_hit_by == al[0].last_hit_by)
                    &&& one_team == (forall|i: int| 0 <= i < al.len() ==> (#[trigger] al[i]).team == al[0].team)
                }),
            decreases n - k,
        {
            proof {
                lemma_alive_step(ps, k as int);
                assert(self.players@[k as int]@ == ps[k as int]);
            }
            let ghost al0 = alive_of(ps.take(k as int));
            if self.players[k].alive {
                match first {
                    None => {
                        first = Some(k);
                        all_hit = self.players[k].last_hit_by.is_some();
                        one_killer = true;
                        one_team = true;
                    },
                    Some(f) => {
                        proof {
                            assert(self.players@[f as int]@ == ps[f as int]);
                        }
                        if self.players[k].last_hit_by.is_none() {
                            all_hit = false;
                        }
                        if self.players[k].last_hit_by != self.players[f].last_hit_by {
                            one_killer = false;
                        }
                        if self.players[k].team != self.players[f].team {
                            one_team = false;
                        }
                    },
                }
            }
            proof {
                let al1 = alive_of(ps.take(k as int + 1));
                if ps[k as int].alive {
                    assert(al1 == al0.push(ps[k as int]));
                    assert(al1[al1.len() - 1] == ps[k as int]);
                    if al0.len() > 0 {
                        assert(al1[0] == al0[0]);
                    }
                    assert forall|i: int| 0 <= i < al0.len() implies #[trigger] al1[i] == al0[i] by {}
                    if all_hit {
                        assert forall|i: int| 0 <= i < al1.len() implies (#[trigger] al1[i]).last_hit_by is Some by {
                            if i < al0.len() {
                                assert(al1[i] == al0[i]);
                            }
                        }
                    } else {
                        if al0.len() > 0 && !(forall|i: int| 0 <= i < al0.len() ==> (#[trigger] al0[i]).last_hit_by is Some) {
                            let i = choose|i: int| 0 <= i < al0.len() && !((#[trigger] al0[i]).last_hit_by is Some);
                            assert(al1[i] == al0[i]);
                        } else {
                            assert(al1[al1.len() - 1].last_hit_by is None);
                        }
                    }
                    if one_killer {
                        assert forall|i: int| 0 <= i < al1.len() implies (#[trigger] al1[i]).last_hit_by == al1[0].last_hit_by by {
                            if i < al0.len() {
                                assert(al1[i] == al0[i]);
                            }
                        }
                    } else {
                        if al0.len() > 0 && !(forall|i: int| 0 <= i < al0.len() ==> (#[trigger] al0[i]).last_hit_by == al0[0].last_hit_by) {
                            let i = choose|i: int| 0 <= i < al0.len() && !((#[trigger] al0[i]).last_hit_by == al0[0].last_hit_by);
                            assert(al1[i] == al0[i]);
                        } else {
                            assert(al1[al1.len() - 1].last_hit_by != al1[0].last_hit_by);
                        }
                    }
                    if one_team {
                        assert forall|i: int| 0 <= i < al1.len() implies (#[trigger] al1[i]).team == al1[0].team by {
                            if i < al0.len() {
                                assert(al1[i] == al0[i]);
                            }
                        }
                    } else {
                        if al0.len() > 0 && !(forall|i: int| 0 <= i < al0.len() ==> (#[trigger] al0[i]).team == al0[0].team) {
                            let i = choose|i: int| 0 <= i < al0.len() && !((#[trigger] al0[i]).team == al0[0].team);
                            assert(al1[i] == al0[i]);
                        } else {
                            assert(al1[al1.len() - 1].team != al1[0].team);
                        }
                    }
                }
            }
            k = k + 1;
        }
        proof {
            assert(ps.take(n as int) =~= ps);
        }
        if first.is_none() {
            return true;
        }
        if self.mode == 5 && all_hit && one_killer {
            return true;
        }
        one_team
    }
}

/// Projectile-versus-projectile class of a kind and the classes it can destroy, as a
/// bit mask (bit `c - 1` for class `c`): class 1 are bullets and missiles, class 2
/// boomerangs, class 3 fields and blocks. Kinds that take no part have none; molten rock
/// is absorbed by other means.
pub open spec fn spec_missile_collision(k: ProjectileKind) -> Option<(u8, u8)> {
    match k {
        ProjectileKind::W098b { proj, .. } => match proj {
            W098bProjKind::Boomerang => Some((2u8, 5u8)),
            W098bProjKind::Magma => None,
            _ => Some((1u8, 7u8)),
        },
        ProjectileKind::Bullet { .. } => Some((1u8, 7u8)),
        ProjectileKind::Missile { .. } => Some((1u8, 7u8)),
        ProjectileKind::PushBullet { .. } => Some((1u8, 7u8)),
        ProjectileKind::BonusBomb { .. } => Some((1u8, 7u8)),
        _ => None,
    }
}

/// Whether a class mask holds class `c`.
pub open spec fn mask_has(mask: u8, c: u8) -> bool {
    mask & (1u8 << ((c - 1) as u8)) != 0
}

impl ProjectileKind {
    /// The kind's projectile-versus-projectile class and the classes it can destroy.
    pub fn missile_collision(&self) -> (r: Option<(u8, u8)>)
        ensures
            r == spec_missile_collision(*self),
    {
        // Masks: 0b101 = classes 1 and 3; 0b111 = classes 1, 2 and 3.
        match self {
            ProjectileKind::W098b { proj, .. } => match proj {
                W098bProjKind::Boomerang => Some((2, 0b101)),
                W098bProjKind::Magma => None,
                _ => Some((1, 0b111)),
            },
            ProjectileKind::Bullet { .. } | ProjectileKind::Missile { .. } | ProjectileKind::PushBullet { .. }
            | ProjectileKind::BonusBomb { .. } => Some((1, 0b111)),
            _ => None,
        }
    }
}

/// Whether two flying projectiles of classes `ci` and `cj`, with masks `fi` and `fj`,
/// destroy each other on contact: each mask must hold the other's class.
pub fn classes_collide(ci: u8, fi: u8, cj: u8, fj: u8) -> (r: bool)
    requires
        1 <= ci <= 8,
        1 <= cj <= 8,
    ensures
        r == (mask_has(fi, cj) && mask_has(fj, ci)),
{
    !(fi & (1u8 << (cj - 1)) == 0 || fj & (1u8 << (ci - 1)) == 0)
}

/// Projectile collisions are mutual, boomerangs pass through one another, and bullets and
/// missiles destroy every other flying class.
pub proof fn law_projectile_classes(a: ProjectileKind, b: ProjectileKind)
    requires
        spec_missile_collision(a) is Some,
        spec_missile_collision(b) is Some,
    ensures
        ({
            let (ca, fa) = spec_missile_collision(a).unwrap();
            let (cb, fb) = spec_missile_collision(b).unwrap();
            &&& (mask_has(fa, cb) && mask_has(fb, ca)) == (mask_has(fb, ca) && mask_has(fa, cb))
            &&& (ca == 2 && cb == 2 ==> !mask_has(fa, cb))
            &&& (ca == 1 ==> mask_has(fa, cb) && mask_has(fb, ca))
        }),
{
    assert(1u8 & (1u8 << 0u8) != 0) by (bit_vector);
    assert(5u8 & (1u8 << 0u8) != 0) by (bit_vector);
    assert(5u8 & (1u8 << 1u8) == 0) by (bit_vector);
    assert(7u8 & (1u8 << 0u8) != 0) by (bit_vector);
    assert(7u8 & (1u8 << 1u8) != 0) by (bit_vector);
}

/// Whether a projectile stays when `victim` goes: tethers on it and chains last on it
/// are cut.
pub open spec fn keeps_link(pr: Projectile, victim: u32) -> bool {
    match pr.kind {
        ProjectileKind::Tether { target, .. } => target != victim,
        ProjectileKind::Chain { last_target, .. } => last_target != victim,
        _ => true,
    }
}

/// The projectiles that stay when `victim` goes.
pub open spec fn unlinked_from(victim: u32) -> spec_fn(Projectile) -> bool {
    |pr: Projectile| keeps_link(pr, victim)
}

impl World {
    /// Cuts every projectile linked to `victim` (tethers on it, chains last on it),
    /// keeping the others in order; returns how many were cut.
    pub fn sever_links_to(&mut self, victim: u32) -> (r: usize)
        ensures
            final(self)@ == (WorldView {
                projectiles: old(self)@.projectiles.filter(unlinked_from(victim)),
                ..old(self)@
            }),
            r == old(self)@.projectiles.len() - final(self)@.projectiles.len(),
    {
        let ghost ps = self@.projectiles;
        let n = self.projectiles.len();
        let mut kept: Vec<Projectile> = Vec::new();
        let mut k: usize = 0;
        while k < n
            invariant
                n == ps.len(),
                ps == self@.projectiles,
                k <= n,
                kept@ == ps.take(k as int).filter(unlinked_from(victim)),
                kept@.len() <= k,
            decreases n - k,
        {
            let pr = self.projectiles[k];
            let keep = match pr.kind {
                ProjectileKind::Tether { target, .. } => target != victim,
                ProjectileKind::Chain { last_target, .. } => last_target != victim,
                _ => true,
            };
            proof {
                assert(ps.take(k as int + 1) =~= ps.take(k as int).push(pr));
                ps.take(k as int).lemma_filter_push(pr, unlinked_from(victim));
            }
            if keep {
                kept.push(pr);
            }
            k = k + 1;
        }
        proof {
            assert(ps.take(n as int) =~= ps);
        }
        let cut = n - kept.len();
        self.projectiles = kept;
        cut
    }
}

} // verus!
