//! Deterministic snapshot encoding of the world state (reconnects and saves).
//!
//! Hand-written, big-endian, length-prefixed; every field of the state is covered.
//! Decoding refuses truncated input, unknown tags, counts above fixed bounds, and
//! player indices that are out of range, and it reads back exactly what encoding wrote.

use vstd::prelude::*;
use crate::fix::{Fix64, Vec2};
use crate::wire::{
    has_at, fits, rd_u32, rd_u64, rd_fix, always, enc_opt, sp_opt, sp_opt1, take_upto, lemma_opt_rt,
    lemma_opt1_rt, lemma_enc_all_step, enc_u8, enc_bool, enc_u32, enc_u64, enc_fix, enc_vec, enc_opt_vec, sp_u8, sp_bool,
    sp_u32, sp_u64, sp_fix, sp_vec, sp_opt_vec, sp_count, decoded, decoded_view, readable,
    sp_repeat, enc_all, inverts, lemma_has_at_split, lemma_has_at_join, lemma_u8_rt,
    lemma_bool_rt, lemma_u32_rt, lemma_u64_rt, lemma_fix_rt, lemma_vec_rt, lemma_opt_vec_rt,
    lemma_repeat_fail, lemma_repeat_rt, lemma_repeat_all, wu64, wu32, wu8, wbool, wfix, wvec, wopt_vec, u64at,
    u32at, u8at, boolat, fixat, vecat, opt_vec, count_at,
};
use crate::skill::{SkillId, CastPhase, Caster, CasterView, MAX_SKILL_SLOTS, W098bProjKind, W098bOnHit};
use crate::world::{Obstacle, Projectile, World, WorldView, players_view, rows_view};
use crate::projectile_ser::{
    projectile_reader, projectile_writer, projectile_ok, wf_projectile, lemma_projectile_inverts,
    encode_projectile, decode_projectile,
};
use crate::player::{
    Player, PlayerView, Buff, BuffKind, Cmd, Control, Kick, SweepState, Rewind, MAX_BUFFS, MAX_CMDS,
    MASTERY_TRACKS,
};

verus! {

// ===========================================================================
// Cast phase
// ===========================================================================

/// Encoding of a cast phase: tag 0 idle; 1 wind-up (skill, optional target, time left);
/// 2 recovery (skill, time left).
pub open spec fn enc_cast_phase(ph: CastPhase) -> Seq<u8> {
    match ph {
        CastPhase::Idle => enc_u8(0),
        CastPhase::Windup { id, target, remaining } => enc_u8(1) + enc_u32(id.0) + enc_opt_vec(target)
            + enc_fix(remaining),
        CastPhase::Recovery { id, remaining } => enc_u8(2) + enc_u32(id.0) + enc_fix(remaining),
    }
}

/// Reading a cast phase.
pub open spec fn sp_cast_phase(s: Seq<u8>, i: int) -> Option<(CastPhase, int)> {
    match sp_u8(s, i) {
        Some((t, j)) => if t == 0 {
            Some((CastPhase::Idle, j))
        } else if t == 1 {
            match sp_u32(s, j) {
                Some((id, j1)) => match sp_opt_vec(s, j1) {
                    Some((target, j2)) => match sp_fix(s, j2) {
                        Some((remaining, j3)) => Some(
                            (CastPhase::Windup { id: SkillId(id), target, remaining }, j3),
                        ),
                        None => None,
                    },
                    None => None,
                },
                None => None,
            }
        } else if t == 2 {
            match sp_u32(s, j) {
                Some((id, j1)) => match sp_fix(s, j1) {
                    Some((remaining, j2)) => Some((CastPhase::Recovery { id: SkillId(id), remaining }, j2)),
                    None => None,
                },
                None => None,
            }
        } else {
            None
        },
        None => None,
    }
}

/// Reading a cast phase back.
pub proof fn lemma_cast_phase_rt(ph: CastPhase, s: Seq<u8>, i: int)
    requires
        has_at(s, i, enc_cast_phase(ph)),
    ensures
        sp_cast_phase(s, i) == Some((ph, i + enc_cast_phase(ph).len())),
{
    match ph {
        CastPhase::Idle => {
            lemma_u8_rt(0, s, i);
        },
        CastPhase::Windup { id, target, remaining } => {
            let a = enc_u8(1);
            let b = enc_u32(id.0);
            let c = enc_opt_vec(target);
            let d = enc_fix(remaining);
            lemma_has_at_split(s, i, a + b + c, d);
            lemma_has_at_split(s, i, a + b, c);
            lemma_has_at_split(s, i, a, b);
            lemma_u8_rt(1, s, i);
            lemma_u32_rt(id.0, s, i + 1);
            lemma_opt_vec_rt(target, s, i + 5);
            lemma_fix_rt(remaining, s, i + 5 + c.len());
        },
        CastPhase::Recovery { id, remaining } => {
            let a = enc_u8(2);
            let b = enc_u32(id.0);
            let d = enc_fix(remaining);
            lemma_has_at_split(s, i, a + b, d);
            lemma_has_at_split(s, i, a, b);
            lemma_u8_rt(2, s, i);
            lemma_u32_rt(id.0, s, i + 1);
            lemma_fix_rt(remaining, s, i + 5);
        },
    }
}

fn encode_cast_phase(o: &mut Vec<u8>, ph: CastPhase)
    ensures
        final(o)@ == old(o)@ + enc_cast_phase(ph),
{
    match ph {
        CastPhase::Idle => wu8(o, 0),
        CastPhase::Windup { id, target, remaining } => {
            wu8(o, 1);
            wu32(o, id.as_u32());
            wopt_vec(o, target);
            wfix(o, remaining);
            assert(o@ =~= old(o)@ + enc_cast_phase(ph));
        },
        CastPhase::Recovery { id, remaining } => {
            wu8(o, 2);
            wu32(o, id.as_u32());
            wfix(o, remaining);
            assert(o@ =~= old(o)@ + enc_cast_phase(ph));
        },
    }
}

fn decode_cast_phase(b: &[u8], p: &mut usize) -> (r: Option<CastPhase>)
    requires
        readable(b@, *old(p)),
    ensures
        decoded(r, *old(p), *final(p), sp_cast_phase(b@, *old(p) as int)),
{
    match u8at(b, p)? {
        0 => Some(CastPhase::Idle),
        1 => {
            let id = SkillId::from_u32(u32at(b, p)?);
            let target = opt_vec(b, p)?;
            let remaining = fixat(b, p)?;
            Some(CastPhase::Windup { id, target, remaining })
        },
        2 => {
            let id = SkillId::from_u32(u32at(b, p)?);
            let remaining = fixat(b, p)?;
            Some(CastPhase::Recovery { id, remaining })
        },
        _ => None,
    }
}


// ===========================================================================
// Buffs
// ===========================================================================

/// Encoding of a buff kind: a tag byte, followed by the factor's bits for `Speed` (tag 0)
/// and `Slow` (tag 9). Tag 12 is unused.
pub open spec fn enc_buff_kind(k: BuffKind) -> Seq<u8> {
    match k {
        BuffKind::Speed(v) => enc_u8(0) + enc_u64(v),
        BuffKind::Reflect => enc_u8(1),
        BuffKind::Stealth => enc_u8(2),
        BuffKind::Tied => enc_u8(3),
        BuffKind::Boost => enc_u8(4),
        BuffKind::Scorched => enc_u8(5),
        BuffKind::LavaShield => enc_u8(6),
        BuffKind::Aegis => enc_u8(7),
        BuffKind::Pancake => enc_u8(8),
        BuffKind::Slow(v) => enc_u8(9) + enc_u64(v),
        BuffKind::Weakened => enc_u8(10),
        BuffKind::Silenced => enc_u8(11),
        BuffKind::Mirror => enc_u8(13),
        BuffKind::Haste => enc_u8(14),
    }
}

/// Encoding of a buff: its kind, then the time left.
pub open spec fn enc_buff(b: Buff) -> Seq<u8> {
    enc_buff_kind(b.kind) + enc_fix(b.remaining)
}

/// The buff kind without payload that a tag names (tags other than 0 and 9).
pub open spec fn plain_buff_kind(t: u8) -> Option<BuffKind> {
    if t == 1 {
        Some(BuffKind::Reflect)
    } else if t == 2 {
        Some(BuffKind::Stealth)
    } else if t == 3 {
        Some(BuffKind::Tied)
    } else if t == 4 {
        Some(BuffKind::Boost)
    } else if t == 5 {
        Some(BuffKind::Scorched)
    } else if t == 6 {
        Some(BuffKind::LavaShield)
    } else if t == 7 {
        Some(BuffKind::Aegis)
    } else if t == 8 {
        Some(BuffKind::Pancake)
    } else if t == 10 {
        Some(BuffKind::Weakened)
    } else if t == 11 {
        Some(BuffKind::Silenced)
    } else if t == 13 {
        Some(BuffKind::Mirror)
    } else if t == 14 {
        Some(BuffKind::Haste)
    } else {
        None
    }
}

/// Reading a buff kind.
pub open spec fn sp_buff_kind(s: Seq<u8>, i: int) -> Option<(BuffKind, int)> {
    match sp_u8(s, i) {
        Some((t, j)) => if t == 0 {
            match sp_u64(s, j) {
                Some((v, k)) => Some((BuffKind::Speed(v), k)),
                None => None,
            }
        } else if t == 9 {
            match sp_u64(s, j) {
                Some((v, k)) => Some((BuffKind::Slow(v), k)),
                None => None,
            }
        } else {
            match plain_buff_kind(t) {
                Some(k) => Some((k, j)),
                None => None,
            }
        },
        None => None,
    }
}

/// Reading a buff.
pub open spec fn sp_buff(s: Seq<u8>, i: int) -> Option<(Buff, int)> {
    match sp_buff_kind(s, i) {
        Some((kind, j)) => match sp_fix(s, j) {
            Some((remaining, k)) => Some((Buff { kind, remaining }, k)),
            None => None,
        },
        None => None,
    }
}

/// Reading a buff back.
pub proof fn lemma_buff_rt(b: Buff, s: Seq<u8>, i: int)
    requires
        has_at(s, i, enc_buff(b)),
    ensures
        sp_buff(s, i) == Some((b, i + enc_buff(b).len())),
{
    let k = enc_buff_kind(b.kind);
    lemma_has_at_split(s, i, k, enc_fix(b.remaining));
    lemma_fix_rt(b.remaining, s, i + k.len());
    match b.kind {
        BuffKind::Speed(v) => {
            lemma_has_at_split(s, i, enc_u8(0), enc_u64(v));
            lemma_u8_rt(0, s, i);
            lemma_u64_rt(v, s, i + 1);
        },
        BuffKind::Slow(v) => {
            lemma_has_at_split(s, i, enc_u8(9), enc_u64(v));
            lemma_u8_rt(9, s, i);
            lemma_u64_rt(v, s, i + 1);
        },
        BuffKind::Reflect => lemma_u8_rt(1, s, i),
        BuffKind::Stealth => lemma_u8_rt(2, s, i),
        BuffKind::Tied => lemma_u8_rt(3, s, i),
        BuffKind::Boost => lemma_u8_rt(4, s, i),
        BuffKind::Scorched => lemma_u8_rt(5, s, i),
        BuffKind::LavaShield => lemma_u8_rt(6, s, i),
        BuffKind::Aegis => lemma_u8_rt(7, s, i),
        BuffKind::Pancake => lemma_u8_rt(8, s, i),
        BuffKind::Weakened => lemma_u8_rt(10, s, i),
        BuffKind::Silenced => lemma_u8_rt(11, s, i),
        BuffKind::Mirror => lemma_u8_rt(13, s, i),
        BuffKind::Haste => lemma_u8_rt(14, s, i),
    }
}

fn encode_buff(o: &mut Vec<u8>, b: &Buff)
    ensures
        final(o)@ == old(o)@ + enc_buff(*b),
{
    match b.kind {
        BuffKind::Speed(v) => {
            wu8(o, 0);
            wu64(o, v);
        },
        BuffKind::Reflect => wu8(o, 1),
        BuffKind::Stealth => wu8(o, 2),
        BuffKind::Tied => wu8(o, 3),
        BuffKind::Boost => wu8(o, 4),
        BuffKind::Scorched => wu8(o, 5),
        BuffKind::LavaShield => wu8(o, 6),
        BuffKind::Aegis => wu8(o, 7),
        BuffKind::Pancake => wu8(o, 8),
        BuffKind::Slow(v) => {
            wu8(o, 9);
            wu64(o, v);
        },
        BuffKind::Weakened => wu8(o, 10),
        BuffKind::Silenced => wu8(o, 11),
        BuffKind::Mirror => wu8(o, 13),
        BuffKind::Haste => wu8(o, 14),
    }
    assert(o@ =~= old(o)@ + enc_buff_kind(b.kind));
    wfix(o, b.remaining);
    assert(o@ =~= old(o)@ + enc_buff(*b));
}

fn decode_buff(b: &[u8], p: &mut usize) -> (r: Option<Buff>)
    requires
        readable(b@, *old(p)),
    ensures
        decoded(r, *old(p), *final(p), sp_buff(b@, *old(p) as int)),
{
    let kind = match u8at(b, p)? {
        0 => BuffKind::Speed(u64at(b, p)?),
        1 => BuffKind::Reflect,
        2 => BuffKind::Stealth,
        3 => BuffKind::Tied,
        4 => BuffKind::Boost,
        5 => BuffKind::Scorched,
        6 => BuffKind::LavaShield,
        7 => BuffKind::Aegis,
        8 => BuffKind::Pancake,
        9 => BuffKind::Slow(u64at(b, p)?),
        10 => BuffKind::Weakened,
        11 => BuffKind::Silenced,
        13 => BuffKind::Mirror,
        14 => BuffKind::Haste,
        _ => return None,
    };
    let remaining = fixat(b, p)?;
    Some(Buff { kind, remaining })
}

// ===========================================================================
// Commands
// ===========================================================================

/// Encoding of a command: tag 0 move (point); 1 cast (skill, optional point); 2 stop.
pub open spec fn enc_cmd(c: Cmd) -> Seq<u8> {
    match c {
        Cmd::Move(t) => enc_u8(0) + enc_vec(t),
        Cmd::Cast(id, t) => enc_u8(1) + enc_u32(id.0) + enc_opt_vec(t),
        Cmd::Stop => enc_u8(2),
    }
}

/// Reading a command.
pub open spec fn sp_cmd(s: Seq<u8>, i: int) -> Option<(Cmd, int)> {
    match sp_u8(s, i) {
        Some((t, j)) => if t == 0 {
            match sp_vec(s, j) {
                Some((v, k)) => Some((Cmd::Move(v), k)),
                None => None,
            }
        } else if t == 1 {
            match sp_u32(s, j) {
                Some((id, k)) => match sp_opt_vec(s, k) {
                    Some((tg, l)) => Some((Cmd::Cast(SkillId(id), tg), l)),
                    None => None,
                },
                None => None,
            }
        } else if t == 2 {
            Some((Cmd::Stop, j))
        } else {
            None
        },
        None => None,
    }
}

/// Reading a command back.
pub proof fn lemma_cmd_rt(c: Cmd, s: Seq<u8>, i: int)
    requires
        has_at(s, i, enc_cmd(c)),
    ensures
        sp_cmd(s, i) == Some((c, i + enc_cmd(c).len())),
{
    match c {
        Cmd::Move(t) => {
            lemma_has_at_split(s, i, enc_u8(0), enc_vec(t));
            lemma_u8_rt(0, s, i);
            lemma_vec_rt(t, s, i + 1);
        },
        Cmd::Cast(id, t) => {
            lemma_has_at_split(s, i, enc_u8(1) + enc_u32(id.0), enc_opt_vec(t));
            lemma_has_at_split(s, i, enc_u8(1), enc_u32(id.0));
            lemma_u8_rt(1, s, i);
            lemma_u32_rt(id.0, s, i + 1);
            lemma_opt_vec_rt(t, s, i + 5);
        },
        Cmd::Stop => {
            lemma_u8_rt(2, s, i);
        },
    }
}

fn encode_cmd(o: &mut Vec<u8>, c: &Cmd)
    ensures
        final(o)@ == old(o)@ + enc_cmd(*c),
{
    match c {
        Cmd::Move(t) => {
            wu8(o, 0);
            wvec(o, *t);
        },
        Cmd::Cast(id, t) => {
            wu8(o, 1);
            wu32(o, id.as_u32());
            wopt_vec(o, *t);
        },
        Cmd::Stop => wu8(o, 2),
    }
    assert(o@ =~= old(o)@ + enc_cmd(*c));
}

fn decode_cmd(b: &[u8], p: &mut usize) -> (r: Option<Cmd>)
    requires
        readable(b@, *old(p)),
    ensures
        decoded(r, *old(p), *final(p), sp_cmd(b@, *old(p) as int)),
{
    match u8at(b, p)? {
        0 => Some(Cmd::Move(vecat(b, p)?)),
        1 => {
            let id = SkillId::from_u32(u32at(b, p)?);
            let t = opt_vec(b, p)?;
            Some(Cmd::Cast(id, t))
        },
        2 => Some(Cmd::Stop),
        _ => None,
    }
}

// ===========================================================================
// Items, records and optional values
// ===========================================================================

/// Item reader for fixed-point numbers.
pub open spec fn fix_reader() -> spec_fn(Seq<u8>, int) -> Option<(Fix64, int)> {
    |s: Seq<u8>, i: int| sp_fix(s, i)
}

/// Item writer for fixed-point numbers.
pub open spec fn fix_writer() -> spec_fn(Fix64) -> Seq<u8> {
    |v: Fix64| enc_fix(v)
}

/// The reader for fixed-point numbers reads back what the writer writes.
pub proof fn lemma_fix_inverts()
    ensures
        inverts(fix_reader(), fix_writer(), always::<Fix64>()),
{
    assert forall|x: Fix64, s: Seq<u8>, i: int|
        (always::<Fix64>())(x) && #[trigger] has_at(s, i, (fix_writer())(x)) implies (fix_reader())(s, i)
            == Some((x, i + (fix_writer())(x).len())) by {
        lemma_fix_rt(x, s, i);
    }
}

/// Item reader for 32-bit words.
pub open spec fn u32_reader() -> spec_fn(Seq<u8>, int) -> Option<(u32, int)> {
    |s: Seq<u8>, i: int| sp_u32(s, i)
}

/// Item writer for 32-bit words.
pub open spec fn u32_writer() -> spec_fn(u32) -> Seq<u8> {
    |v: u32| enc_u32(v)
}

/// The reader for 32-bit words reads back what the writer writes.
pub proof fn lemma_u32_inverts()
    ensures
        inverts(u32_reader(), u32_writer(), always::<u32>()),
{
    assert forall|x: u32, s: Seq<u8>, i: int|
        (always::<u32>())(x) && #[trigger] has_at(s, i, (u32_writer())(x)) implies (u32_reader())(s, i)
            == Some((x, i + (u32_writer())(x).len())) by {
        lemma_u32_rt(x, s, i);
    }
}

/// Item reader for bytes.
pub open spec fn u8_reader() -> spec_fn(Seq<u8>, int) -> Option<(u8, int)> {
    |s: Seq<u8>, i: int| sp_u8(s, i)
}

/// Item writer for bytes.
pub open spec fn u8_writer() -> spec_fn(u8) -> Seq<u8> {
    |v: u8| enc_u8(v)
}

/// The reader for bytes reads back what the writer writes.
pub proof fn lemma_u8_inverts()
    ensures
        inverts(u8_reader(), u8_writer(), always::<u8>()),
{
    assert forall|x: u8, s: Seq<u8>, i: int|
        (always::<u8>())(x) && #[trigger] has_at(s, i, (u8_writer())(x)) implies (u8_reader())(s, i)
            == Some((x, i + (u8_writer())(x).len())) by {
        lemma_u8_rt(x, s, i);
    }
}

/// Item reader for flags.
pub open spec fn bool_reader() -> spec_fn(Seq<u8>, int) -> Option<(bool, int)> {
    |s: Seq<u8>, i: int| sp_bool(s, i)
}

/// Item writer for flags.
pub open spec fn bool_writer() -> spec_fn(bool) -> Seq<u8> {
    |v: bool| enc_bool(v)
}

/// The reader for flags reads back what the writer writes.
pub proof fn lemma_bool_inverts()
    ensures
        inverts(bool_reader(), bool_writer(), always::<bool>()),
{
    assert forall|x: bool, s: Seq<u8>, i: int|
        (always::<bool>())(x) && #[trigger] has_at(s, i, (bool_writer())(x)) implies (bool_reader())(s, i)
            == Some((x, i + (bool_writer())(x).len())) by {
        lemma_bool_rt(x, s, i);
    }
}

/// Item reader for buffs.
pub open spec fn buff_reader() -> spec_fn(Seq<u8>, int) -> Option<(Buff, int)> {
    |s: Seq<u8>, i: int| sp_buff(s, i)
}

/// Item writer for buffs.
pub open spec fn buff_writer() -> spec_fn(Buff) -> Seq<u8> {
    |v: Buff| enc_buff(v)
}

/// The reader for buffs reads back what the writer writes.
pub proof fn lemma_buff_inverts()
    ensures
        inverts(buff_reader(), buff_writer(), always::<Buff>()),
{
    assert forall|x: Buff, s: Seq<u8>, i: int|
        (always::<Buff>())(x) && #[trigger] has_at(s, i, (buff_writer())(x)) implies (buff_reader())(s, i)
            == Some((x, i + (buff_writer())(x).len())) by {
        lemma_buff_rt(x, s, i);
    }
}

/// Item reader for commands.
pub open spec fn cmd_reader() -> spec_fn(Seq<u8>, int) -> Option<(Cmd, int)> {
    |s: Seq<u8>, i: int| sp_cmd(s, i)
}

/// Item writer for commands.
pub open spec fn cmd_writer() -> spec_fn(Cmd) -> Seq<u8> {
    |v: Cmd| enc_cmd(v)
}

/// The reader for commands reads back what the writer writes.
pub proof fn lemma_cmd_inverts()
    ensures
        inverts(cmd_reader(), cmd_writer(), always::<Cmd>()),
{
    assert forall|x: Cmd, s: Seq<u8>, i: int|
        (always::<Cmd>())(x) && #[trigger] has_at(s, i, (cmd_writer())(x)) implies (cmd_reader())(s, i)
            == Some((x, i + (cmd_writer())(x).len())) by {
        lemma_cmd_rt(x, s, i);
    }
}

fn write_fixs(o: &mut Vec<u8>, v: &Vec<Fix64>)
    ensures
        final(o)@ == old(o)@ + enc_all(fix_writer(), v@),
{
    let n = v.len();
    let mut k: usize = 0;
    while k < n
        invariant
            n == v@.len(),
            k <= n,
            o@ == old(o)@ + enc_all(fix_writer(), v@.take(k as int)),
        decreases n - k,
    {
        proof {
            lemma_enc_all_step(fix_writer(), v@, k as int);
        }
        wfix(o, v[k]);
        assert(o@ =~= old(o)@ + enc_all(fix_writer(), v@.take(k as int + 1)));
        k = k + 1;
    }
    proof {
        assert(v@.take(n as int) =~= v@);
    }
}

fn read_fixs(b: &[u8], p: &mut usize, n: usize) -> (r: Option<Vec<Fix64>>)
    requires
        readable(b@, *old(p)),
    ensures
        decoded_view(r, *old(p), *final(p), sp_repeat(fix_reader(), b@, *old(p) as int, n as nat)),
        r is Some ==> readable(b@, *final(p)),
{
    let ghost p0 = *p as int;
    let mut v: Vec<Fix64> = Vec::new();
    let mut k: usize = 0;
    while k < n
        invariant
            k <= n,
            p0 == *old(p),
            p0 <= *p,
            readable(b@, *p),
            sp_repeat(fix_reader(), b@, p0, k as nat) == Some((v@, *p as int)),
        decreases n - k,
    {
        let x = match fixat(b, p) {
            Some(x) => x,
            None => {
                proof {
                    lemma_repeat_fail(fix_reader(), b@, p0, (k + 1) as nat, n as nat);
                }
                return None;
            },
        };
        v.push(x);
        k = k + 1;
    }
    Some(v)
}

fn write_u32s(o: &mut Vec<u8>, v: &Vec<u32>)
    ensures
        final(o)@ == old(o)@ + enc_all(u32_writer(), v@),
{
    let n = v.len();
    let mut k: usize = 0;
    while k < n
        invariant
            n == v@.len(),
            k <= n,
            o@ == old(o)@ + enc_all(u32_writer(), v@.take(k as int)),
        decreases n - k,
    {
        proof {
            lemma_enc_all_step(u32_writer(), v@, k as int);
        }
        wu32(o, v[k]);
        assert(o@ =~= old(o)@ + enc_all(u32_writer(), v@.take(k as int + 1)));
        k = k + 1;
    }
    proof {
        assert(v@.take(n as int) =~= v@);
    }
}

fn read_u32s(b: &[u8], p: &mut usize, n: usize) -> (r: Option<Vec<u32>>)
    requires
        readable(b@, *old(p)),
    ensures
        decoded_view(r, *old(p), *final(p), sp_repeat(u32_reader(), b@, *old(p) as int, n as nat)),
        r is Some ==> readable(b@, *final(p)),
{
    let ghost p0 = *p as int;
    let mut v: Vec<u32> = Vec::new();
    let mut k: usize = 0;
    while k < n
        invariant
            k <= n,
            p0 == *old(p),
            p0 <= *p,
            readable(b@, *p),
            sp_repeat(u32_reader(), b@, p0, k as nat) == Some((v@, *p as int)),
        decreases n - k,
    {
        let x = match u32at(b, p) {
            Some(x) => x,
            None => {
                proof {
                    lemma_repeat_fail(u32_reader(), b@, p0, (k + 1) as nat, n as nat);
                }
                return None;
            },
        };
        v.push(x);
        k = k + 1;
    }
    Some(v)
}

fn write_u8s(o: &mut Vec<u8>, v: &Vec<u8>)
    ensures
        final(o)@ == old(o)@ + enc_all(u8_writer(), v@),
{
    let n = v.len();
    let mut k: usize = 0;
    while k < n
        invariant
            n == v@.len(),
            k <= n,
            o@ == old(o)@ + enc_all(u8_writer(), v@.take(k as int)),
        decreases n - k,
    {
        proof {
            lemma_enc_all_step(u8_writer(), v@, k as int);
        }
        wu8(o, v[k]);
        assert(o@ =~= old(o)@ + enc_all(u8_writer(), v@.take(k as int + 1)));
        k = k + 1;
    }
    proof {
        assert(v@.take(n as int) =~= v@);
    }
}

fn read_u8s(b: &[u8], p: &mut usize, n: usize) -> (r: Option<Vec<u8>>)
    requires
        readable(b@, *old(p)),
    ensures
        decoded_view(r, *old(p), *final(p), sp_repeat(u8_reader(), b@, *old(p) as int, n as nat)),
        r is Some ==> readable(b@, *final(p)),
{
    let ghost p0 = *p as int;
    let mut v: Vec<u8> = Vec::new();
    let mut k: usize = 0;
    while k < n
        invariant
            k <= n,
            p0 == *old(p),
            p0 <= *p,
            readable(b@, *p),
            sp_repeat(u8_reader(), b@, p0, k as nat) == Some((v@, *p as int)),
        decreases n - k,
    {
        let x = match u8at(b, p) {
            Some(x) => x,
            None => {
                proof {
                    lemma_repeat_fail(u8_reader(), b@, p0, (k + 1) as nat, n as nat);
                }
                return None;
            },
        };
        v.push(x);
        k = k + 1;
    }
    Some(v)
}

fn write_bools(o: &mut Vec<u8>, v: &Vec<bool>)
    ensures
        final(o)@ == old(o)@ + enc_all(bool_writer(), v@),
{
    let n = v.len();
    let mut k: usize = 0;
    while k < n
        invariant
            n == v@.len(),
            k <= n,
            o@ == old(o)@ + enc_all(bool_writer(), v@.take(k as int)),
        decreases n - k,
    {
        proof {
            lemma_enc_all_step(bool_writer(), v@, k as int);
        }
        wbool(o, v[k]);
        assert(o@ =~= old(o)@ + enc_all(bool_writer(), v@.take(k as int + 1)));
        k = k + 1;
    }
    proof {
        assert(v@.take(n as int) =~= v@);
    }
}

fn read_bools(b: &[u8], p: &mut usize, n: usize) -> (r: Option<Vec<bool>>)
    requires
        readable(b@, *old(p)),
    ensures
        decoded_view(r, *old(p), *final(p), sp_repeat(bool_reader(), b@, *old(p) as int, n as nat)),
        r is Some ==> readable(b@, *final(p)),
{
    let ghost p0 = *p as int;
    let mut v: Vec<bool> = Vec::new();
    let mut k: usize = 0;
    while k < n
        invariant
            k <= n,
            p0 == *old(p),
            p0 <= *p,
            readable(b@, *p),
            sp_repeat(bool_reader(), b@, p0, k as nat) == Some((v@, *p as int)),
        decreases n - k,
    {
        let x = match boolat(b, p) {
            Some(x) => x,
            None => {
                proof {
                    lemma_repeat_fail(bool_reader(), b@, p0, (k + 1) as nat, n as nat);
                }
                return None;
            },
        };
        v.push(x);
        k = k + 1;
    }
    Some(v)
}

fn write_buffs(o: &mut Vec<u8>, v: &Vec<Buff>)
    ensures
        final(o)@ == old(o)@ + enc_all(buff_writer(), v@),
{
    let n = v.len();
    let mut k: usize = 0;
    while k < n
        invariant
            n == v@.len(),
            k <= n,
            o@ == old(o)@ + enc_all(buff_writer(), v@.take(k as int)),
        decreases n - k,
    {
        proof {
            lemma_enc_all_step(buff_writer(), v@, k as int);
        }
        encode_buff(o, &v[k]);
        assert(o@ =~= old(o)@ + enc_all(buff_writer(), v@.take(k as int + 1)));
        k = k + 1;
    }
    proof {
        assert(v@.take(n as int) =~= v@);
    }
}

fn read_buffs(b: &[u8], p: &mut usize, n: usize) -> (r: Option<Vec<Buff>>)
    requires
        readable(b@, *old(p)),
    ensures
        decoded_view(r, *old(p), *final(p), sp_repeat(buff_reader(), b@, *old(p) as int, n as nat)),
        r is Some ==> readable(b@, *final(p)),
{
    let ghost p0 = *p as int;
    let mut v: Vec<Buff> = Vec::new();
    let mut k: usize = 0;
    while k < n
        invariant
            k <= n,
            p0 == *old(p),
            p0 <= *p,
            readable(b@, *p),
            sp_repeat(buff_reader(), b@, p0, k as nat) == Some((v@, *p as int)),
        decreases n - k,
    {
        let x = match decode_buff(b, p) {
            Some(x) => x,
            None => {
                proof {
                    lemma_repeat_fail(buff_reader(), b@, p0, (k + 1) as nat, n as nat);
                }
                return None;
            },
        };
        v.push(x);
        k = k + 1;
    }
    Some(v)
}

fn write_cmds(o: &mut Vec<u8>, v: &Vec<Cmd>)
    ensures
        final(o)@ == old(o)@ + enc_all(cmd_writer(), v@),
{
    let n = v.len();
    let mut k: usize = 0;
    while k < n
        invariant
            n == v@.len(),
            k <= n,
            o@ == old(o)@ + enc_all(cmd_writer(), v@.take(k as int)),
        decreases n - k,
    {
        proof {
            lemma_enc_all_step(cmd_writer(), v@, k as int);
        }
        encode_cmd(o, &v[k]);
        assert(o@ =~= old(o)@ + enc_all(cmd_writer(), v@.take(k as int + 1)));
        k = k + 1;
    }
    proof {
        assert(v@.take(n as int) =~= v@);
    }
}

fn read_cmds(b: &[u8], p: &mut usize, n: usize) -> (r: Option<Vec<Cmd>>)
    requires
        readable(b@, *old(p)),
    ensures
        decoded_view(r, *old(p), *final(p), sp_repeat(cmd_reader(), b@, *old(p) as int, n as nat)),
        r is Some ==> readable(b@, *final(p)),
{
    let ghost p0 = *p as int;
    let mut v: Vec<Cmd> = Vec::new();
    let mut k: usize = 0;
    while k < n
        invariant
            k <= n,
            p0 == *old(p),
            p0 <= *p,
            readable(b@, *p),
            sp_repeat(cmd_reader(), b@, p0, k as nat) == Some((v@, *p as int)),
        decreases n - k,
    {
        let x = match decode_cmd(b, p) {
            Some(x) => x,
            None => {
                proof {
                    lemma_repeat_fail(cmd_reader(), b@, p0, (k + 1) as nat, n as nat);
                }
                return None;
            },
        };
        v.push(x);
        k = k + 1;
    }
    Some(v)
}

/// Encoding of a rewind mark: its fields in order.
pub open spec fn enc_rewind(r: Rewind) -> Seq<u8> {
    enc_vec(r.pos) + enc_fix(r.hp) + enc_fix(r.remaining)
}

/// Reading a rewind mark.
pub open spec fn sp_rewind(s: Seq<u8>, i: int) -> Option<(Rewind, int)> {
    if fits(s, i, 32) {
        Some((Rewind { pos: Vec2 { x: rd_fix(s, i), y: rd_fix(s, i + 8) }, hp: rd_fix(s, i + 16), remaining: rd_fix(s, i + 24) }, i + 32))
    } else {
        None
    }
}

/// Reading a rewind mark back.
pub proof fn lemma_rewind_rt(r: Rewind, s: Seq<u8>, i: int)
    requires
        has_at(s, i, enc_rewind(r)),
    ensures
        sp_rewind(s, i) == Some((r, i + 32)),
{
    lemma_has_at_split(s, i, enc_vec(r.pos) + enc_fix(r.hp), enc_fix(r.remaining));
    lemma_has_at_split(s, i, enc_vec(r.pos), enc_fix(r.hp));
    lemma_vec_rt(r.pos, s, i);
    lemma_fix_rt(r.hp, s, i + 16);
    lemma_fix_rt(r.remaining, s, i + 24);
}

/// Item reader for a rewind mark.
pub open spec fn rewind_reader() -> spec_fn(Seq<u8>, int) -> Option<(Rewind, int)> {
    |s: Seq<u8>, i: int| sp_rewind(s, i)
}

/// Item writer for a rewind mark.
pub open spec fn rewind_writer() -> spec_fn(Rewind) -> Seq<u8> {
    |v: Rewind| enc_rewind(v)
}

/// The reader for a rewind mark reads back what the writer writes.
pub proof fn lemma_rewind_inverts()
    ensures
        inverts(rewind_reader(), rewind_writer(), always::<Rewind>()),
{
    assert forall|x: Rewind, s: Seq<u8>, i: int|
        (always::<Rewind>())(x) && #[trigger] has_at(s, i, (rewind_writer())(x)) implies (rewind_reader())(s, i)
            == Some((x, i + (rewind_writer())(x).len())) by {
        lemma_rewind_rt(x, s, i);
    }
}

fn write_rewind(o: &mut Vec<u8>, r: &Rewind)
    ensures
        final(o)@ == old(o)@ + enc_rewind(*r),
{
    wvec(o, r.pos);
    wfix(o, r.hp);
    wfix(o, r.remaining);
    assert(o@ =~= old(o)@ + enc_rewind(*r));
}

fn read_rewind(b: &[u8], p: &mut usize) -> (r: Option<Rewind>)
    requires
        readable(b@, *old(p)),
    ensures
        decoded(r, *old(p), *final(p), sp_rewind(b@, *old(p) as int)),
{
    let pos = vecat(b, p)?;
    let hp = fixat(b, p)?;
    let remaining = fixat(b, p)?;
    Some(Rewind { pos, hp, remaining })
}

/// Encoding of forced movement: its fields in order.
pub open spec fn enc_control(r: Control) -> Seq<u8> {
    enc_vec(r.vel) + enc_fix(r.remaining) + enc_bool(r.decay)
}

/// Reading forced movement.
pub open spec fn sp_control(s: Seq<u8>, i: int) -> Option<(Control, int)> {
    if fits(s, i, 25) {
        Some((Control { vel: Vec2 { x: rd_fix(s, i), y: rd_fix(s, i + 8) }, remaining: rd_fix(s, i + 16), decay: s[i + 24] != 0 }, i + 25))
    } else {
        None
    }
}

/// Reading forced movement back.
pub proof fn lemma_control_rt(r: Control, s: Seq<u8>, i: int)
    requires
        has_at(s, i, enc_control(r)),
    ensures
        sp_control(s, i) == Some((r, i + 25)),
{
    lemma_has_at_split(s, i, enc_vec(r.vel) + enc_fix(r.remaining), enc_bool(r.decay));
    lemma_has_at_split(s, i, enc_vec(r.vel), enc_fix(r.remaining));
    lemma_vec_rt(r.vel, s, i);
    lemma_fix_rt(r.remaining, s, i + 16);
    lemma_bool_rt(r.decay, s, i + 24);
}

/// Item reader for forced movement.
pub open spec fn control_reader() -> spec_fn(Seq<u8>, int) -> Option<(Control, int)> {
    |s: Seq<u8>, i: int| sp_control(s, i)
}

/// Item writer for forced movement.
pub open spec fn control_writer() -> spec_fn(Control) -> Seq<u8> {
    |v: Control| enc_control(v)
}

/// The reader for forced movement reads back what the writer writes.
pub proof fn lemma_control_inverts()
    ensures
        inverts(control_reader(), control_writer(), always::<Control>()),
{
    assert forall|x: Control, s: Seq<u8>, i: int|
        (always::<Control>())(x) && #[trigger] has_at(s, i, (control_writer())(x)) implies (control_reader())(s, i)
            == Some((x, i + (control_writer())(x).len())) by {
        lemma_control_rt(x, s, i);
    }
}

fn write_control(o: &mut Vec<u8>, r: &Control)
    ensures
        final(o)@ == old(o)@ + enc_control(*r),
{
    wvec(o, r.vel);
    wfix(o, r.remaining);
    wbool(o, r.decay);
    assert(o@ =~= old(o)@ + enc_control(*r));
}

fn read_control(b: &[u8], p: &mut usize) -> (r: Option<Control>)
    requires
        readable(b@, *old(p)),
    ensures
        decoded(r, *old(p), *final(p), sp_control(b@, *old(p) as int)),
{
    let vel = vecat(b, p)?;
    let remaining = fixat(b, p)?;
    let decay = boolat(b, p)?;
    Some(Control { vel, remaining, decay })
}

/// Encoding of a contact kick: its fields in order.
pub open spec fn enc_kick(r: Kick) -> Seq<u8> {
    enc_fix(r.push_power) + enc_fix(r.push_time) + enc_fix(r.push_damage) + enc_fix(r.remaining) + enc_bool(r.stop_on_hit)
}

/// Reading a contact kick.
pub open spec fn sp_kick(s: Seq<u8>, i: int) -> Option<(Kick, int)> {
    if fits(s, i, 33) {
        Some((Kick { push_power: rd_fix(s, i), push_time: rd_fix(s, i + 8), push_damage: rd_fix(s, i + 16), remaining: rd_fix(s, i + 24), stop_on_hit: s[i + 32] != 0 }, i + 33))
    } else {
        None
    }
}

/// Reading a contact kick back.
pub proof fn lemma_kick_rt(r: Kick, s: Seq<u8>, i: int)
    requires
        has_at(s, i, enc_kick(r)),
    ensures
        sp_kick(s, i) == Some((r, i + 33)),
{
    lemma_has_at_split(s, i, enc_fix(r.push_power) + enc_fix(r.push_time) + enc_fix(r.push_damage) + enc_fix(r.remaining), enc_bool(r.stop_on_hit));
    lemma_has_at_split(s, i, enc_fix(r.push_power) + enc_fix(r.push_time) + enc_fix(r.push_damage), enc_fix(r.remaining));
    lemma_has_at_split(s, i, enc_fix(r.push_power) + enc_fix(r.push_time), enc_fix(r.push_damage));
    lemma_has_at_split(s, i, enc_fix(r.push_power), enc_fix(r.push_time));
    lemma_fix_rt(r.push_power, s, i);
    lemma_fix_rt(r.push_time, s, i + 8);
    lemma_fix_rt(r.push_damage, s, i + 16);
    lemma_fix_rt(r.remaining, s, i + 24);
    lemma_bool_rt(r.stop_on_hit, s, i + 32);
}

/// Item reader for a contact kick.
pub open spec fn kick_reader() -> spec_fn(Seq<u8>, int) -> Option<(Kick, int)> {
    |s: Seq<u8>, i: int| sp_kick(s, i)
}

/// Item writer for a contact kick.
pub open spec fn kick_writer() -> spec_fn(Kick) -> Seq<u8> {
    |v: Kick| enc_kick(v)
}

/// The reader for a contact kick reads back what the writer writes.
pub proof fn lemma_kick_inverts()
    ensures
        inverts(kick_reader(), kick_writer(), always::<Kick>()),
{
    assert forall|x: Kick, s: Seq<u8>, i: int|
        (always::<Kick>())(x) && #[trigger] has_at(s, i, (kick_writer())(x)) implies (kick_reader())(s, i)
            == Some((x, i + (kick_writer())(x).len())) by {
        lemma_kick_rt(x, s, i);
    }
}

fn write_kick(o: &mut Vec<u8>, r: &Kick)
    ensures
        final(o)@ == old(o)@ + enc_kick(*r),
{
    wfix(o, r.push_power);
    wfix(o, r.push_time);
    wfix(o, r.push_damage);
    wfix(o, r.remaining);
    wbool(o, r.stop_on_hit);
    assert(o@ =~= old(o)@ + enc_kick(*r));
}

fn read_kick(b: &[u8], p: &mut usize) -> (r: Option<Kick>)
    requires
        readable(b@, *old(p)),
    ensures
        decoded(r, *old(p), *final(p), sp_kick(b@, *old(p) as int)),
{
    let push_power = fixat(b, p)?;
    let push_time = fixat(b, p)?;
    let push_damage = fixat(b, p)?;
    let remaining = fixat(b, p)?;
    let stop_on_hit = boolat(b, p)?;
    Some(Kick { push_power, push_time, push_damage, remaining, stop_on_hit })
}

/// Encoding of a bullet sweep: its fields in order.
pub open spec fn enc_sweep(r: SweepState) -> Seq<u8> {
    enc_vec(r.dir) + enc_fix(r.bullet_speed) + enc_fix(r.damage) + enc_u32(r.remaining) + enc_u64(r.cadence) + enc_u64(r.turn_step) + enc_u64(r.elapsed) + enc_u32(r.id)
}

/// Reading a bullet sweep.
pub open spec fn sp_sweep(s: Seq<u8>, i: int) -> Option<(SweepState, int)> {
    if fits(s, i, 64) {
        Some((SweepState { dir: Vec2 { x: rd_fix(s, i), y: rd_fix(s, i + 8) }, bullet_speed: rd_fix(s, i + 16), damage: rd_fix(s, i + 24), remaining: rd_u32(s, i + 32), cadence: rd_u64(s, i + 36), turn_step: rd_u64(s, i + 44), elapsed: rd_u64(s, i + 52), id: rd_u32(s, i + 60) }, i + 64))
    } else {
        None
    }
}

/// Reading a bullet sweep back.
pub proof fn lemma_sweep_rt(r: SweepState, s: Seq<u8>, i: int)
    requires
        has_at(s, i, enc_sweep(r)),
    ensures
        sp_sweep(s, i) == Some((r, i + 64)),
{
    lemma_has_at_split(s, i, enc_vec(r.dir) + enc_fix(r.bullet_speed) + enc_fix(r.damage) + enc_u32(r.remaining) + enc_u64(r.cadence) + enc_u64(r.turn_step) + enc_u64(r.elapsed), enc_u32(r.id));
    lemma_has_at_split(s, i, enc_vec(r.dir) + enc_fix(r.bullet_speed) + enc_fix(r.damage) + enc_u32(r.remaining) + enc_u64(r.cadence) + enc_u64(r.turn_step), enc_u64(r.elapsed));
    lemma_has_at_split(s, i, enc_vec(r.dir) + enc_fix(r.bullet_speed) + enc_fix(r.damage) + enc_u32(r.remaining) + enc_u64(r.cadence), enc_u64(r.turn_step));
    lemma_has_at_split(s, i, enc_vec(r.dir) + enc_fix(r.bullet_speed) + enc_fix(r.damage) + enc_u32(r.remaining), enc_u64(r.cadence));
    lemma_has_at_split(s, i, enc_vec(r.dir) + enc_fix(r.bullet_speed) + enc_fix(r.damage), enc_u32(r.remaining));
    lemma_has_at_split(s, i, enc_vec(r.dir) + enc_fix(r.bullet_speed), enc_fix(r.damage));
    lemma_has_at_split(s, i, enc_vec(r.dir), enc_fix(r.bullet_speed));
    lemma_vec_rt(r.dir, s, i);
    lemma_fix_rt(r.bullet_speed, s, i + 16);
    lemma_fix_rt(r.damage, s, i + 24);
    lemma_u32_rt(r.remaining, s, i + 32);
    lemma_u64_rt(r.cadence, s, i + 36);
    lemma_u64_rt(r.turn_step, s, i + 44);
    lemma_u64_rt(r.elapsed, s, i + 52);
    lemma_u32_rt(r.id, s, i + 60);
}

/// Item reader for a bullet sweep.
pub open spec fn sweep_reader() -> spec_fn(Seq<u8>, int) -> Option<(SweepState, int)> {
    |s: Seq<u8>, i: int| sp_sweep(s, i)
}

/// Item writer for a bullet sweep.
pub open spec fn sweep_writer() -> spec_fn(SweepState) -> Seq<u8> {
    |v: SweepState| enc_sweep(v)
}

/// The reader for a bullet sweep reads back what the writer writes.
pub proof fn lemma_sweep_inverts()
    ensures
        inverts(sweep_reader(), sweep_writer(), always::<SweepState>()),
{
    assert forall|x: SweepState, s: Seq<u8>, i: int|
        (always::<SweepState>())(x) && #[trigger] has_at(s, i, (sweep_writer())(x)) implies (sweep_reader())(s, i)
            == Some((x, i + (sweep_writer())(x).len())) by {
        lemma_sweep_rt(x, s, i);
    }
}

fn write_sweep(o: &mut Vec<u8>, r: &SweepState)
    ensures
        final(o)@ == old(o)@ + enc_sweep(*r),
{
    wvec(o, r.dir);
    wfix(o, r.bullet_speed);
    wfix(o, r.damage);
    wu32(o, r.remaining);
    wu64(o, r.cadence);
    wu64(o, r.turn_step);
    wu64(o, r.elapsed);
    wu32(o, r.id);
    assert(o@ =~= old(o)@ + enc_sweep(*r));
}

fn read_sweep(b: &[u8], p: &mut usize) -> (r: Option<SweepState>)
    requires
        readable(b@, *old(p)),
    ensures
        decoded(r, *old(p), *final(p), sp_sweep(b@, *old(p) as int)),
{
    let dir = vecat(b, p)?;
    let bullet_speed = fixat(b, p)?;
    let damage = fixat(b, p)?;
    let remaining = u32at(b, p)?;
    let cadence = u64at(b, p)?;
    let turn_step = u64at(b, p)?;
    let elapsed = u64at(b, p)?;
    let id = u32at(b, p)?;
    Some(SweepState { dir, bullet_speed, damage, remaining, cadence, turn_step, elapsed, id })
}

fn write_opt_rewind(o: &mut Vec<u8>, v: Option<Rewind>)
    ensures
        final(o)@ == old(o)@ + enc_opt(rewind_writer(), v),
{
    match v {
        Some(x) => {
            wu8(o, 1);
            write_rewind(o, &x);
            assert(o@ =~= old(o)@ + enc_opt(rewind_writer(), v));
        },
        None => wu8(o, 0),
    }
}

fn read_opt_rewind(b: &[u8], p: &mut usize) -> (r: Option<Option<Rewind>>)
    requires
        readable(b@, *old(p)),
    ensures
        decoded(r, *old(p), *final(p), sp_opt(rewind_reader(), b@, *old(p) as int)),
{
    Some(if u8at(b, p)? != 0 { Some(read_rewind(b, p)?) } else { None })
}

fn write_opt_control(o: &mut Vec<u8>, v: Option<Control>)
    ensures
        final(o)@ == old(o)@ + enc_opt(control_writer(), v),
{
    match v {
        Some(x) => {
            wu8(o, 1);
            write_control(o, &x);
            assert(o@ =~= old(o)@ + enc_opt(control_writer(), v));
        },
        None => wu8(o, 0),
    }
}

fn read_opt_control(b: &[u8], p: &mut usize) -> (r: Option<Option<Control>>)
    requires
        readable(b@, *old(p)),
    ensures
        decoded(r, *old(p), *final(p), sp_opt(control_reader(), b@, *old(p) as int)),
{
    Some(if u8at(b, p)? != 0 { Some(read_control(b, p)?) } else { None })
}

fn write_opt_kick(o: &mut Vec<u8>, v: Option<Kick>)
    ensures
        final(o)@ == old(o)@ + enc_opt(kick_writer(), v),
{
    match v {
        Some(x) => {
            wu8(o, 1);
            write_kick(o, &x);
            assert(o@ =~= old(o)@ + enc_opt(kick_writer(), v));
        },
        None => wu8(o, 0),
    }
}

fn read_opt_kick(b: &[u8], p: &mut usize) -> (r: Option<Option<Kick>>)
    requires
        readable(b@, *old(p)),
    ensures
        decoded(r, *old(p), *final(p), sp_opt(kick_reader(), b@, *old(p) as int)),
{
    Some(if u8at(b, p)? != 0 { Some(read_kick(b, p)?) } else { None })
}

fn write_opt_sweep(o: &mut Vec<u8>, v: Option<SweepState>)
    ensures
        final(o)@ == old(o)@ + enc_opt(sweep_writer(), v),
{
    match v {
        Some(x) => {
            wu8(o, 1);
            write_sweep(o, &x);
            assert(o@ =~= old(o)@ + enc_opt(sweep_writer(), v));
        },
        None => wu8(o, 0),
    }
}

fn read_opt_sweep(b: &[u8], p: &mut usize) -> (r: Option<Option<SweepState>>)
    requires
        readable(b@, *old(p)),
    ensures
        decoded(r, *old(p), *final(p), sp_opt(sweep_reader(), b@, *old(p) as int)),
{
    Some(if u8at(b, p)? != 0 { Some(read_sweep(b, p)?) } else { None })
}

pub(crate) fn write_opt_fix(o: &mut Vec<u8>, v: Option<Fix64>)
    ensures
        final(o)@ == old(o)@ + enc_opt(fix_writer(), v),
{
    match v {
        Some(x) => {
            wu8(o, 1);
            wfix(o, x);
            assert(o@ =~= old(o)@ + enc_opt(fix_writer(), v));
        },
        None => wu8(o, 0),
    }
}

pub(crate) fn read_opt_fix(b: &[u8], p: &mut usize) -> (r: Option<Option<Fix64>>)
    requires
        readable(b@, *old(p)),
    ensures
        decoded(r, *old(p), *final(p), sp_opt(fix_reader(), b@, *old(p) as int)),
{
    Some(if u8at(b, p)? != 0 { Some(fixat(b, p)?) } else { None })
}

fn write_opt_u32(o: &mut Vec<u8>, v: Option<u32>)
    ensures
        final(o)@ == old(o)@ + enc_opt(u32_writer(), v),
{
    match v {
        Some(x) => {
            wu8(o, 1);
            wu32(o, x);
            assert(o@ =~= old(o)@ + enc_opt(u32_writer(), v));
        },
        None => wu8(o, 0),
    }
}

// ===========================================================================
// Caster, items, last hitter
// ===========================================================================

/// Encoding of a caster: its phase, then one cooldown per skill slot.
pub open spec fn enc_caster(c: CasterView) -> Seq<u8> {
    enc_cast_phase(c.phase) + enc_all(fix_writer(), c.cooldowns)
}

/// Reading a caster.
pub open spec fn sp_caster(s: Seq<u8>, i: int) -> Option<(CasterView, int)> {
    match sp_cast_phase(s, i) {
        Some((phase, j)) => match sp_repeat(fix_reader(), s, j, MAX_SKILL_SLOTS as nat) {
            Some((cooldowns, k)) => Some((CasterView { phase, cooldowns }, k)),
            None => None,
        },
        None => None,
    }
}

/// Reading a caster back, when it has one cooldown per skill slot.
pub proof fn lemma_caster_rt(c: CasterView, s: Seq<u8>, i: int)
    requires
        c.cooldowns.len() == MAX_SKILL_SLOTS,
        has_at(s, i, enc_caster(c)),
    ensures
        sp_caster(s, i) == Some((c, i + enc_caster(c).len())),
{
    let a = enc_cast_phase(c.phase);
    lemma_has_at_split(s, i, a, enc_all(fix_writer(), c.cooldowns));
    lemma_cast_phase_rt(c.phase, s, i);
    lemma_fix_inverts();
    lemma_repeat_rt(fix_reader(), fix_writer(), always::<Fix64>(), c.cooldowns, s, i + a.len());
}

fn encode_caster(o: &mut Vec<u8>, c: &Caster)
    ensures
        final(o)@ == old(o)@ + enc_caster(c@),
{
    let (phase, cd) = c.raw_snapshot();
    encode_cast_phase(o, phase);
    write_fixs(o, cd);
    assert(o@ =~= old(o)@ + enc_caster(c@));
}

fn decode_caster(o: &mut Caster, b: &[u8], p: &mut usize) -> (r: Option<()>)
    requires
        readable(b@, *old(p)),
    ensures
        *old(p) <= *final(p),
        match sp_caster(b@, *old(p) as int) {
            Some((c, j)) => r == Some(()) && final(o)@ == c && *final(p) == j,
            None => r is None && *final(o) == *old(o),
        },
{
    let phase = decode_cast_phase(b, p)?;
    let cd = read_fixs(b, p, MAX_SKILL_SLOTS)?;
    o.raw_restore(phase, cd);
    Some(())
}

/// Encoding of a short list of words (such as item codes): its length as a byte, then
/// each word.
pub open spec fn enc_short_list(items: Seq<u32>) -> Seq<u8> {
    enc_u8(items.len() as u8) + enc_all(u32_writer(), items)
}

/// Reading a short list of words.
pub open spec fn sp_short_list(s: Seq<u8>, i: int) -> Option<(Seq<u32>, int)> {
    match sp_u8(s, i) {
        Some((n, j)) => sp_repeat(u32_reader(), s, j, n as nat),
        None => None,
    }
}

/// Reading a short list of words back, when it has fewer than 256 of them.
pub proof fn lemma_short_list_rt(items: Seq<u32>, s: Seq<u8>, i: int)
    requires
        items.len() < 256,
        has_at(s, i, enc_short_list(items)),
    ensures
        sp_short_list(s, i) == Some((items, i + enc_short_list(items).len())),
{
    lemma_has_at_split(s, i, enc_u8(items.len() as u8), enc_all(u32_writer(), items));
    lemma_u8_rt(items.len() as u8, s, i);
    lemma_u32_inverts();
    lemma_repeat_rt(u32_reader(), u32_writer(), always::<u32>(), items, s, i + 1);
}

fn write_short_list(o: &mut Vec<u8>, items: &Vec<u32>)
    ensures
        final(o)@ == old(o)@ + enc_short_list(items@),
{
    wu8(o, #[verifier::truncate] (items.len() as u8));
    write_u32s(o, items);
    assert(o@ =~= old(o)@ + enc_short_list(items@));
}

fn read_short_list(b: &[u8], p: &mut usize) -> (r: Option<Vec<u32>>)
    requires
        readable(b@, *old(p)),
    ensures
        decoded_view(r, *old(p), *final(p), sp_short_list(b@, *old(p) as int)),
        r is Some ==> readable(b@, *final(p)),
{
    let n_items = u8at(b, p)? as usize;
    read_u32s(b, p, n_items)
}

/// Reading the optional last hitter of a player among `np` players: an index out of
/// range is refused.
pub open spec fn sp_hit_by(s: Seq<u8>, i: int, np: usize) -> Option<(Option<u32>, int)> {
    match sp_opt(u32_reader(), s, i) {
        Some((Some(k), j)) => if k >= np { None } else { Some((Some(k), j)) },
        other => other,
    }
}

/// Reading the last hitter back, when it is in range.
pub proof fn lemma_hit_by_rt(v: Option<u32>, np: usize, s: Seq<u8>, i: int)
    requires
        v matches Some(k) ==> k < np,
        has_at(s, i, enc_opt(u32_writer(), v)),
    ensures
        sp_hit_by(s, i, np) == Some((v, i + enc_opt(u32_writer(), v).len())),
{
    lemma_u32_inverts();
    lemma_opt_rt(u32_reader(), u32_writer(), v, s, i);
}

fn read_hit_by(b: &[u8], p: &mut usize, np: usize) -> (r: Option<Option<u32>>)
    requires
        readable(b@, *old(p)),
    ensures
        decoded(r, *old(p), *final(p), sp_hit_by(b@, *old(p) as int, np)),
{
    Some(
        if u8at(b, p)? != 0 {
            let k = u32at(b, p)?;
            if (k as usize) >= np {
                return None;
            }
            Some(k)
        } else {
            None
        },
    )
}

// ===========================================================================
// Players
// ===========================================================================

/// Whether command ring-buffer indices fit a buffer of [`MAX_CMDS`] slots: the head is a
/// slot and the length at most the capacity.
pub open spec fn spec_cmd_indices_valid(head: int, len: int) -> bool {
    head < MAX_CMDS && len <= MAX_CMDS
}

/// Checks command ring-buffer indices taken from a snapshot, so that a corrupt or hostile
/// snapshot cannot make the buffer be indexed out of range.
pub fn cmd_indices_valid(head: usize, len: usize) -> (r: bool)
    ensures
        r == spec_cmd_indices_valid(head as int, len as int),
{
    head < MAX_CMDS && len <= MAX_CMDS
}

/// Encoding of part 1 of a player.
#[verifier::opaque]
pub open spec fn enc_player_part1(pv: PlayerView) -> Seq<u8> {
    enc_u32(pv.id)
        + enc_vec(pv.pos)
        + enc_fix(pv.radius)
        + enc_fix(pv.hp)
        + enc_fix(pv.max_hp)
        + enc_opt(rewind_writer(), pv.rewind)
        + enc_u8(pv.catastrophe_stage)
        + enc_fix(pv.lava_boot_cd)
}

/// Encoding of part 2 of a player.
#[verifier::opaque]
pub open spec fn enc_player_part2(pv: PlayerView) -> Seq<u8> {
    enc_u64(pv.mana)
        + enc_u64(pv.growth)
        + enc_bool(pv.aegis_charged)
        + enc_all(u8_writer(), pv.mastery)
        + enc_all(bool_writer(), pv.forms)
        + enc_fix(pv.phoenix_remaining)
        + enc_u8(pv.team)
}

/// Encoding of part 3 of a player.
#[verifier::opaque]
pub open spec fn enc_player_part3(pv: PlayerView) -> Seq<u8> {
    enc_short_list(pv.items)
        + enc_opt_vec(pv.move_target)
        + enc_caster(pv.caster)
        + enc_all(u32_writer(), pv.skill_levels)
        + enc_opt(u32_writer(), pv.last_hit_by)
}

/// Encoding of part 4 of a player.
#[verifier::opaque]
pub open spec fn enc_player_part4(pv: PlayerView) -> Seq<u8> {
    enc_opt(control_writer(), pv.control)
        + enc_vec(pv.pull)
        + enc_vec(pv.cur_vel)
        + enc_all(buff_writer(), pv.buffs)
        + enc_opt_vec(pv.shadow_anchor)
        + enc_fix(pv.shadow_window)
        + enc_opt(kick_writer(), pv.kick)
}

/// Encoding of part 5 of a player.
#[verifier::opaque]
pub open spec fn enc_player_part5(pv: PlayerView) -> Seq<u8> {
    enc_fix(pv.boost_soaked)
        + enc_fix(pv.s007_absorb)
        + enc_fix(pv.s007_bonus)
        + enc_opt(fix_writer(), pv.fake_active)
        + enc_opt(fix_writer(), pv.blink2_window)
        + enc_bool(pv.dash_active)
        + enc_vec(pv.dash_vel)
        + enc_bool(pv.burning)
        + enc_bool(pv.charging)
        + enc_bool(pv.parry_ready)
        + enc_fix(pv.parry_cd)
}

/// Encoding of part 6 of a player.
#[verifier::opaque]
pub open spec fn enc_player_part6(pv: PlayerView) -> Seq<u8> {
    enc_opt(fix_writer(), pv.ricochet_pending)
        + enc_opt(kick_writer(), pv.ricochet_kick)
        + enc_fix(pv.ricochet_window)
        + enc_opt(sweep_writer(), pv.sweep)
        + enc_u64(pv.damageplus)
}

/// Encoding of part 7 of a player.
#[verifier::opaque]
pub open spec fn enc_player_part7(pv: PlayerView) -> Seq<u8> {
    enc_all(cmd_writer(), pv.cmd_buf)
        + enc_u32(pv.cmd_head as u32)
        + enc_u32(pv.cmd_len as u32)
        + enc_bool(pv.alive)
}

/// Encoding of a player: its fields in declaration order (see [`Player`]); flags as one
/// byte, optional parts behind a presence byte, the item list behind its length byte.
pub open spec fn enc_player(pv: PlayerView) -> Seq<u8> {
    enc_player_part1(pv)
        + enc_player_part2(pv)
        + enc_player_part3(pv)
        + enc_player_part4(pv)
        + enc_player_part5(pv)
        + enc_player_part6(pv)
        + enc_player_part7(pv)
}

/// A player that a snapshot of `np` players can carry: every per-slot list has its fixed
/// length, fewer than 256 items, its own index and its last hitter below `np`, and the
/// command ring buffer indices in range.
pub open spec fn wf_player(pv: PlayerView, np: usize) -> bool {
    &&& pv.id < np
    &&& pv.mastery.len() == MASTERY_TRACKS
    &&& pv.forms.len() == MAX_SKILL_SLOTS
    &&& pv.items.len() < 256
    &&& pv.caster.cooldowns.len() == MAX_SKILL_SLOTS
    &&& pv.skill_levels.len() == MAX_SKILL_SLOTS
    &&& (pv.last_hit_by matches Some(k) ==> k < np)
    &&& pv.buffs.len() == MAX_BUFFS
    &&& pv.cmd_buf.len() == MAX_CMDS
    &&& spec_cmd_indices_valid(pv.cmd_head as int, pv.cmd_len as int)
}

/// The player that decoding starts from before every field is read.
pub open spec fn blank_player_view() -> PlayerView {
    PlayerView {
        id: 0, pos: Vec2 { x: Fix64(0), y: Fix64(0) }, radius: Fix64(0), hp: Fix64(0), max_hp: Fix64(0),
        rewind: None, catastrophe_stage: 0, lava_boot_cd: Fix64(0), mana: 0, growth: 0,
        aegis_charged: false, mastery: Seq::empty(), forms: Seq::empty(), phoenix_remaining: Fix64(0),
        team: 0, items: Seq::empty(), move_target: None,
        caster: CasterView { phase: CastPhase::Idle, cooldowns: Seq::empty() },
        skill_levels: Seq::empty(), last_hit_by: None, control: None,
        pull: Vec2 { x: Fix64(0), y: Fix64(0) }, cur_vel: Vec2 { x: Fix64(0), y: Fix64(0) },
        buffs: Seq::empty(), shadow_anchor: None, shadow_window: Fix64(0), kick: None,
        boost_soaked: Fix64(0), s007_absorb: Fix64(0), s007_bonus: Fix64(0), fake_active: None,
        blink2_window: None, dash_active: false, dash_vel: Vec2 { x: Fix64(0), y: Fix64(0) },
        burning: false, charging: false, parry_ready: false, parry_cd: Fix64(0),
        ricochet_pending: None, ricochet_kick: None, ricochet_window: Fix64(0), sweep: None,
        damageplus: 0, cmd_buf: Seq::empty(), cmd_head: 0, cmd_len: 0, alive: false,
    }
}

fn blank_player() -> (p: Player)
    ensures
        p@ == blank_player_view(),
{
    let z = Fix64::from_bits(0);
    let v = Vec2::new(z, z);
    let r = Player {
        id: 0, pos: v, radius: z, hp: z, max_hp: z, rewind: None, catastrophe_stage: 0,
        lava_boot_cd: z, mana: 0, growth: 0, aegis_charged: false, mastery: Vec::new(),
        forms: Vec::new(), phoenix_remaining: z, team: 0, items: Vec::new(), move_target: None,
        caster: Caster { phase: CastPhase::Idle, cooldowns: Vec::new() }, skill_levels: Vec::new(),
        last_hit_by: None, control: None, pull: v, cur_vel: v, buffs: Vec::new(),
        shadow_anchor: None, shadow_window: z, kick: None, boost_soaked: z, s007_absorb: z,
        s007_bonus: z, fake_active: None, blink2_window: None, dash_active: false, dash_vel: v,
        burning: false, charging: false, parry_ready: false, parry_cd: z, ricochet_pending: None,
        ricochet_kick: None, ricochet_window: z, sweep: None, damageplus: 0, cmd_buf: Vec::new(),
        cmd_head: 0, cmd_len: 0, alive: false,
    };
    assert(r@.mastery =~= Seq::<u8>::empty());
    assert(r@.forms =~= Seq::<bool>::empty());
    assert(r@.items =~= Seq::<u32>::empty());
    assert(r@.caster.cooldowns =~= Seq::<Fix64>::empty());
    assert(r@.skill_levels =~= Seq::<u32>::empty());
    assert(r@.buffs =~= Seq::<Buff>::empty());
    assert(r@.cmd_buf =~= Seq::<Cmd>::empty());
    r
}

/// Reading part 1 of a player into `base`.
#[verifier::opaque]
pub open spec fn sp_player_part1(s: Seq<u8>, i: int, np: usize, base: PlayerView) -> Option<(PlayerView, int)> {
    let r0 = sp_u32(s, i);
    let (v_id, q0) = r0.unwrap();
    let r1 = sp_vec(s, q0);
    let (v_pos, q1) = r1.unwrap();
    let r2 = sp_fix(s, q1);
    let (v_radius, q2) = r2.unwrap();
    let r3 = sp_fix(s, q2);
    let (v_hp, q3) = r3.unwrap();
    let r4 = sp_fix(s, q3);
    let (v_max_hp, q4) = r4.unwrap();
    let r5 = sp_opt(rewind_reader(), s, q4);
    let (v_rewind, q5) = r5.unwrap();
    let r6 = sp_u8(s, q5);
    let (v_catastrophe_stage, q6) = r6.unwrap();
    let r7 = sp_fix(s, q6);
    let (v_lava_boot_cd, q7) = r7.unwrap();
    if r0 is Some
        && v_id < np
        && r1 is Some
        && r2 is Some
        && r3 is Some
        && r4 is Some
        && r5 is Some
        && r6 is Some
        && r7 is Some {
        Some((PlayerView { id: v_id, pos: v_pos, radius: v_radius, hp: v_hp, max_hp: v_max_hp, rewind: v_rewind, catastrophe_stage: v_catastrophe_stage, lava_boot_cd: v_lava_boot_cd, ..base }, q7))
    } else {
        None
    }
}

/// Reading part 1 of a player back.
#[verifier::spinoff_prover]
pub proof fn lemma_player_part1_rt(pv: PlayerView, np: usize, base: PlayerView, s: Seq<u8>, i: int)
    requires
        pv.id < np,
        has_at(s, i, enc_player_part1(pv)),
    ensures
        sp_player_part1(s, i, np, base) == Some((PlayerView { id: pv.id, pos: pv.pos, radius: pv.radius, hp: pv.hp, max_hp: pv.max_hp, rewind: pv.rewind, catastrophe_stage: pv.catastrophe_stage, lava_boot_cd: pv.lava_boot_cd, ..base }, i + enc_player_part1(pv).len())),
{
    reveal(enc_player_part1);
    reveal(sp_player_part1);
    let e0 = enc_u32(pv.id);
    let e1 = enc_vec(pv.pos);
    let e2 = enc_fix(pv.radius);
    let e3 = enc_fix(pv.hp);
    let e4 = enc_fix(pv.max_hp);
    let e5 = enc_opt(rewind_writer(), pv.rewind);
    let e6 = enc_u8(pv.catastrophe_stage);
    let e7 = enc_fix(pv.lava_boot_cd);
    let a0 = e0;
    let a1 = a0 + e1;
    let a2 = a1 + e2;
    let a3 = a2 + e3;
    let a4 = a3 + e4;
    let a5 = a4 + e5;
    let a6 = a5 + e6;
    let a7 = a6 + e7;
    assert(enc_player_part1(pv) == a7);
    lemma_has_at_split(s, i, a6, e7);
    lemma_has_at_split(s, i, a5, e6);
    lemma_has_at_split(s, i, a4, e5);
    lemma_has_at_split(s, i, a3, e4);
    lemma_has_at_split(s, i, a2, e3);
    lemma_has_at_split(s, i, a1, e2);
    lemma_has_at_split(s, i, a0, e1);
    lemma_rewind_inverts();
    lemma_u32_rt(pv.id, s, i);
    lemma_vec_rt(pv.pos, s, i + a0.len());
    lemma_fix_rt(pv.radius, s, i + a1.len());
    lemma_fix_rt(pv.hp, s, i + a2.len());
    lemma_fix_rt(pv.max_hp, s, i + a3.len());
    lemma_opt_rt(rewind_reader(), rewind_writer(), pv.rewind, s, i + a4.len());
    lemma_u8_rt(pv.catastrophe_stage, s, i + a5.len());
    lemma_fix_rt(pv.lava_boot_cd, s, i + a6.len());
}

#[verifier::spinoff_prover]
fn encode_player_part1(o: &mut Vec<u8>, p: &Player)
    ensures
        final(o)@ == old(o)@ + enc_player_part1(p@),
{
    wu32(o, p.id);
    let ghost acc = enc_u32(p@.id);
    assert(o@ =~= old(o)@ + acc);
    wvec(o, p.pos);
    let ghost acc = acc + enc_vec(p@.pos);
    assert(o@ =~= old(o)@ + acc);
    wfix(o, p.radius);
    let ghost acc = acc + enc_fix(p@.radius);
    assert(o@ =~= old(o)@ + acc);
    wfix(o, p.hp);
    let ghost acc = acc + enc_fix(p@.hp);
    assert(o@ =~= old(o)@ + acc);
    wfix(o, p.max_hp);
    let ghost acc = acc + enc_fix(p@.max_hp);
    assert(o@ =~= old(o)@ + acc);
    write_opt_rewind(o, p.rewind);
    let ghost acc = acc + enc_opt(rewind_writer(), p@.rewind);
    assert(o@ =~= old(o)@ + acc);
    wu8(o, p.catastrophe_stage);
    let ghost acc = acc + enc_u8(p@.catastrophe_stage);
    assert(o@ =~= old(o)@ + acc);
    wfix(o, p.lava_boot_cd);
    let ghost acc = acc + enc_fix(p@.lava_boot_cd);
    assert(o@ =~= old(o)@ + acc);
    assert(acc == enc_player_part1(p@)) by {
        reveal(enc_player_part1);
    }
}

fn decode_player_part1(pl: &mut Player, b: &[u8], p: &mut usize, np: usize) -> (r: Option<()>)
    requires
        readable(b@, *old(p)),
    ensures
        *old(p) <= *final(p),
        r is Some ==> *final(p) <= b@.len(),
        match sp_player_part1(b@, *old(p) as int, np, old(pl)@) {
            Some((v, j)) => r == Some(()) && final(pl)@ == v && *final(p) == j,
            None => r is None && *final(pl) == *old(pl),
        },
{
    reveal(sp_player_part1);
    let id = u32at(b, p)?;
    if (id as usize) >= np {
        return None;
    }
    let pos = vecat(b, p)?;
    let radius = fixat(b, p)?;
    let hp = fixat(b, p)?;
    let max_hp = fixat(b, p)?;
    let rewind = read_opt_rewind(b, p)?;
    let catastrophe_stage = u8at(b, p)?;
    let lava_boot_cd = fixat(b, p)?;
    pl.id = id;
    pl.pos = pos;
    pl.radius = radius;
    pl.hp = hp;
    pl.max_hp = max_hp;
    pl.rewind = rewind;
    pl.catastrophe_stage = catastrophe_stage;
    pl.lava_boot_cd = lava_boot_cd;
    Some(())
}

/// Reading part 2 of a player into `base`.
#[verifier::opaque]
pub open spec fn sp_player_part2(s: Seq<u8>, i: int, np: usize, base: PlayerView) -> Option<(PlayerView, int)> {
    let r0 = sp_u64(s, i);
    let (v_mana, q0) = r0.unwrap();
    let r1 = sp_u64(s, q0);
    let (v_growth, q1) = r1.unwrap();
    let r2 = sp_bool(s, q1);
    let (v_aegis_charged, q2) = r2.unwrap();
    let r3 = sp_repeat(u8_reader(), s, q2, MASTERY_TRACKS as nat);
    let (v_mastery, q3) = r3.unwrap();
    let r4 = sp_repeat(bool_reader(), s, q3, MAX_SKILL_SLOTS as nat);
    let (v_forms, q4) = r4.unwrap();
    let r5 = sp_fix(s, q4);
    let (v_phoenix_remaining, q5) = r5.unwrap();
    let r6 = sp_u8(s, q5);
    let (v_team, q6) = r6.unwrap();
    if r0 is Some
        && r1 is Some
        && r2 is Some
        && r3 is Some
        && r4 is Some
        && r5 is Some
        && r6 is Some {
        Some((PlayerView { mana: v_mana, growth: v_growth, aegis_charged: v_aegis_charged, mastery: v_mastery, forms: v_forms, phoenix_remaining: v_phoenix_remaining, team: v_team, ..base }, q6))
    } else {
        None
    }
}

/// Reading part 2 of a player back.
#[verifier::spinoff_prover]
pub proof fn lemma_player_part2_rt(pv: PlayerView, np: usize, base: PlayerView, s: Seq<u8>, i: int)
    requires
        pv.mastery.len() == MASTERY_TRACKS,
        pv.forms.len() == MAX_SKILL_SLOTS,
        has_at(s, i, enc_player_part2(pv)),
    ensures
        sp_player_part2(s, i, np, base) == Some((PlayerView { mana: pv.mana, growth: pv.growth, aegis_charged: pv.aegis_charged, mastery: pv.mastery, forms: pv.forms, phoenix_remaining: pv.phoenix_remaining, team: pv.team, ..base }, i + enc_player_part2(pv).len())),
{
    reveal(enc_player_part2);
    reveal(sp_player_part2);
    let e0 = enc_u64(pv.mana);
    let e1 = enc_u64(pv.growth);
    let e2 = enc_bool(pv.aegis_charged);
    let e3 = enc_all(u8_writer(), pv.mastery);
    let e4 = enc_all(bool_writer(), pv.forms);
    let e5 = enc_fix(pv.phoenix_remaining);
    let e6 = enc_u8(pv.team);
    let a0 = e0;
    let a1 = a0 + e1;
    let a2 = a1 + e2;
    let a3 = a2 + e3;
    let a4 = a3 + e4;
    let a5 = a4 + e5;
    let a6 = a5 + e6;
    assert(enc_player_part2(pv) == a6);
    lemma_has_at_split(s, i, a5, e6);
    lemma_has_at_split(s, i, a4, e5);
    lemma_has_at_split(s, i, a3, e4);
    lemma_has_at_split(s, i, a2, e3);
    lemma_has_at_split(s, i, a1, e2);
    lemma_has_at_split(s, i, a0, e1);
    lemma_u8_inverts();
    lemma_bool_inverts();
    lemma_u64_rt(pv.mana, s, i);
    lemma_u64_rt(pv.growth, s, i + a0.len());
    lemma_bool_rt(pv.aegis_charged, s, i + a1.len());
    lemma_repeat_rt(u8_reader(), u8_writer(), always::<u8>(), pv.mastery, s, i + a2.len());
    lemma_repeat_rt(bool_reader(), bool_writer(), always::<bool>(), pv.forms, s, i + a3.len());
    lemma_fix_rt(pv.phoenix_remaining, s, i + a4.len());
    lemma_u8_rt(pv.team, s, i + a5.len());
}

#[verifier::spinoff_prover]
fn encode_player_part2(o: &mut Vec<u8>, p: &Player)
    ensures
        final(o)@ == old(o)@ + enc_player_part2(p@),
{
    wu64(o, p.mana);
    let ghost acc = enc_u64(p@.mana);
    assert(o@ =~= old(o)@ + acc);
    wu64(o, p.growth);
    let ghost acc = acc + enc_u64(p@.growth);
    assert(o@ =~= old(o)@ + acc);
    wbool(o, p.aegis_charged);
    let ghost acc = acc + enc_bool(p@.aegis_charged);
    assert(o@ =~= old(o)@ + acc);
    write_u8s(o, &p.mastery);
    let ghost acc = acc + enc_all(u8_writer(), p@.mastery);
    assert(o@ =~= old(o)@ + acc);
    write_bools(o, &p.forms);
    let ghost acc = acc + enc_all(bool_writer(), p@.forms);
    assert(o@ =~= old(o)@ + acc);
    wfix(o, p.phoenix_remaining);
    let ghost acc = acc + enc_fix(p@.phoenix_remaining);
    assert(o@ =~= old(o)@ + acc);
    wu8(o, p.team);
    let ghost acc = acc + enc_u8(p@.team);
    assert(o@ =~= old(o)@ + acc);
    assert(acc == enc_player_part2(p@)) by {
        reveal(enc_player_part2);
    }
}

fn decode_player_part2(pl: &mut Player, b: &[u8], p: &mut usize, np: usize) -> (r: Option<()>)
    requires
        readable(b@, *old(p)),
    ensures
        *old(p) <= *final(p),
        r is Some ==> *final(p) <= b@.len(),
        match sp_player_part2(b@, *old(p) as int, np, old(pl)@) {
            Some((v, j)) => r == Some(()) && final(pl)@ == v && *final(p) == j,
            None => r is None && *final(pl) == *old(pl),
        },
{
    reveal(sp_player_part2);
    let mana = u64at(b, p)?;
    let growth = u64at(b, p)?;
    let aegis_charged = boolat(b, p)?;
    let mastery = read_u8s(b, p, MASTERY_TRACKS)?;
    let forms = read_bools(b, p, MAX_SKILL_SLOTS)?;
    let phoenix_remaining = fixat(b, p)?;
    let team = u8at(b, p)?;
    pl.mana = mana;
    pl.growth = growth;
    pl.aegis_charged = aegis_charged;
    pl.mastery = mastery;
    pl.forms = forms;
    pl.phoenix_remaining = phoenix_remaining;
    pl.team = team;
    Some(())
}

/// Reading part 3 of a player into `base`.
#[verifier::opaque]
pub open spec fn sp_player_part3(s: Seq<u8>, i: int, np: usize, base: PlayerView) -> Option<(PlayerView, int)> {
    let r0 = sp_short_list(s, i);
    let (v_items, q0) = r0.unwrap();
    let r1 = sp_opt_vec(s, q0);
    let (v_move_target, q1) = r1.unwrap();
    let r2 = sp_caster(s, q1);
    let (v_caster, q2) = r2.unwrap();
    let r3 = sp_repeat(u32_reader(), s, q2, MAX_SKILL_SLOTS as nat);
    let (v_skill_levels, q3) = r3.unwrap();
    let r4 = sp_hit_by(s, q3, np);
    let (v_last_hit_by, q4) = r4.unwrap();
    if r0 is Some
        && r1 is Some
        && r2 is Some
        && r3 is Some
        && r4 is Some {
        Some((PlayerView { items: v_items, move_target: v_move_target, caster: v_caster, skill_levels: v_skill_levels, last_hit_by: v_last_hit_by, ..base }, q4))
    } else {
        None
    }
}

/// Reading part 3 of a player back.
#[verifier::spinoff_prover]
pub proof fn lemma_player_part3_rt(pv: PlayerView, np: usize, base: PlayerView, s: Seq<u8>, i: int)
    requires
        pv.items.len() < 256,
        pv.caster.cooldowns.len() == MAX_SKILL_SLOTS,
        pv.skill_levels.len() == MAX_SKILL_SLOTS,
        (pv.last_hit_by matches Some(k) ==> k < np),
        has_at(s, i, enc_player_part3(pv)),
    ensures
        sp_player_part3(s, i, np, base) == Some((PlayerView { items: pv.items, move_target: pv.move_target, caster: pv.caster, skill_levels: pv.skill_levels, last_hit_by: pv.last_hit_by, ..base }, i + enc_player_part3(pv).len())),
{
    reveal(enc_player_part3);
    reveal(sp_player_part3);
    let e0 = enc_short_list(pv.items);
    let e1 = enc_opt_vec(pv.move_target);
    let e2 = enc_caster(pv.caster);
    let e3 = enc_all(u32_writer(), pv.skill_levels);
    let e4 = enc_opt(u32_writer(), pv.last_hit_by);
    let a0 = e0;
    let a1 = a0 + e1;
    let a2 = a1 + e2;
    let a3 = a2 + e3;
    let a4 = a3 + e4;
    assert(enc_player_part3(pv) == a4);
    lemma_has_at_split(s, i, a3, e4);
    lemma_has_at_split(s, i, a2, e3);
    lemma_has_at_split(s, i, a1, e2);
    lemma_has_at_split(s, i, a0, e1);
    lemma_u32_inverts();
    lemma_short_list_rt(pv.items, s, i);
    lemma_opt_vec_rt(pv.move_target, s, i + a0.len());
    lemma_caster_rt(pv.caster, s, i + a1.len());
    lemma_repeat_rt(u32_reader(), u32_writer(), always::<u32>(), pv.skill_levels, s, i + a2.len());
    lemma_hit_by_rt(pv.last_hit_by, np, s, i + a3.len());
}

#[verifier::spinoff_prover]
fn encode_player_part3(o: &mut Vec<u8>, p: &Player)
    ensures
        final(o)@ == old(o)@ + enc_player_part3(p@),
{
    write_short_list(o, &p.items);
    let ghost acc = enc_short_list(p@.items);
    assert(o@ =~= old(o)@ + acc);
    wopt_vec(o, p.move_target);
    let ghost acc = acc + enc_opt_vec(p@.move_target);
    assert(o@ =~= old(o)@ + acc);
    encode_caster(o, &p.caster);
    let ghost acc = acc + enc_caster(p@.caster);
    assert(o@ =~= old(o)@ + acc);
    write_u32s(o, &p.skill_levels);
    let ghost acc = acc + enc_all(u32_writer(), p@.skill_levels);
    assert(o@ =~= old(o)@ + acc);
    write_opt_u32(o, p.last_hit_by);
    let ghost acc = acc + enc_opt(u32_writer(), p@.last_hit_by);
    assert(o@ =~= old(o)@ + acc);
    assert(acc == enc_player_part3(p@)) by {
        reveal(enc_player_part3);
    }
}

fn decode_player_part3(pl: &mut Player, b: &[u8], p: &mut usize, np: usize) -> (r: Option<()>)
    requires
        readable(b@, *old(p)),
    ensures
        *old(p) <= *final(p),
        r is Some ==> *final(p) <= b@.len(),
        match sp_player_part3(b@, *old(p) as int, np, old(pl)@) {
            Some((v, j)) => r == Some(()) && final(pl)@ == v && *final(p) == j,
            None => r is None && *final(pl) == *old(pl),
        },
{
    reveal(sp_player_part3);
    let items = read_short_list(b, p)?;
    let move_target = opt_vec(b, p)?;
    let mut caster = Caster { phase: CastPhase::Idle, cooldowns: Vec::new() };
    decode_caster(&mut caster, b, p)?;
    let skill_levels = read_u32s(b, p, MAX_SKILL_SLOTS)?;
    let last_hit_by = read_hit_by(b, p, np)?;
    pl.items = items;
    pl.move_target = move_target;
    pl.caster = caster;
    pl.skill_levels = skill_levels;
    pl.last_hit_by = last_hit_by;
    Some(())
}

/// Reading part 4 of a player into `base`.
#[verifier::opaque]
pub open spec fn sp_player_part4(s: Seq<u8>, i: int, np: usize, base: PlayerView) -> Option<(PlayerView, int)> {
    let r0 = sp_opt(control_reader(), s, i);
    let (v_control, q0) = r0.unwrap();
    let r1 = sp_vec(s, q0);
    let (v_pull, q1) = r1.unwrap();
    let r2 = sp_vec(s, q1);
    let (v_cur_vel, q2) = r2.unwrap();
    let r3 = sp_repeat(buff_reader(), s, q2, MAX_BUFFS as nat);
    let (v_buffs, q3) = r3.unwrap();
    let r4 = sp_opt_vec(s, q3);
    let (v_shadow_anchor, q4) = r4.unwrap();
    let r5 = sp_fix(s, q4);
    let (v_shadow_window, q5) = r5.unwrap();
    let r6 = sp_opt(kick_reader(), s, q5);
    let (v_kick, q6) = r6.unwrap();
    if r0 is Some
        && r1 is Some
        && r2 is Some
        && r3 is Some
        && r4 is Some
        && r5 is Some
        && r6 is Some {
        Some((PlayerView { control: v_control, pull: v_pull, cur_vel: v_cur_vel, buffs: v_buffs, shadow_anchor: v_shadow_anchor, shadow_window: v_shadow_window, kick: v_kick, ..base }, q6))
    } else {
        None
    }
}

/// Reading part 4 of a player back.
#[verifier::spinoff_prover]
pub proof fn lemma_player_part4_rt(pv: PlayerView, np: usize, base: PlayerView, s: Seq<u8>, i: int)
    requires
        pv.buffs.len() == MAX_BUFFS,
        has_at(s, i, enc_player_part4(pv)),
    ensures
        sp_player_part4(s, i, np, base) == Some((PlayerView { control: pv.control, pull: pv.pull, cur_vel: pv.cur_vel, buffs: pv.buffs, shadow_anchor: pv.shadow_anchor, shadow_window: pv.shadow_window, kick: pv.kick, ..base }, i + enc_player_part4(pv).len())),
{
    reveal(enc_player_part4);
    reveal(sp_player_part4);
    let e0 = enc_opt(control_writer(), pv.control);
    let e1 = enc_vec(pv.pull);
    let e2 = enc_vec(pv.cur_vel);
    let e3 = enc_all(buff_writer(), pv.buffs);
    let e4 = enc_opt_vec(pv.shadow_anchor);
    let e5 = enc_fix(pv.shadow_window);
    let e6 = enc_opt(kick_writer(), pv.kick);
    let a0 = e0;
    let a1 = a0 + e1;
    let a2 = a1 + e2;
    let a3 = a2 + e3;
    let a4 = a3 + e4;
    let a5 = a4 + e5;
    let a6 = a5 + e6;
    assert(enc_player_part4(pv) == a6);
    lemma_has_at_split(s, i, a5, e6);
    lemma_has_at_split(s, i, a4, e5);
    lemma_has_at_split(s, i, a3, e4);
    lemma_has_at_split(s, i, a2, e3);
    lemma_has_at_split(s, i, a1, e2);
    lemma_has_at_split(s, i, a0, e1);
    lemma_control_inverts();
    lemma_buff_inverts();
    lemma_kick_inverts();
    lemma_opt_rt(control_reader(), control_writer(), pv.control, s, i);
    lemma_vec_rt(pv.pull, s, i + a0.len());
    lemma_vec_rt(pv.cur_vel, s, i + a1.len());
    lemma_repeat_rt(buff_reader(), buff_writer(), always::<Buff>(), pv.buffs, s, i + a2.len());
    lemma_opt_vec_rt(pv.shadow_anchor, s, i + a3.len());
    lemma_fix_rt(pv.shadow_window, s, i + a4.len());
    lemma_opt_rt(kick_reader(), kick_writer(), pv.kick, s, i + a5.len());
}

#[verifier::spinoff_prover]
fn encode_player_part4(o: &mut Vec<u8>, p: &Player)
    ensures
        final(o)@ == old(o)@ + enc_player_part4(p@),
{
    write_opt_control(o, p.control);
    let ghost acc = enc_opt(control_writer(), p@.control);
    assert(o@ =~= old(o)@ + acc);
    wvec(o, p.pull);
    let ghost acc = acc + enc_vec(p@.pull);
    assert(o@ =~= old(o)@ + acc);
    wvec(o, p.cur_vel);
    let ghost acc = acc + enc_vec(p@.cur_vel);
    assert(o@ =~= old(o)@ + acc);
    write_buffs(o, &p.buffs);
    let ghost acc = acc + enc_all(buff_writer(), p@.buffs);
    assert(o@ =~= old(o)@ + acc);
    wopt_vec(o, p.shadow_anchor);
    let ghost acc = acc + enc_opt_vec(p@.shadow_anchor);
    assert(o@ =~= old(o)@ + acc);
    wfix(o, p.shadow_window);
    let ghost acc = acc + enc_fix(p@.shadow_window);
    assert(o@ =~= old(o)@ + acc);
    write_opt_kick(o, p.kick);
    let ghost acc = acc + enc_opt(kick_writer(), p@.kick);
    assert(o@ =~= old(o)@ + acc);
    assert(acc == enc_player_part4(p@)) by {
        reveal(enc_player_part4);
    }
}

fn decode_player_part4(pl: &mut Player, b: &[u8], p: &mut usize, np: usize) -> (r: Option<()>)
    requires
        readable(b@, *old(p)),
    ensures
        *old(p) <= *final(p),
        r is Some ==> *final(p) <= b@.len(),
        match sp_player_part4(b@, *old(p) as int, np, old(pl)@) {
            Some((v, j)) => r == Some(()) && final(pl)@ == v && *final(p) == j,
            None => r is None && *final(pl) == *old(pl),
        },
{
    reveal(sp_player_part4);
    let control = read_opt_control(b, p)?;
    let pull = vecat(b, p)?;
    let cur_vel = vecat(b, p)?;
    let buffs = read_buffs(b, p, MAX_BUFFS)?;
    let shadow_anchor = opt_vec(b, p)?;
    let shadow_window = fixat(b, p)?;
    let kick = read_opt_kick(b, p)?;
    pl.control = control;
    pl.pull = pull;
    pl.cur_vel = cur_vel;
    pl.buffs = buffs;
    pl.shadow_anchor = shadow_anchor;
    pl.shadow_window = shadow_window;
    pl.kick = kick;
    Some(())
}

/// Reading part 5 of a player into `base`.
#[verifier::opaque]
pub open spec fn sp_player_part5(s: Seq<u8>, i: int, np: usize, base: PlayerView) -> Option<(PlayerView, int)> {
    let r0 = sp_fix(s, i);
    let (v_boost_soaked, q0) = r0.unwrap();
    let r1 = sp_fix(s, q0);
    let (v_s007_absorb, q1) = r1.unwrap();
    let r2 = sp_fix(s, q1);
    let (v_s007_bonus, q2) = r2.unwrap();
    let r3 = sp_opt(fix_reader(), s, q2);
    let (v_fake_active, q3) = r3.unwrap();
    let r4 = sp_opt(fix_reader(), s, q3);
    let (v_blink2_window, q4) = r4.unwrap();
    let r5 = sp_bool(s, q4);
    let (v_dash_active, q5) = r5.unwrap();
    let r6 = sp_vec(s, q5);
    let (v_dash_vel, q6) = r6.unwrap();
    let r7 = sp_bool(s, q6);
    let (v_burning, q7) = r7.unwrap();
    let r8 = sp_bool(s, q7);
    let (v_charging, q8) = r8.unwrap();
    let r9 = sp_bool(s, q8);
    let (v_parry_ready, q9) = r9.unwrap();
    let r10 = sp_fix(s, q9);
    let (v_parry_cd, q10) = r10.unwrap();
    if r0 is Some
        && r1 is Some
        && r2 is Some
        && r3 is Some
        && r4 is Some
        && r5 is Some
        && r6 is Some
        && r7 is Some
        && r8 is Some
        && r9 is Some
        && r10 is Some {
        Some((PlayerView { boost_soaked: v_boost_soaked, s007_absorb: v_s007_absorb, s007_bonus: v_s007_bonus, fake_active: v_fake_active, blink2_window: v_blink2_window, dash_active: v_dash_active, dash_vel: v_dash_vel, burning: v_burning, charging: v_charging, parry_ready: v_parry_ready, parry_cd: v_parry_cd, ..base }, q10))
    } else {
        None
    }
}

/// Reading part 5 of a player back.
#[verifier::spinoff_prover]
pub proof fn lemma_player_part5_rt(pv: PlayerView, np: usize, base: PlayerView, s: Seq<u8>, i: int)
    requires
        has_at(s, i, enc_player_part5(pv)),
    ensures
        sp_player_part5(s, i, np, base) == Some((PlayerView { boost_soaked: pv.boost_soaked, s007_absorb: pv.s007_absorb, s007_bonus: pv.s007_bonus, fake_active: pv.fake_active, blink2_window: pv.blink2_window, dash_active: pv.dash_active, dash_vel: pv.dash_vel, burning: pv.burning, charging: pv.charging, parry_ready: pv.parry_ready, parry_cd: pv.parry_cd, ..base }, i + enc_player_part5(pv).len())),
{
    reveal(enc_player_part5);
    reveal(sp_player_part5);
    let e0 = enc_fix(pv.boost_soaked);
    let e1 = enc_fix(pv.s007_absorb);
    let e2 = enc_fix(pv.s007_bonus);
    let e3 = enc_opt(fix_writer(), pv.fake_active);
    let e4 = enc_opt(fix_writer(), pv.blink2_window);
    let e5 = enc_bool(pv.dash_active);
    let e6 = enc_vec(pv.dash_vel);
    let e7 = enc_bool(pv.burning);
    let e8 = enc_bool(pv.charging);
    let e9 = enc_bool(pv.parry_ready);
    let e10 = enc_fix(pv.parry_cd);
    let a0 = e0;
    let a1 = a0 + e1;
    let a2 = a1 + e2;
    let a3 = a2 + e3;
    let a4 = a3 + e4;
    let a5 = a4 + e5;
    let a6 = a5 + e6;
    let a7 = a6 + e7;
    let a8 = a7 + e8;
    let a9 = a8 + e9;
    let a10 = a9 + e10;
    assert(enc_player_part5(pv) == a10);
    lemma_has_at_split(s, i, a9, e10);
    lemma_has_at_split(s, i, a8, e9);
    lemma_has_at_split(s, i, a7, e8);
    lemma_has_at_split(s, i, a6, e7);
    lemma_has_at_split(s, i, a5, e6);
    lemma_has_at_split(s, i, a4, e5);
    lemma_has_at_split(s, i, a3, e4);
    lemma_has_at_split(s, i, a2, e3);
    lemma_has_at_split(s, i, a1, e2);
    lemma_has_at_split(s, i, a0, e1);
    lemma_fix_inverts();
    lemma_fix_rt(pv.boost_soaked, s, i);
    lemma_fix_rt(pv.s007_absorb, s, i + a0.len());
    lemma_fix_rt(pv.s007_bonus, s, i + a1.len());
    lemma_opt_rt(fix_reader(), fix_writer(), pv.fake_active, s, i + a2.len());
    lemma_opt_rt(fix_reader(), fix_writer(), pv.blink2_window, s, i + a3.len());
    lemma_bool_rt(pv.dash_active, s, i + a4.len());
    lemma_vec_rt(pv.dash_vel, s, i + a5.len());
    lemma_bool_rt(pv.burning, s, i + a6.len());
    lemma_bool_rt(pv.charging, s, i + a7.len());
    lemma_bool_rt(pv.parry_ready, s, i + a8.len());
    lemma_fix_rt(pv.parry_cd, s, i + a9.len());
}

#[verifier::spinoff_prover]
fn encode_player_part5(o: &mut Vec<u8>, p: &Player)
    ensures
        final(o)@ == old(o)@ + enc_player_part5(p@),
{
    wfix(o, p.boost_soaked);
    let ghost acc = enc_fix(p@.boost_soaked);
    assert(o@ =~= old(o)@ + acc);
    wfix(o, p.s007_absorb);
    let ghost acc = acc + enc_fix(p@.s007_absorb);
    assert(o@ =~= old(o)@ + acc);
    wfix(o, p.s007_bonus);
    let ghost acc = acc + enc_fix(p@.s007_bonus);
    assert(o@ =~= old(o)@ + acc);
    write_opt_fix(o, p.fake_active);
    let ghost acc = acc + enc_opt(fix_writer(), p@.fake_active);
    assert(o@ =~= old(o)@ + acc);
    write_opt_fix(o, p.blink2_window);
    let ghost acc = acc + enc_opt(fix_writer(), p@.blink2_window);
    assert(o@ =~= old(o)@ + acc);
    wbool(o, p.dash_active);
    let ghost acc = acc + enc_bool(p@.dash_active);
    assert(o@ =~= old(o)@ + acc);
    wvec(o, p.dash_vel);
    let ghost acc = acc + enc_vec(p@.dash_vel);
    assert(o@ =~= old(o)@ + acc);
    wbool(o, p.burning);
    let ghost acc = acc + enc_bool(p@.burning);
    assert(o@ =~= old(o)@ + acc);
    wbool(o, p.charging);
    let ghost acc = acc + enc_bool(p@.charging);
    assert(o@ =~= old(o)@ + acc);
    wbool(o, p.parry_ready);
    let ghost acc = acc + enc_bool(p@.parry_ready);
    assert(o@ =~= old(o)@ + acc);
    wfix(o, p.parry_cd);
    let ghost acc = acc + enc_fix(p@.parry_cd);
    assert(o@ =~= old(o)@ + acc);
    assert(acc == enc_player_part5(p@)) by {
        reveal(enc_player_part5);
    }
}

fn decode_player_part5(pl: &mut Player, b: &[u8], p: &mut usize, np: usize) -> (r: Option<()>)
    requires
        readable(b@, *old(p)),
    ensures
        *old(p) <= *final(p),
        r is Some ==> *final(p) <= b@.len(),
        match sp_player_part5(b@, *old(p) as int, np, old(pl)@) {
            Some((v, j)) => r == Some(()) && final(pl)@ == v && *final(p) == j,
            None => r is None && *final(pl) == *old(pl),
        },
{
    reveal(sp_player_part5);
    let boost_soaked = fixat(b, p)?;
    let s007_absorb = fixat(b, p)?;
    let s007_bonus = fixat(b, p)?;
    let fake_active = read_opt_fix(b, p)?;
    let blink2_window = read_opt_fix(b, p)?;
    let dash_active = boolat(b, p)?;
    let dash_vel = vecat(b, p)?;
    let burning = boolat(b, p)?;
    let charging = boolat(b, p)?;
    let parry_ready = boolat(b, p)?;
    let parry_cd = fixat(b, p)?;
    pl.boost_soaked = boost_soaked;
    pl.s007_absorb = s007_absorb;
    pl.s007_bonus = s007_bonus;
    pl.fake_active = fake_active;
    pl.blink2_window = blink2_window;
    pl.dash_active = dash_active;
    pl.dash_vel = dash_vel;
    pl.burning = burning;
    pl.charging = charging;
    pl.parry_ready = parry_ready;
    pl.parry_cd = parry_cd;
    Some(())
}

/// Reading part 6 of a player into `base`.
#[verifier::opaque]
pub open spec fn sp_player_part6(s: Seq<u8>, i: int, np: usize, base: PlayerView) -> Option<(PlayerView, int)> {
    let r0 = sp_opt(fix_reader(), s, i);
    let (v_ricochet_pending, q0) = r0.unwrap();
    let r1 = sp_opt(kick_reader(), s, q0);
    let (v_ricochet_kick, q1) = r1.unwrap();
    let r2 = sp_fix(s, q1);
    let (v_ricochet_window, q2) = r2.unwrap();
    let r3 = sp_opt(sweep_reader(), s, q2);
    let (v_sweep, q3) = r3.unwrap();
    let r4 = sp_u64(s, q3);
    let (v_damageplus, q4) = r4.unwrap();
    if r0 is Some
        && r1 is Some
        && r2 is Some
        && r3 is Some
        && r4 is Some {
        Some((PlayerView { ricochet_pending: v_ricochet_pending, ricochet_kick: v_ricochet_kick, ricochet_window: v_ricochet_window, sweep: v_sweep, damageplus: v_damageplus, ..base }, q4))
    } else {
        None
    }
}

/// Reading part 6 of a player back.
#[verifier::spinoff_prover]
pub proof fn lemma_player_part6_rt(pv: PlayerView, np: usize, base: PlayerView, s: Seq<u8>, i: int)
    requires
        has_at(s, i, enc_player_part6(pv)),
    ensures
        sp_player_part6(s, i, np, base) == Some((PlayerView { ricochet_pending: pv.ricochet_pending, ricochet_kick: pv.ricochet_kick, ricochet_window: pv.ricochet_window, sweep: pv.sweep, damageplus: pv.damageplus, ..base }, i + enc_player_part6(pv).len())),
{
    reveal(enc_player_part6);
    reveal(sp_player_part6);
    let e0 = enc_opt(fix_writer(), pv.ricochet_pending);
    let e1 = enc_opt(kick_writer(), pv.ricochet_kick);
    let e2 = enc_fix(pv.ricochet_window);
    let e3 = enc_opt(sweep_writer(), pv.sweep);
    let e4 = enc_u64(pv.damageplus);
    let a0 = e0;
    let a1 = a0 + e1;
    let a2 = a1 + e2;
    let a3 = a2 + e3;
    let a4 = a3 + e4;
    assert(enc_player_part6(pv) == a4);
    lemma_has_at_split(s, i, a3, e4);
    lemma_has_at_split(s, i, a2, e3);
    lemma_has_at_split(s, i, a1, e2);
    lemma_has_at_split(s, i, a0, e1);
    lemma_fix_inverts();
    lemma_kick_inverts();
    lemma_sweep_inverts();
    lemma_opt_rt(fix_reader(), fix_writer(), pv.ricochet_pending, s, i);
    lemma_opt_rt(kick_reader(), kick_writer(), pv.ricochet_kick, s, i + a0.len());
    lemma_fix_rt(pv.ricochet_window, s, i + a1.len());
    lemma_opt_rt(sweep_reader(), sweep_writer(), pv.sweep, s, i + a2.len());
    lemma_u64_rt(pv.damageplus, s, i + a3.len());
}

#[verifier::spinoff_prover]
fn encode_player_part6(o: &mut Vec<u8>, p: &Player)
    ensures
        final(o)@ == old(o)@ + enc_player_part6(p@),
{
    write_opt_fix(o, p.ricochet_pending);
    let ghost acc = enc_opt(fix_writer(), p@.ricochet_pending);
    assert(o@ =~= old(o)@ + acc);
    write_opt_kick(o, p.ricochet_kick);
    let ghost acc = acc + enc_opt(kick_writer(), p@.ricochet_kick);
    assert(o@ =~= old(o)@ + acc);
    wfix(o, p.ricochet_window);
    let ghost acc = acc + enc_fix(p@.ricochet_window);
    assert(o@ =~= old(o)@ + acc);
    write_opt_sweep(o, p.sweep);
    let ghost acc = acc + enc_opt(sweep_writer(), p@.sweep);
    assert(o@ =~= old(o)@ + acc);
    wu64(o, p.damageplus);
    let ghost acc = acc + enc_u64(p@.damageplus);
    assert(o@ =~= old(o)@ + acc);
    assert(acc == enc_player_part6(p@)) by {
        reveal(enc_player_part6);
    }
}

fn decode_player_part6(pl: &mut Player, b: &[u8], p: &mut usize, np: usize) -> (r: Option<()>)
    requires
        readable(b@, *old(p)),
    ensures
        *old(p) <= *final(p),
        r is Some ==> *final(p) <= b@.len(),
        match sp_player_part6(b@, *old(p) as int, np, old(pl)@) {
            Some((v, j)) => r == Some(()) && final(pl)@ == v && *final(p) == j,
            None => r is None && *final(pl) == *old(pl),
        },
{
    reveal(sp_player_part6);
    let ricochet_pending = read_opt_fix(b, p)?;
    let ricochet_kick = read_opt_kick(b, p)?;
    let ricochet_window = fixat(b, p)?;
    let sweep = read_opt_sweep(b, p)?;
    let damageplus = u64at(b, p)?;
    pl.ricochet_pending = ricochet_pending;
    pl.ricochet_kick = ricochet_kick;
    pl.ricochet_window = ricochet_window;
    pl.sweep = sweep;
    pl.damageplus = damageplus;
    Some(())
}

/// Reading part 7 of a player into `base`.
#[verifier::opaque]
pub open spec fn sp_player_part7(s: Seq<u8>, i: int, np: usize, base: PlayerView) -> Option<(PlayerView, int)> {
    let r0 = sp_repeat(cmd_reader(), s, i, MAX_CMDS as nat);
    let (v_cmd_buf, q0) = r0.unwrap();
    let r1 = sp_u32(s, q0);
    let (v_cmd_head, q1) = r1.unwrap();
    let r2 = sp_u32(s, q1);
    let (v_cmd_len, q2) = r2.unwrap();
    let r3 = sp_bool(s, q2);
    let (v_alive, q3) = r3.unwrap();
    if r0 is Some
        && r1 is Some
        && r2 is Some
        && spec_cmd_indices_valid(v_cmd_head as int, v_cmd_len as int)
        && r3 is Some {
        Some((PlayerView { cmd_buf: v_cmd_buf, cmd_head: v_cmd_head as usize, cmd_len: v_cmd_len as usize, alive: v_alive, ..base }, q3))
    } else {
        None
    }
}

/// Reading part 7 of a player back.
#[verifier::spinoff_prover]
pub proof fn lemma_player_part7_rt(pv: PlayerView, np: usize, base: PlayerView, s: Seq<u8>, i: int)
    requires
        pv.cmd_buf.len() == MAX_CMDS,
        spec_cmd_indices_valid(pv.cmd_head as int, pv.cmd_len as int),
        has_at(s, i, enc_player_part7(pv)),
    ensures
        sp_player_part7(s, i, np, base) == Some((PlayerView { cmd_buf: pv.cmd_buf, cmd_head: pv.cmd_head, cmd_len: pv.cmd_len, alive: pv.alive, ..base }, i + enc_player_part7(pv).len())),
{
    reveal(enc_player_part7);
    reveal(sp_player_part7);
    let e0 = enc_all(cmd_writer(), pv.cmd_buf);
    let e1 = enc_u32(pv.cmd_head as u32);
    let e2 = enc_u32(pv.cmd_len as u32);
    let e3 = enc_bool(pv.alive);
    let a0 = e0;
    let a1 = a0 + e1;
    let a2 = a1 + e2;
    let a3 = a2 + e3;
    assert(enc_player_part7(pv) == a3);
    lemma_has_at_split(s, i, a2, e3);
    lemma_has_at_split(s, i, a1, e2);
    lemma_has_at_split(s, i, a0, e1);
    lemma_cmd_inverts();
    lemma_repeat_rt(cmd_reader(), cmd_writer(), always::<Cmd>(), pv.cmd_buf, s, i);
    lemma_u32_rt(pv.cmd_head as u32, s, i + a0.len());
    lemma_u32_rt(pv.cmd_len as u32, s, i + a1.len());
    lemma_bool_rt(pv.alive, s, i + a2.len());
}

#[verifier::spinoff_prover]
fn encode_player_part7(o: &mut Vec<u8>, p: &Player)
    ensures
        final(o)@ == old(o)@ + enc_player_part7(p@),
{
    write_cmds(o, &p.cmd_buf);
    let ghost acc = enc_all(cmd_writer(), p@.cmd_buf);
    assert(o@ =~= old(o)@ + acc);
    wu32(o, p.cmd_head as u32);
    let ghost acc = acc + enc_u32(p@.cmd_head as u32);
    assert(o@ =~= old(o)@ + acc);
    wu32(o, p.cmd_len as u32);
    let ghost acc = acc + enc_u32(p@.cmd_len as u32);
    assert(o@ =~= old(o)@ + acc);
    wbool(o, p.alive);
    let ghost acc = acc + enc_bool(p@.alive);
    assert(o@ =~= old(o)@ + acc);
    assert(acc == enc_player_part7(p@)) by {
        reveal(enc_player_part7);
    }
}

fn decode_player_part7(pl: &mut Player, b: &[u8], p: &mut usize, np: usize) -> (r: Option<()>)
    requires
        readable(b@, *old(p)),
    ensures
        *old(p) <= *final(p),
        r is Some ==> *final(p) <= b@.len(),
        match sp_player_part7(b@, *old(p) as int, np, old(pl)@) {
            Some((v, j)) => r == Some(()) && final(pl)@ == v && *final(p) == j,
            None => r is None && *final(pl) == *old(pl),
        },
{
    reveal(sp_player_part7);
    let cmd_buf = read_cmds(b, p, MAX_CMDS)?;
    let cmd_head = u32at(b, p)? as usize;
    let cmd_len = u32at(b, p)? as usize;
    if !cmd_indices_valid(cmd_head, cmd_len) {
        return None;
    }
    let alive = boolat(b, p)?;
    pl.cmd_buf = cmd_buf;
    pl.cmd_head = cmd_head;
    pl.cmd_len = cmd_len;
    pl.alive = alive;
    Some(())
}

/// Reading a player of a snapshot with `np` players: its parts in order; the player's
/// index and last hitter must be below `np` and the command ring indices in range.
pub open spec fn sp_player(s: Seq<u8>, i: int, np: usize) -> Option<(PlayerView, int)> {
    match sp_player_part1(s, i, np, blank_player_view()) {
        Some((v1, q1)) => match sp_player_part2(s, q1, np, v1) {
        Some((v2, q2)) => match sp_player_part3(s, q2, np, v2) {
        Some((v3, q3)) => match sp_player_part4(s, q3, np, v3) {
        Some((v4, q4)) => match sp_player_part5(s, q4, np, v4) {
        Some((v5, q5)) => match sp_player_part6(s, q5, np, v5) {
        Some((v6, q6)) => match sp_player_part7(s, q6, np, v6) {
        Some((v7, q7)) => Some((v7, q7)),
        None => None,
    },
        None => None,
    },
        None => None,
    },
        None => None,
    },
        None => None,
    },
        None => None,
    },
        None => None,
    }
}

/// Reading a player back: a player that a snapshot of `np` players can carry reads back
/// exactly as it was written.
pub proof fn lemma_player_rt(pv: PlayerView, np: usize, s: Seq<u8>, i: int)
    requires
        wf_player(pv, np),
        has_at(s, i, enc_player(pv)),
    ensures
        sp_player(s, i, np) == Some((pv, i + enc_player(pv).len())),
{
    let e0 = enc_player_part1(pv);
    let e1 = enc_player_part2(pv);
    let e2 = enc_player_part3(pv);
    let e3 = enc_player_part4(pv);
    let e4 = enc_player_part5(pv);
    let e5 = enc_player_part6(pv);
    let e6 = enc_player_part7(pv);
    let a0 = e0;
    let a1 = a0 + e1;
    let a2 = a1 + e2;
    let a3 = a2 + e3;
    let a4 = a3 + e4;
    let a5 = a4 + e5;
    let a6 = a5 + e6;
    assert(enc_player(pv) == a6);
    lemma_has_at_split(s, i, a5, e6);
    lemma_has_at_split(s, i, a4, e5);
    lemma_has_at_split(s, i, a3, e4);
    lemma_has_at_split(s, i, a2, e3);
    lemma_has_at_split(s, i, a1, e2);
    lemma_has_at_split(s, i, a0, e1);
    let b1 = PlayerView { id: pv.id, pos: pv.pos, radius: pv.radius, hp: pv.hp, max_hp: pv.max_hp, rewind: pv.rewind, catastrophe_stage: pv.catastrophe_stage, lava_boot_cd: pv.lava_boot_cd, ..blank_player_view() };
    lemma_player_part1_rt(pv, np, blank_player_view(), s, i);
    let q1 = i + e0.len();
    assert(q1 == i + a0.len());
    assert(has_at(s, q1, e1));
    let b2 = PlayerView { mana: pv.mana, growth: pv.growth, aegis_charged: pv.aegis_charged, mastery: pv.mastery, forms: pv.forms, phoenix_remaining: pv.phoenix_remaining, team: pv.team, ..b1 };
    lemma_player_part2_rt(pv, np, b1, s, q1);
    let q2 = q1 + e1.len();
    assert(q2 == i + a1.len());
    assert(has_at(s, q2, e2));
    let b3 = PlayerView { items: pv.items, move_target: pv.move_target, caster: pv.caster, skill_levels: pv.skill_levels, last_hit_by: pv.last_hit_by, ..b2 };
    lemma_player_part3_rt(pv, np, b2, s, q2);
    let q3 = q2 + e2.len();
    assert(q3 == i + a2.len());
    assert(has_at(s, q3, e3));
    let b4 = PlayerView { control: pv.control, pull: pv.pull, cur_vel: pv.cur_vel, buffs: pv.buffs, shadow_anchor: pv.shadow_anchor, shadow_window: pv.shadow_window, kick: pv.kick, ..b3 };
    lemma_player_part4_rt(pv, np, b3, s, q3);
    let q4 = q3 + e3.len();
    assert(q4 == i + a3.len());
    assert(has_at(s, q4, e4));
    let b5 = PlayerView { boost_soaked: pv.boost_soaked, s007_absorb: pv.s007_absorb, s007_bonus: pv.s007_bonus, fake_active: pv.fake_active, blink2_window: pv.blink2_window, dash_active: pv.dash_active, dash_vel: pv.dash_vel, burning: pv.burning, charging: pv.charging, parry_ready: pv.parry_ready, parry_cd: pv.parry_cd, ..b4 };
    lemma_player_part5_rt(pv, np, b4, s, q4);
    let q5 = q4 + e4.len();
    assert(q5 == i + a4.len());
    assert(has_at(s, q5, e5));
    let b6 = PlayerView { ricochet_pending: pv.ricochet_pending, ricochet_kick: pv.ricochet_kick, ricochet_window: pv.ricochet_window, sweep: pv.sweep, damageplus: pv.damageplus, ..b5 };
    lemma_player_part6_rt(pv, np, b5, s, q5);
    let q6 = q5 + e5.len();
    assert(q6 == i + a5.len());
    assert(has_at(s, q6, e6));
    let b7 = PlayerView { cmd_buf: pv.cmd_buf, cmd_head: pv.cmd_head, cmd_len: pv.cmd_len, alive: pv.alive, ..b6 };
    lemma_player_part7_rt(pv, np, b6, s, q6);
    assert(b7 == pv);
}

fn encode_player(o: &mut Vec<u8>, p: &Player)
    ensures
        final(o)@ == old(o)@ + enc_player(p@),
{
    encode_player_part1(o, p);
    let ghost acc = enc_player_part1(p@);
    assert(o@ =~= old(o)@ + acc);
    encode_player_part2(o, p);
    let ghost acc = acc + enc_player_part2(p@);
    assert(o@ =~= old(o)@ + acc);
    encode_player_part3(o, p);
    let ghost acc = acc + enc_player_part3(p@);
    assert(o@ =~= old(o)@ + acc);
    encode_player_part4(o, p);
    let ghost acc = acc + enc_player_part4(p@);
    assert(o@ =~= old(o)@ + acc);
    encode_player_part5(o, p);
    let ghost acc = acc + enc_player_part5(p@);
    assert(o@ =~= old(o)@ + acc);
    encode_player_part6(o, p);
    let ghost acc = acc + enc_player_part6(p@);
    assert(o@ =~= old(o)@ + acc);
    encode_player_part7(o, p);
    let ghost acc = acc + enc_player_part7(p@);
    assert(o@ =~= old(o)@ + acc);
}

/// Reads one player among `np` players, as `sp_player` says; a well-formed player that
/// was encoded there is read back whole, ending right after its encoding
/// ([`law_player_roundtrip`]).
fn decode_player(b: &[u8], p: &mut usize, np: usize) -> (r: Option<Player>)
    requires
        readable(b@, *old(p)),
    ensures
        decoded_view(r, *old(p), *final(p), sp_player(b@, *old(p) as int, np)),
        r is Some ==> *final(p) <= b@.len(),
{
    let mut pl = blank_player();
    decode_player_part1(&mut pl, b, p, np)?;
    decode_player_part2(&mut pl, b, p, np)?;
    decode_player_part3(&mut pl, b, p, np)?;
    decode_player_part4(&mut pl, b, p, np)?;
    decode_player_part5(&mut pl, b, p, np)?;
    decode_player_part6(&mut pl, b, p, np)?;
    decode_player_part7(&mut pl, b, p, np)?;
    Some(pl)
}

// ===========================================================================
// Snapshot pieces
// ===========================================================================

/// Most players a snapshot may announce.
pub const MAX_DECODE_PLAYERS: usize = 64;
/// Most obstacles a snapshot may announce.
pub const MAX_DECODE_OBSTACLES: usize = 256;
/// Most projectiles a snapshot may announce.
pub const MAX_DECODE_PROJECTILES: usize = 4096;
/// Most eliminations a snapshot may announce.
pub const MAX_DECODE_ELIMINATED: usize = 64;
/// Most kill records a snapshot may announce.
pub const MAX_DECODE_KILLS: usize = 4096;

/// Item reader for the players of a snapshot of `np` players.
pub open spec fn player_reader(np: usize) -> spec_fn(Seq<u8>, int) -> Option<(PlayerView, int)> {
    |s: Seq<u8>, i: int| sp_player(s, i, np)
}

/// Item writer for players.
pub open spec fn player_writer() -> spec_fn(PlayerView) -> Seq<u8> {
    |pv: PlayerView| enc_player(pv)
}

/// The players that a snapshot of `np` players can carry.
pub open spec fn player_ok(np: usize) -> spec_fn(PlayerView) -> bool {
    |pv: PlayerView| wf_player(pv, np)
}

/// Law (player round trip): a well-formed player, encoded after any bytes and followed
/// by any bytes, is read back whole, ending right after its own encoding.
pub proof fn law_player_roundtrip(pv: PlayerView, np: usize, before: Seq<u8>, after: Seq<u8>)
    requires
        wf_player(pv, np),
    ensures
        sp_player(before + enc_player(pv) + after, before.len() as int, np) == Some(
            (pv, before.len() + enc_player(pv).len() as int),
        ),
{
    let s = before + enc_player(pv) + after;
    let i = before.len() as int;
    assert(s.subrange(i, i + enc_player(pv).len()) =~= enc_player(pv));
    lemma_player_rt(pv, np, s, i);
}

/// The reader for players reads back what the writer writes.
pub proof fn lemma_player_inverts(np: usize)
    ensures
        inverts(player_reader(np), player_writer(), player_ok(np)),
{
    assert forall|x: PlayerView, s: Seq<u8>, i: int|
        (player_ok(np))(x) && #[trigger] has_at(s, i, (player_writer())(x)) implies (player_reader(np))(
        s,
        i,
    ) == Some((x, i + (player_writer())(x).len())) by {
        lemma_player_rt(x, np, s, i);
    }
}

/// Encoding of the player list: its length as a word, then each player.
pub open spec fn enc_players(ps: Seq<PlayerView>) -> Seq<u8> {
    enc_u32(ps.len() as u32) + enc_all(player_writer(), ps)
}

/// Reading the player list: at most [`MAX_DECODE_PLAYERS`] of them, each read as one of
/// a snapshot with that many players.
pub open spec fn sp_players(s: Seq<u8>, i: int) -> Option<(Seq<PlayerView>, int)> {
    match sp_count(s, i, MAX_DECODE_PLAYERS) {
        Some((n, j)) => sp_repeat(player_reader(n), s, j, n as nat),
        None => None,
    }
}

/// Reading the player list back.
pub proof fn lemma_players_rt(ps: Seq<PlayerView>, s: Seq<u8>, i: int)
    requires
        ps.len() <= MAX_DECODE_PLAYERS,
        forall|k: int| 0 <= k < ps.len() ==> wf_player(#[trigger] ps[k], ps.len() as usize),
        has_at(s, i, enc_players(ps)),
    ensures
        sp_players(s, i) == Some((ps, i + enc_players(ps).len())),
{
    lemma_has_at_split(s, i, enc_u32(ps.len() as u32), enc_all(player_writer(), ps));
    lemma_u32_rt(ps.len() as u32, s, i);
    let np = ps.len() as usize;
    lemma_player_inverts(np);
    assert forall|k: int| 0 <= k < ps.len() implies (player_ok(np))(#[trigger] ps[k]) by {}
    lemma_repeat_rt(player_reader(np), player_writer(), player_ok(np), ps, s, i + 4);
}

#[verifier::spinoff_prover]
fn write_players(o: &mut Vec<u8>, ps: &Vec<Player>)
    ensures
        final(o)@ == old(o)@ + enc_players(players_view(ps@)),
{
    wu32(o, #[verifier::truncate] (ps.len() as u32));
    let ghost h = old(o)@ + enc_u32(ps@.len() as u32);
    let n = ps.len();
    let mut k: usize = 0;
    while k < n
        invariant
            n == ps@.len(),
            k <= n,
            o@ == h + enc_all(player_writer(), players_view(ps@).take(k as int)),
        decreases n - k,
    {
        proof {
            lemma_enc_all_step(player_writer(), players_view(ps@), k as int);
        }
        encode_player(o, &ps[k]);
        assert(o@ =~= h + enc_all(player_writer(), players_view(ps@).take(k as int + 1)));
        k = k + 1;
    }
    proof {
        assert(players_view(ps@).take(n as int) =~= players_view(ps@));
    }
    assert(o@ =~= old(o)@ + enc_players(players_view(ps@)));
}

fn read_players(b: &[u8], p: &mut usize) -> (r: Option<Vec<Player>>)
    requires
        readable(b@, *old(p)),
    ensures
        *old(p) <= *final(p),
        match sp_players(b@, *old(p) as int) {
            Some((v, j)) => (r matches Some(ps) && players_view(ps@) == v) && *final(p) == j,
            None => r is None,
        },
        r is Some ==> *final(p) <= b@.len(),
{
    let np = count_at(b, p, MAX_DECODE_PLAYERS)?;
    let ghost p0 = *p as int;
    let mut v: Vec<Player> = Vec::new();
    let mut k: usize = 0;
    while k < np
        invariant
            k <= np,
            *old(p) <= p0 <= *p <= b@.len(),
            readable(b@, *p),
            sp_count(b@, *old(p) as int, MAX_DECODE_PLAYERS) == Some((np, p0)),
            sp_repeat(player_reader(np), b@, p0, k as nat) == Some((players_view(v@), *p as int)),
        decreases np - k,
    {
        let x = match decode_player(b, p, np) {
            Some(x) => x,
            None => {
                proof {
                    lemma_repeat_fail(player_reader(np), b@, p0, (k + 1) as nat, np as nat);
                }
                return None;
            },
        };
        v.push(x);
        proof {
            assert(players_view(v@) =~= players_view(v@.drop_last()).push(x@));
        }
        k = k + 1;
    }
    Some(v)
}

/// Encoding of an ice disc: centre, then radius.
pub open spec fn enc_disc(d: (Vec2, Fix64)) -> Seq<u8> {
    enc_vec(d.0) + enc_fix(d.1)
}

/// Reading an ice disc.
pub open spec fn sp_disc(s: Seq<u8>, i: int) -> Option<((Vec2, Fix64), int)> {
    if fits(s, i, 24) {
        Some(((Vec2 { x: rd_fix(s, i), y: rd_fix(s, i + 8) }, rd_fix(s, i + 16)), i + 24))
    } else {
        None
    }
}

/// Reading an ice disc back.
pub proof fn lemma_disc_rt(d: (Vec2, Fix64), s: Seq<u8>, i: int)
    requires
        has_at(s, i, enc_disc(d)),
    ensures
        sp_disc(s, i) == Some((d, i + 24)),
{
    lemma_has_at_split(s, i, enc_vec(d.0), enc_fix(d.1));
    lemma_vec_rt(d.0, s, i);
    lemma_fix_rt(d.1, s, i + 16);
}

/// Item reader for ice discs.
pub open spec fn disc_reader() -> spec_fn(Seq<u8>, int) -> Option<((Vec2, Fix64), int)> {
    |s: Seq<u8>, i: int| sp_disc(s, i)
}

/// Item writer for ice discs.
pub open spec fn disc_writer() -> spec_fn((Vec2, Fix64)) -> Seq<u8> {
    |d: (Vec2, Fix64)| enc_disc(d)
}

/// The reader for ice discs reads back what the writer writes.
pub proof fn lemma_disc_inverts()
    ensures
        inverts(disc_reader(), disc_writer(), always::<(Vec2, Fix64)>()),
{
    assert forall|x: (Vec2, Fix64), s: Seq<u8>, i: int|
        (always::<(Vec2, Fix64)>())(x) && #[trigger] has_at(s, i, (disc_writer())(x)) implies (
        disc_reader())(s, i) == Some((x, i + (disc_writer())(x).len())) by {
        lemma_disc_rt(x, s, i);
    }
}

/// Encoding of the ice discs: their number as a byte, then each disc.
pub open spec fn enc_ice(ice: Seq<(Vec2, Fix64)>) -> Seq<u8> {
    enc_u8(ice.len() as u8) + enc_all(disc_writer(), ice)
}

/// Reading the ice discs.
pub open spec fn sp_ice(s: Seq<u8>, i: int) -> Option<(Seq<(Vec2, Fix64)>, int)> {
    match sp_u8(s, i) {
        Some((n, j)) => sp_repeat(disc_reader(), s, j, n as nat),
        None => None,
    }
}

/// Reading the ice discs back, when there are fewer than 256.
pub proof fn lemma_ice_rt(ice: Seq<(Vec2, Fix64)>, s: Seq<u8>, i: int)
    requires
        ice.len() < 256,
        has_at(s, i, enc_ice(ice)),
    ensures
        sp_ice(s, i) == Some((ice, i + enc_ice(ice).len())),
{
    lemma_has_at_split(s, i, enc_u8(ice.len() as u8), enc_all(disc_writer(), ice));
    lemma_u8_rt(ice.len() as u8, s, i);
    lemma_disc_inverts();
    lemma_repeat_rt(disc_reader(), disc_writer(), always::<(Vec2, Fix64)>(), ice, s, i + 1);
}

fn write_ice(o: &mut Vec<u8>, ice: &Vec<(Vec2, Fix64)>)
    ensures
        final(o)@ == old(o)@ + enc_ice(ice@),
{
    wu8(o, #[verifier::truncate] (ice.len() as u8));
    let ghost h = old(o)@ + enc_u8(ice@.len() as u8);
    let n = ice.len();
    let mut k: usize = 0;
    while k < n
        invariant
            n == ice@.len(),
            k <= n,
            o@ == h + enc_all(disc_writer(), ice@.take(k as int)),
        decreases n - k,
    {
        proof {
            lemma_enc_all_step(disc_writer(), ice@, k as int);
        }
        let (c, r) = ice[k];
        wvec(o, c);
        wfix(o, r);
        assert(o@ =~= h + enc_all(disc_writer(), ice@.take(k as int + 1)));
        k = k + 1;
    }
    proof {
        assert(ice@.take(n as int) =~= ice@);
    }
    assert(o@ =~= old(o)@ + enc_ice(ice@));
}

fn read_disc(b: &[u8], p: &mut usize) -> (r: Option<(Vec2, Fix64)>)
    requires
        readable(b@, *old(p)),
    ensures
        decoded(r, *old(p), *final(p), sp_disc(b@, *old(p) as int)),
{
    let c = vecat(b, p)?;
    let r = fixat(b, p)?;
    Some((c, r))
}

fn read_ice(b: &[u8], p: &mut usize) -> (r: Option<Vec<(Vec2, Fix64)>>)
    requires
        readable(b@, *old(p)),
    ensures
        decoded_view(r, *old(p), *final(p), sp_ice(b@, *old(p) as int)),
        r is Some ==> readable(b@, *final(p)),
{
    let c = u8at(b, p)?;
    let n = c as usize;
    let ghost p0 = *p as int;
    let mut v: Vec<(Vec2, Fix64)> = Vec::new();
    let mut k: usize = 0;
    while k < n
        invariant
            k <= n,
            n == c,
            *old(p) <= p0 <= *p,
            readable(b@, *p),
            sp_u8(b@, *old(p) as int) == Some((c, p0)),
            sp_repeat(disc_reader(), b@, p0, k as nat) == Some((v@, *p as int)),
        decreases n - k,
    {
        let d = match read_disc(b, p) {
            Some(d) => d,
            None => {
                proof {
                    lemma_repeat_fail(disc_reader(), b@, p0, (k + 1) as nat, n as nat);
                }
                return None;
            },
        };
        v.push(d);
        k = k + 1;
    }
    Some(v)
}

/// Item reader for skill codes.
pub open spec fn skill_reader() -> spec_fn(Seq<u8>, int) -> Option<(SkillId, int)> {
    |s: Seq<u8>, i: int|
        match sp_u32(s, i) {
            Some((k, j)) => Some((SkillId(k), j)),
            None => None,
        }
}

/// Item writer for skill codes.
pub open spec fn skill_writer() -> spec_fn(SkillId) -> Seq<u8> {
    |id: SkillId| enc_u32(id.0)
}

/// Item reader for an optional skill replacement (presence byte exactly 1).
pub open spec fn slot_override_reader() -> spec_fn(Seq<u8>, int) -> Option<(Option<SkillId>, int)> {
    |s: Seq<u8>, i: int| sp_opt1(skill_reader(), s, i)
}

/// Item writer for an optional skill replacement.
pub open spec fn slot_override_writer() -> spec_fn(Option<SkillId>) -> Seq<u8> {
    |f: Option<SkillId>| enc_opt(skill_writer(), f)
}

/// The reader for optional skill replacements reads back what the writer writes.
pub proof fn lemma_slot_override_inverts()
    ensures
        inverts(slot_override_reader(), slot_override_writer(), always::<Option<SkillId>>()),
{
    assert(inverts(skill_reader(), skill_writer(), always::<SkillId>())) by {
        assert forall|x: SkillId, s: Seq<u8>, i: int|
            (always::<SkillId>())(x) && #[trigger] has_at(s, i, (skill_writer())(x)) implies (
            skill_reader())(s, i) == Some((x, i + (skill_writer())(x).len())) by {
            lemma_u32_rt(x.0, s, i);
        }
    }
    assert forall|x: Option<SkillId>, s: Seq<u8>, i: int|
        (always::<Option<SkillId>>())(x) && #[trigger] has_at(s, i, (slot_override_writer())(x)) implies (
        slot_override_reader())(s, i) == Some((x, i + (slot_override_writer())(x).len())) by {
        lemma_opt1_rt(skill_reader(), skill_writer(), always::<SkillId>(), x, s, i);
    }
}

fn write_slot_overrides(o: &mut Vec<u8>, v: &Vec<Option<SkillId>>)
    ensures
        final(o)@ == old(o)@ + enc_all(slot_override_writer(), v@),
{
    let n = v.len();
    let mut k: usize = 0;
    while k < n
        invariant
            n == v@.len(),
            k <= n,
            o@ == old(o)@ + enc_all(slot_override_writer(), v@.take(k as int)),
        decreases n - k,
    {
        proof {
            lemma_enc_all_step(slot_override_writer(), v@, k as int);
        }
        match v[k] {
            Some(id) => {
                wu8(o, 1);
                wu32(o, id.as_u32());
            },
            None => wu8(o, 0),
        }
        assert(o@ =~= old(o)@ + enc_all(slot_override_writer(), v@.take(k as int + 1)));
        k = k + 1;
    }
    proof {
        assert(v@.take(n as int) =~= v@);
    }
}

fn read_slot_overrides(b: &[u8], p: &mut usize, n: usize) -> (r: Option<Vec<Option<SkillId>>>)
    requires
        readable(b@, *old(p)),
    ensures
        decoded_view(r, *old(p), *final(p), sp_repeat(slot_override_reader(), b@, *old(p) as int, n as nat)),
        r is Some ==> readable(b@, *final(p)),
{
    let ghost p0 = *p as int;
    let mut v: Vec<Option<SkillId>> = Vec::new();
    let mut k: usize = 0;
    while k < n
        invariant
            k <= n,
            p0 == *old(p),
            p0 <= *p,
            readable(b@, *p),
            sp_repeat(slot_override_reader(), b@, p0, k as nat) == Some((v@, *p as int)),
        decreases n - k,
    {
        let t = match u8at(b, p) {
            Some(t) => t,
            None => {
                proof {
                    lemma_repeat_fail(slot_override_reader(), b@, p0, (k + 1) as nat, n as nat);
                }
                return None;
            },
        };
        let f = if t == 1 {
            match u32at(b, p) {
                Some(id) => Some(SkillId::from_u32(id)),
                None => {
                    proof {
                        lemma_repeat_fail(slot_override_reader(), b@, p0, (k + 1) as nat, n as nat);
                    }
                    return None;
                },
            }
        } else {
            None
        };
        v.push(f);
        k = k + 1;
    }
    Some(v)
}

/// Item writer for a matrix row of which at most `n` entries are written.
pub open spec fn row_writer(n: int) -> spec_fn(Seq<Fix64>) -> Seq<u8> {
    |r: Seq<Fix64>| enc_all(fix_writer(), take_upto(r, n))
}

/// Item reader for a matrix row of `n` entries.
pub open spec fn row_reader(n: nat) -> spec_fn(Seq<u8>, int) -> Option<(Seq<Fix64>, int)> {
    |s: Seq<u8>, i: int| sp_repeat(fix_reader(), s, i, n)
}

/// The rows of exactly `n` entries.
pub open spec fn row_ok(n: nat) -> spec_fn(Seq<Fix64>) -> bool {
    |r: Seq<Fix64>| r.len() == n
}

/// A row of `n` entries reads back as written.
pub proof fn lemma_row_inverts(n: nat)
    ensures
        inverts(row_reader(n), row_writer(n as int), row_ok(n)),
{
    lemma_fix_inverts();
    assert forall|x: Seq<Fix64>, s: Seq<u8>, i: int|
        (row_ok(n))(x) && #[trigger] has_at(s, i, (row_writer(n as int))(x)) implies (row_reader(n))(s, i)
            == Some((x, i + (row_writer(n as int))(x).len())) by {
        assert(take_upto(x, n as int) == x);
        lemma_repeat_rt(fix_reader(), fix_writer(), always::<Fix64>(), x, s, i);
    }
}

fn write_fixs_upto(o: &mut Vec<u8>, v: &Vec<Fix64>, n: usize)
    ensures
        final(o)@ == old(o)@ + enc_all(fix_writer(), take_upto(v@, n as int)),
{
    let m = if v.len() <= n { v.len() } else { n };
    let mut k: usize = 0;
    while k < m
        invariant
            m <= v@.len(),
            m == take_upto(v@, n as int).len(),
            k <= m,
            o@ == old(o)@ + enc_all(fix_writer(), take_upto(v@, n as int).take(k as int)),
        decreases m - k,
    {
        proof {
            lemma_enc_all_step(fix_writer(), take_upto(v@, n as int), k as int);
        }
        wfix(o, v[k]);
        assert(o@ =~= old(o)@ + enc_all(fix_writer(), take_upto(v@, n as int).take(k as int + 1)));
        k = k + 1;
    }
    proof {
        assert(take_upto(v@, n as int).take(m as int) =~= take_upto(v@, n as int));
    }
}

fn write_matrix(o: &mut Vec<u8>, rows: &Vec<Vec<Fix64>>, n: usize)
    ensures
        final(o)@ == old(o)@ + enc_all(row_writer(n as int), rows_view(rows@)),
{
    let m = rows.len();
    let mut k: usize = 0;
    while k < m
        invariant
            m == rows@.len(),
            k <= m,
            o@ == old(o)@ + enc_all(row_writer(n as int), rows_view(rows@).take(k as int)),
        decreases m - k,
    {
        proof {
            lemma_enc_all_step(row_writer(n as int), rows_view(rows@), k as int);
        }
        write_fixs_upto(o, &rows[k], n);
        assert(o@ =~= old(o)@ + enc_all(row_writer(n as int), rows_view(rows@).take(k as int + 1)));
        k = k + 1;
    }
    proof {
        assert(rows_view(rows@).take(m as int) =~= rows_view(rows@));
    }
}

fn read_matrix(b: &[u8], p: &mut usize, n: usize) -> (r: Option<Vec<Vec<Fix64>>>)
    requires
        readable(b@, *old(p)),
    ensures
        *old(p) <= *final(p),
        match sp_repeat(row_reader(n as nat), b@, *old(p) as int, n as nat) {
            Some((v, j)) => (r matches Some(rows) && rows_view(rows@) == v) && *final(p) == j,
            None => r is None,
        },
        r is Some ==> readable(b@, *final(p)),
{
    let ghost p0 = *p as int;
    let mut v: Vec<Vec<Fix64>> = Vec::new();
    let mut k: usize = 0;
    while k < n
        invariant
            k <= n,
            p0 == *old(p),
            p0 <= *p,
            readable(b@, *p),
            sp_repeat(row_reader(n as nat), b@, p0, k as nat) == Some((rows_view(v@), *p as int)),
        decreases n - k,
    {
        let row = match read_fixs(b, p, n) {
            Some(row) => row,
            None => {
                proof {
                    lemma_repeat_fail(row_reader(n as nat), b@, p0, (k + 1) as nat, n as nat);
                }
                return None;
            },
        };
        let ghost row_v = row@;
        v.push(row);
        proof {
            assert(rows_view(v@) =~= rows_view(v@.drop_last()).push(row_v));
        }
        k = k + 1;
    }
    Some(v)
}

/// Encoding of an obstacle: position, radius, hit points.
pub open spec fn enc_obstacle(ob: Obstacle) -> Seq<u8> {
    enc_vec(ob.pos) + enc_fix(ob.radius) + enc_u32(ob.hp)
}

/// Reading an obstacle.
pub open spec fn sp_obstacle(s: Seq<u8>, i: int) -> Option<(Obstacle, int)> {
    if fits(s, i, 28) {
        Some((Obstacle { pos: Vec2 { x: rd_fix(s, i), y: rd_fix(s, i + 8) }, radius: rd_fix(s, i + 16), hp: rd_u32(s, i + 24) }, i + 28))
    } else {
        None
    }
}

/// Reading an obstacle back.
pub proof fn lemma_obstacle_rt(ob: Obstacle, s: Seq<u8>, i: int)
    requires
        has_at(s, i, enc_obstacle(ob)),
    ensures
        sp_obstacle(s, i) == Some((ob, i + 28)),
{
    lemma_has_at_split(s, i, enc_vec(ob.pos) + enc_fix(ob.radius), enc_u32(ob.hp));
    lemma_has_at_split(s, i, enc_vec(ob.pos), enc_fix(ob.radius));
    lemma_vec_rt(ob.pos, s, i);
    lemma_fix_rt(ob.radius, s, i + 16);
    lemma_u32_rt(ob.hp, s, i + 24);
}

/// Item reader for obstacles.
pub open spec fn obstacle_reader() -> spec_fn(Seq<u8>, int) -> Option<(Obstacle, int)> {
    |s: Seq<u8>, i: int| sp_obstacle(s, i)
}

/// Item writer for obstacles.
pub open spec fn obstacle_writer() -> spec_fn(Obstacle) -> Seq<u8> {
    |ob: Obstacle| enc_obstacle(ob)
}

/// The reader for obstacles reads back what the writer writes.
pub proof fn lemma_obstacle_inverts()
    ensures
        inverts(obstacle_reader(), obstacle_writer(), always::<Obstacle>()),
{
    assert forall|x: Obstacle, s: Seq<u8>, i: int|
        (always::<Obstacle>())(x) && #[trigger] has_at(s, i, (obstacle_writer())(x)) implies (
        obstacle_reader())(s, i) == Some((x, i + (obstacle_writer())(x).len())) by {
        lemma_obstacle_rt(x, s, i);
    }
}

/// Encoding of a counted list: its length as a word, then each item.
pub open spec fn enc_counted<X>(e: spec_fn(X) -> Seq<u8>, xs: Seq<X>) -> Seq<u8> {
    enc_u32(xs.len() as u32) + enc_all(e, xs)
}

/// Reading a counted list of at most `max` items.
pub open spec fn sp_counted<X>(p: spec_fn(Seq<u8>, int) -> Option<(X, int)>, max: usize, s: Seq<u8>, i: int) -> Option<(Seq<X>, int)> {
    match sp_count(s, i, max) {
        Some((n, j)) => sp_repeat(p, s, j, n as nat),
        None => None,
    }
}

/// Reading a counted list back, when it has at most `max` items and each reads back.
pub proof fn lemma_counted_rt<X>(
    p: spec_fn(Seq<u8>, int) -> Option<(X, int)>,
    e: spec_fn(X) -> Seq<u8>,
    ok: spec_fn(X) -> bool,
    max: usize,
    xs: Seq<X>,
    s: Seq<u8>,
    i: int,
)
    requires
        max <= u32::MAX,
        xs.len() <= max,
        inverts(p, e, ok),
        forall|k: int| 0 <= k < xs.len() ==> ok(#[trigger] xs[k]),
        has_at(s, i, enc_counted(e, xs)),
    ensures
        sp_counted(p, max, s, i) == Some((xs, i + enc_counted(e, xs).len())),
{
    lemma_has_at_split(s, i, enc_u32(xs.len() as u32), enc_all(e, xs));
    lemma_u32_rt(xs.len() as u32, s, i);
    lemma_repeat_rt(p, e, ok, xs, s, i + 4);
}

fn write_obstacles(o: &mut Vec<u8>, v: &Vec<Obstacle>)
    ensures
        final(o)@ == old(o)@ + enc_counted(obstacle_writer(), v@),
{
    wu32(o, #[verifier::truncate] (v.len() as u32));
    let ghost h = old(o)@ + enc_u32(v@.len() as u32);
    let n = v.len();
    let mut k: usize = 0;
    while k < n
        invariant
            n == v@.len(),
            k <= n,
            o@ == h + enc_all(obstacle_writer(), v@.take(k as int)),
        decreases n - k,
    {
        proof {
            lemma_enc_all_step(obstacle_writer(), v@, k as int);
        }
        let ob = v[k];
        wvec(o, ob.pos);
        wfix(o, ob.radius);
        wu32(o, ob.hp);
        assert(o@ =~= h + enc_all(obstacle_writer(), v@.take(k as int + 1)));
        k = k + 1;
    }
    proof {
        assert(v@.take(n as int) =~= v@);
    }
    assert(o@ =~= old(o)@ + enc_counted(obstacle_writer(), v@));
}

fn read_obstacle(b: &[u8], p: &mut usize) -> (r: Option<Obstacle>)
    requires
        readable(b@, *old(p)),
    ensures
        decoded(r, *old(p), *final(p), sp_obstacle(b@, *old(p) as int)),
{
    let pos = vecat(b, p)?;
    let radius = fixat(b, p)?;
    let hp = u32at(b, p)?;
    Some(Obstacle { pos, radius, hp })
}

fn read_obstacles(b: &[u8], p: &mut usize) -> (r: Option<Vec<Obstacle>>)
    requires
        readable(b@, *old(p)),
    ensures
        decoded_view(r, *old(p), *final(p), sp_counted(obstacle_reader(), MAX_DECODE_OBSTACLES, b@, *old(p) as int)),
        r is Some ==> readable(b@, *final(p)),
{
    let n = count_at(b, p, MAX_DECODE_OBSTACLES)?;
    let ghost p0 = *p as int;
    let mut v: Vec<Obstacle> = Vec::new();
    let mut k: usize = 0;
    while k < n
        invariant
            k <= n,
            *old(p) <= p0 <= *p,
            readable(b@, *p),
            sp_count(b@, *old(p) as int, MAX_DECODE_OBSTACLES) == Some((n, p0)),
            sp_repeat(obstacle_reader(), b@, p0, k as nat) == Some((v@, *p as int)),
        decreases n - k,
    {
        let x = match read_obstacle(b, p) {
            Some(x) => x,
            None => {
                proof {
                    lemma_repeat_fail(obstacle_reader(), b@, p0, (k + 1) as nat, n as nat);
                }
                return None;
            },
        };
        v.push(x);
        k = k + 1;
    }
    Some(v)
}

fn write_projectiles(o: &mut Vec<u8>, v: &Vec<Projectile>)
    ensures
        final(o)@ == old(o)@ + enc_counted(projectile_writer(), v@),
{
    wu32(o, #[verifier::truncate] (v.len() as u32));
    let ghost h = old(o)@ + enc_u32(v@.len() as u32);
    let n = v.len();
    let mut k: usize = 0;
    while k < n
        invariant
            n == v@.len(),
            k <= n,
            o@ == h + enc_all(projectile_writer(), v@.take(k as int)),
        decreases n - k,
    {
        proof {
            lemma_enc_all_step(projectile_writer(), v@, k as int);
        }
        encode_projectile(o, &v[k]);
        assert(o@ =~= h + enc_all(projectile_writer(), v@.take(k as int + 1)));
        k = k + 1;
    }
    proof {
        assert(v@.take(n as int) =~= v@);
    }
    assert(o@ =~= old(o)@ + enc_counted(projectile_writer(), v@));
}

fn read_projectiles(b: &[u8], p: &mut usize) -> (r: Option<Vec<Projectile>>)
    requires
        readable(b@, *old(p)),
    ensures
        decoded_view(r, *old(p), *final(p), sp_counted(projectile_reader(), MAX_DECODE_PROJECTILES, b@, *old(p) as int)),
        r is Some ==> readable(b@, *final(p)),
{
    let n = count_at(b, p, MAX_DECODE_PROJECTILES)?;
    let ghost p0 = *p as int;
    let mut v: Vec<Projectile> = Vec::new();
    let mut k: usize = 0;
    while k < n
        invariant
            k <= n,
            *old(p) <= p0 <= *p,
            readable(b@, *p),
            sp_count(b@, *old(p) as int, MAX_DECODE_PROJECTILES) == Some((n, p0)),
            sp_repeat(projectile_reader(), b@, p0, k as nat) == Some((v@, *p as int)),
        decreases n - k,
    {
        let x = match decode_projectile(b, p) {
            Some(x) => x,
            None => {
                proof {
                    lemma_repeat_fail(projectile_reader(), b@, p0, (k + 1) as nat, n as nat);
                }
                return None;
            },
        };
        v.push(x);
        k = k + 1;
    }
    Some(v)
}

/// Item reader for a player index below `np`: an index out of range is refused.
pub open spec fn index_reader(np: usize) -> spec_fn(Seq<u8>, int) -> Option<(u32, int)> {
    |s: Seq<u8>, i: int|
        match sp_u32(s, i) {
            Some((k, j)) => if k < np { Some((k, j)) } else { None },
            None => None,
        }
}

/// The player indices below `np`.
pub open spec fn index_ok(np: usize) -> spec_fn(u32) -> bool {
    |k: u32| k < np
}

/// The reader for player indices reads back every index in range.
pub proof fn lemma_index_inverts(np: usize)
    ensures
        inverts(index_reader(np), u32_writer(), index_ok(np)),
{
    assert forall|x: u32, s: Seq<u8>, i: int|
        (index_ok(np))(x) && #[trigger] has_at(s, i, (u32_writer())(x)) implies (index_reader(np))(s, i)
            == Some((x, i + (u32_writer())(x).len())) by {
        lemma_u32_rt(x, s, i);
    }
}

/// Item writer for a kill record: killer, then victim.
pub open spec fn kill_writer() -> spec_fn((u32, u32)) -> Seq<u8> {
    |kv: (u32, u32)| enc_u32(kv.0) + enc_u32(kv.1)
}

/// Item reader for a kill record among `np` players: both indices must be in range.
pub open spec fn kill_reader(np: usize) -> spec_fn(Seq<u8>, int) -> Option<((u32, u32), int)> {
    |s: Seq<u8>, i: int|
        match sp_u32(s, i) {
            Some((k, j)) => match sp_u32(s, j) {
                Some((v, j2)) => if k < np && v < np { Some(((k, v), j2)) } else { None },
                None => None,
            },
            None => None,
        }
}

/// The kill records whose two indices are below `np`.
pub open spec fn kill_ok(np: usize) -> spec_fn((u32, u32)) -> bool {
    |kv: (u32, u32)| kv.0 < np && kv.1 < np
}

/// The reader for kill records reads back every record in range.
pub proof fn lemma_kill_inverts(np: usize)
    ensures
        inverts(kill_reader(np), kill_writer(), kill_ok(np)),
{
    assert forall|x: (u32, u32), s: Seq<u8>, i: int|
        (kill_ok(np))(x) && #[trigger] has_at(s, i, (kill_writer())(x)) implies (kill_reader(np))(s, i)
            == Some((x, i + (kill_writer())(x).len())) by {
        lemma_has_at_split(s, i, enc_u32(x.0), enc_u32(x.1));
        lemma_u32_rt(x.0, s, i);
        lemma_u32_rt(x.1, s, i + 4);
    }
}

fn write_counted_u32s(o: &mut Vec<u8>, v: &Vec<u32>)
    ensures
        final(o)@ == old(o)@ + enc_counted(u32_writer(), v@),
{
    wu32(o, #[verifier::truncate] (v.len() as u32));
    write_u32s(o, v);
    assert(o@ =~= old(o)@ + enc_counted(u32_writer(), v@));
}

fn write_kills(o: &mut Vec<u8>, v: &Vec<(u32, u32)>)
    ensures
        final(o)@ == old(o)@ + enc_counted(kill_writer(), v@),
{
    wu32(o, #[verifier::truncate] (v.len() as u32));
    let ghost h = old(o)@ + enc_u32(v@.len() as u32);
    let n = v.len();
    let mut k: usize = 0;
    while k < n
        invariant
            n == v@.len(),
            k <= n,
            o@ == h + enc_all(kill_writer(), v@.take(k as int)),
        decreases n - k,
    {
        proof {
            lemma_enc_all_step(kill_writer(), v@, k as int);
        }
        let (killer, victim) = v[k];
        wu32(o, killer);
        wu32(o, victim);
        assert(o@ =~= h + enc_all(kill_writer(), v@.take(k as int + 1)));
        k = k + 1;
    }
    proof {
        assert(v@.take(n as int) =~= v@);
    }
    assert(o@ =~= old(o)@ + enc_counted(kill_writer(), v@));
}

fn read_index(b: &[u8], p: &mut usize, np: usize) -> (r: Option<u32>)
    requires
        readable(b@, *old(p)),
    ensures
        decoded(r, *old(p), *final(p), (index_reader(np))(b@, *old(p) as int)),
{
    let e = u32at(b, p)?;
    if (e as usize) >= np {
        return None;
    }
    Some(e)
}

/// Reads `n` player indices of a snapshot with `np` players; an index out of range is
/// refused, so that it can never index the player list.
fn read_indices(b: &[u8], p: &mut usize, n: usize, np: usize) -> (r: Option<Vec<u32>>)
    requires
        readable(b@, *old(p)),
    ensures
        decoded_view(r, *old(p), *final(p), sp_repeat(index_reader(np), b@, *old(p) as int, n as nat)),
        r is Some ==> readable(b@, *final(p)),
{
    let ghost p0 = *p as int;
    let mut v: Vec<u32> = Vec::new();
    let mut k: usize = 0;
    while k < n
        invariant
            k <= n,
            p0 == *old(p),
            p0 <= *p,
            readable(b@, *p),
            sp_repeat(index_reader(np), b@, p0, k as nat) == Some((v@, *p as int)),
        decreases n - k,
    {
        let e = match read_index(b, p, np) {
            Some(e) => e,
            None => {
                proof {
                    lemma_repeat_fail(index_reader(np), b@, p0, (k + 1) as nat, n as nat);
                }
                return None;
            },
        };
        v.push(e);
        k = k + 1;
    }
    Some(v)
}

fn read_eliminated(b: &[u8], p: &mut usize, np: usize) -> (r: Option<Vec<u32>>)
    requires
        readable(b@, *old(p)),
    ensures
        decoded_view(r, *old(p), *final(p), sp_counted(index_reader(np), MAX_DECODE_ELIMINATED, b@, *old(p) as int)),
        r is Some ==> readable(b@, *final(p)),
{
    let n = count_at(b, p, MAX_DECODE_ELIMINATED)?;
    read_indices(b, p, n, np)
}

fn read_kill(b: &[u8], p: &mut usize, np: usize) -> (r: Option<(u32, u32)>)
    requires
        readable(b@, *old(p)),
    ensures
        decoded(r, *old(p), *final(p), (kill_reader(np))(b@, *old(p) as int)),
{
    let killer = u32at(b, p)?;
    let victim = u32at(b, p)?;
    if (killer as usize) >= np || (victim as usize) >= np {
        return None;
    }
    Some((killer, victim))
}

fn read_kills(b: &[u8], p: &mut usize, np: usize) -> (r: Option<Vec<(u32, u32)>>)
    requires
        readable(b@, *old(p)),
    ensures
        decoded_view(r, *old(p), *final(p), sp_counted(kill_reader(np), MAX_DECODE_KILLS, b@, *old(p) as int)),
        r is Some ==> readable(b@, *final(p)),
{
    let n = count_at(b, p, MAX_DECODE_KILLS)?;
    let ghost p0 = *p as int;
    let mut v: Vec<(u32, u32)> = Vec::new();
    let mut k: usize = 0;
    while k < n
        invariant
            k <= n,
            *old(p) <= p0 <= *p,
            readable(b@, *p),
            sp_count(b@, *old(p) as int, MAX_DECODE_KILLS) == Some((n, p0)),
            sp_repeat(kill_reader(np), b@, p0, k as nat) == Some((v@, *p as int)),
        decreases n - k,
    {
        let x = match read_kill(b, p, np) {
            Some(x) => x,
            None => {
                proof {
                    lemma_repeat_fail(kill_reader(np), b@, p0, (k + 1) as nat, n as nat);
                }
                return None;
            },
        };
        v.push(x);
        k = k + 1;
    }
    Some(v)
}

fn read_opt1_u32(b: &[u8], p: &mut usize) -> (r: Option<Option<u32>>)
    requires
        readable(b@, *old(p)),
    ensures
        decoded(r, *old(p), *final(p), sp_opt1(u32_reader(), b@, *old(p) as int)),
{
    Some(if u8at(b, p)? == 1 { Some(u32at(b, p)?) } else { None })
}

fn read_pending_avatar(b: &[u8], p: &mut usize, np: usize) -> (r: Option<Option<u32>>)
    requires
        readable(b@, *old(p)),
    ensures
        decoded(r, *old(p), *final(p), sp_opt1(index_reader(np), b@, *old(p) as int)),
{
    Some(
        if u8at(b, p)? == 1 {
            let id = u32at(b, p)?;
            if (id as usize) >= np {
                return None;
            }
            Some(id)
        } else {
            None
        },
    )
}

/// Reading a short list of player indices below `np`.
pub open spec fn sp_short_indices(s: Seq<u8>, i: int, np: usize) -> Option<(Seq<u32>, int)> {
    match sp_u8(s, i) {
        Some((n, j)) => sp_repeat(index_reader(np), s, j, n as nat),
        None => None,
    }
}

/// Reading a short list of player indices back, when there are fewer than 256 and each
/// is in range.
pub proof fn lemma_short_indices_rt(v: Seq<u32>, np: usize, s: Seq<u8>, i: int)
    requires
        v.len() < 256,
        forall|k: int| 0 <= k < v.len() ==> #[trigger] v[k] < np,
        has_at(s, i, enc_short_list(v)),
    ensures
        sp_short_indices(s, i, np) == Some((v, i + enc_short_list(v).len())),
{
    lemma_has_at_split(s, i, enc_u8(v.len() as u8), enc_all(u32_writer(), v));
    lemma_u8_rt(v.len() as u8, s, i);
    lemma_index_inverts(np);
    assert forall|k: int| 0 <= k < v.len() implies (index_ok(np))(#[trigger] v[k]) by {}
    lemma_repeat_rt(index_reader(np), u32_writer(), index_ok(np), v, s, i + 1);
}

fn read_short_indices(b: &[u8], p: &mut usize, np: usize) -> (r: Option<Vec<u32>>)
    requires
        readable(b@, *old(p)),
    ensures
        decoded_view(r, *old(p), *final(p), sp_short_indices(b@, *old(p) as int, np)),
        r is Some ==> readable(b@, *final(p)),
{
    let n = u8at(b, p)? as usize;
    read_indices(b, p, n, np)
}

/// Reading a damage matrix of `np` rows of `np` entries back.
pub proof fn lemma_matrix_rt(rows: Seq<Seq<Fix64>>, np: usize, s: Seq<u8>, i: int)
    requires
        rows.len() == np,
        forall|k: int| 0 <= k < rows.len() ==> #[trigger] rows[k].len() == np,
        has_at(s, i, enc_all(row_writer(np as int), rows)),
    ensures
        sp_repeat(row_reader(np as nat), s, i, np as nat) == Some((rows, i + enc_all(row_writer(np as int), rows).len())),
{
    lemma_row_inverts(np as nat);
    assert forall|k: int| 0 <= k < rows.len() implies (row_ok(np as nat))(#[trigger] rows[k]) by {}
    lemma_repeat_rt(row_reader(np as nat), row_writer(np as int), row_ok(np as nat), rows, s, i);
}

/// Reading `np` avatar scores back.
pub proof fn lemma_scores_rt(v: Seq<Fix64>, np: usize, s: Seq<u8>, i: int)
    requires
        v.len() == np,
        has_at(s, i, enc_all(fix_writer(), take_upto(v, np as int))),
    ensures
        sp_repeat(fix_reader(), s, i, np as nat) == Some((v, i + enc_all(fix_writer(), take_upto(v, np as int)).len())),
{
    assert(take_upto(v, np as int) == v);
    lemma_fix_inverts();
    lemma_repeat_rt(fix_reader(), fix_writer(), always::<Fix64>(), v, s, i);
}

/// Reading the obstacle list back.
pub proof fn lemma_obstacles_rt(v: Seq<Obstacle>, s: Seq<u8>, i: int)
    requires
        v.len() <= MAX_DECODE_OBSTACLES,
        has_at(s, i, enc_counted(obstacle_writer(), v)),
    ensures
        sp_counted(obstacle_reader(), MAX_DECODE_OBSTACLES, s, i) == Some((v, i + enc_counted(obstacle_writer(), v).len())),
{
    lemma_obstacle_inverts();
    lemma_counted_rt(obstacle_reader(), obstacle_writer(), always::<Obstacle>(), MAX_DECODE_OBSTACLES, v, s, i);
}

/// Reading the projectile list back.
pub proof fn lemma_projectiles_rt(v: Seq<Projectile>, s: Seq<u8>, i: int)
    requires
        v.len() <= MAX_DECODE_PROJECTILES,
        forall|k: int| 0 <= k < v.len() ==> wf_projectile(#[trigger] v[k]),
        has_at(s, i, enc_counted(projectile_writer(), v)),
    ensures
        sp_counted(projectile_reader(), MAX_DECODE_PROJECTILES, s, i) == Some((v, i + enc_counted(projectile_writer(), v).len())),
{
    lemma_projectile_inverts();
    assert forall|k: int| 0 <= k < v.len() implies (projectile_ok())(#[trigger] v[k]) by {}
    lemma_counted_rt(projectile_reader(), projectile_writer(), projectile_ok(), MAX_DECODE_PROJECTILES, v, s, i);
}

/// Reading the elimination order back, when every index is a player.
pub proof fn lemma_eliminated_rt(v: Seq<u32>, np: usize, s: Seq<u8>, i: int)
    requires
        v.len() <= MAX_DECODE_ELIMINATED,
        forall|k: int| 0 <= k < v.len() ==> #[trigger] v[k] < np,
        has_at(s, i, enc_counted(u32_writer(), v)),
    ensures
        sp_counted(index_reader(np), MAX_DECODE_ELIMINATED, s, i) == Some((v, i + enc_counted(u32_writer(), v).len())),
{
    lemma_index_inverts(np);
    assert forall|k: int| 0 <= k < v.len() implies (index_ok(np))(#[trigger] v[k]) by {}
    lemma_counted_rt(index_reader(np), u32_writer(), index_ok(np), MAX_DECODE_ELIMINATED, v, s, i);
}

/// Reading the kill records back, when every index is a player.
pub proof fn lemma_kills_rt(v: Seq<(u32, u32)>, np: usize, s: Seq<u8>, i: int)
    requires
        v.len() <= MAX_DECODE_KILLS,
        forall|k: int| 0 <= k < v.len() ==> #[trigger] v[k].0 < np && v[k].1 < np,
        has_at(s, i, enc_counted(kill_writer(), v)),
    ensures
        sp_counted(kill_reader(np), MAX_DECODE_KILLS, s, i) == Some((v, i + enc_counted(kill_writer(), v).len())),
{
    lemma_kill_inverts(np);
    assert forall|k: int| 0 <= k < v.len() implies (kill_ok(np))(#[trigger] v[k]) by {}
    lemma_counted_rt(kill_reader(np), kill_writer(), kill_ok(np), MAX_DECODE_KILLS, v, s, i);
}

/// Reading the next round's avatar back, when it is a player.
pub proof fn lemma_pending_avatar_rt(v: Option<u32>, np: usize, s: Seq<u8>, i: int)
    requires
        v matches Some(k) ==> k < np,
        has_at(s, i, enc_opt(u32_writer(), v)),
    ensures
        sp_opt1(index_reader(np), s, i) == Some((v, i + enc_opt(u32_writer(), v).len())),
{
    lemma_index_inverts(np);
    lemma_opt1_rt(index_reader(np), u32_writer(), index_ok(np), v, s, i);
}

/// The snapshot that decoding starts from before every part is read.
pub open spec fn blank_world_view() -> WorldView {
    WorldView {
        arena_radius: Fix64(0), sandbox: false, round_seed: 0, time: Fix64(0), players: Seq::empty(),
        round_number: 0, ice: Seq::empty(), mode: 0, avatar: None, kings: Seq::empty(),
        f_override: Seq::empty(), round_forced: false, damage_matrix: Seq::empty(),
        avatar_score: Seq::empty(), obstacles: Seq::empty(), projectiles: Seq::empty(),
        eliminated_order: Seq::empty(), kills_this_round: Seq::empty(), shrink_timer: Fix64(0),
        pending_avatar: None, pending_kings: Seq::empty(),
    }
}

fn blank_world() -> (w: World)
    ensures
        w@ == blank_world_view(),
{
    let z = Fix64::from_bits(0);
    let w = World {
        arena_radius: z, sandbox: false, round_seed: 0, time: z, players: Vec::new(),
        round_number: 0, ice: Vec::new(), mode: 0, avatar: None, kings: Vec::new(),
        f_override: Vec::new(), round_forced: false, damage_matrix: Vec::new(),
        avatar_score: Vec::new(), obstacles: Vec::new(), projectiles: Vec::new(),
        eliminated_order: Vec::new(), kills_this_round: Vec::new(), shrink_timer: z,
        pending_avatar: None, pending_kings: Vec::new(),
    };
    assert(w@.players =~= Seq::<PlayerView>::empty());
    assert(w@.damage_matrix =~= Seq::<Seq<Fix64>>::empty());
    assert(w@.ice =~= Seq::<(Vec2, Fix64)>::empty());
    assert(w@.kings =~= Seq::<u32>::empty());
    assert(w@.f_override =~= Seq::<Option<SkillId>>::empty());
    assert(w@.avatar_score =~= Seq::<Fix64>::empty());
    assert(w@.obstacles =~= Seq::<Obstacle>::empty());
    assert(w@.projectiles =~= Seq::<Projectile>::empty());
    assert(w@.eliminated_order =~= Seq::<u32>::empty());
    assert(w@.kills_this_round =~= Seq::<(u32, u32)>::empty());
    assert(w@.pending_kings =~= Seq::<u32>::empty());
    w
}

// ===========================================================================
// Snapshots
// ===========================================================================

/// Encoding of part 1 of a snapshot: the header and the players.
#[verifier::opaque]
pub open spec fn enc_world_part1(w: WorldView) -> Seq<u8> {
    enc_fix(w.arena_radius)
        + enc_bool(w.sandbox)
        + enc_u64(w.round_seed)
        + enc_fix(w.time)
        + enc_players(w.players)
}

/// Encoding of part 2 of a snapshot: the round, the ice and the roles.
#[verifier::opaque]
pub open spec fn enc_world_part2(w: WorldView) -> Seq<u8> {
    enc_u32(w.round_number)
        + enc_ice(w.ice)
        + enc_u8(w.mode)
        + enc_opt(u32_writer(), w.avatar)
        + enc_short_list(w.kings)
        + enc_all(slot_override_writer(), w.f_override)
        + enc_bool(w.round_forced)
}

/// Encoding of part 3 of a snapshot: the damage matrix and the avatar scores.
#[verifier::opaque]
pub open spec fn enc_world_part3(w: WorldView) -> Seq<u8> {
    enc_all(row_writer(w.players.len() as int), w.damage_matrix)
        + enc_all(fix_writer(), take_upto(w.avatar_score, w.players.len() as int))
}

/// Encoding of part 4 of a snapshot: the obstacles and the projectiles.
#[verifier::opaque]
pub open spec fn enc_world_part4(w: WorldView) -> Seq<u8> {
    enc_counted(obstacle_writer(), w.obstacles)
        + enc_counted(projectile_writer(), w.projectiles)
}

/// Encoding of part 5 of a snapshot: the eliminations, the kills, the shrink timer and the next round's roles.
#[verifier::opaque]
pub open spec fn enc_world_part5(w: WorldView) -> Seq<u8> {
    enc_counted(u32_writer(), w.eliminated_order)
        + enc_counted(kill_writer(), w.kills_this_round)
        + enc_fix(w.shrink_timer)
        + enc_opt(u32_writer(), w.pending_avatar)
        + enc_short_list(w.pending_kings)
}

/// Reading part 1 of a snapshot into `base`.
#[verifier::opaque]
pub open spec fn sp_world_part1(s: Seq<u8>, i: int, base: WorldView) -> Option<(WorldView, int)> {
    let r0 = sp_fix(s, i);
    let (v_arena_radius, q0) = r0.unwrap();
    let r1 = sp_bool(s, q0);
    let (v_sandbox, q1) = r1.unwrap();
    let r2 = sp_u64(s, q1);
    let (v_round_seed, q2) = r2.unwrap();
    let r3 = sp_fix(s, q2);
    let (v_time, q3) = r3.unwrap();
    let r4 = sp_players(s, q3);
    let (v_players, q4) = r4.unwrap();
    if r0 is Some
        && r1 is Some
        && r2 is Some
        && r3 is Some
        && r4 is Some {
        Some((WorldView { arena_radius: v_arena_radius, sandbox: v_sandbox, round_seed: v_round_seed, time: v_time, players: v_players, ..base }, q4))
    } else {
        None
    }
}

/// Reading part 1 of a snapshot back.
#[verifier::spinoff_prover]
pub proof fn lemma_world_part1_rt(w: WorldView, base: WorldView, s: Seq<u8>, i: int)
    requires
        w.players.len() <= MAX_DECODE_PLAYERS,
        forall|k: int| 0 <= k < w.players.len() ==> wf_player(#[trigger] w.players[k], w.players.len() as usize),
        has_at(s, i, enc_world_part1(w)),
    ensures
        sp_world_part1(s, i, base) == Some((WorldView { arena_radius: w.arena_radius, sandbox: w.sandbox, round_seed: w.round_seed, time: w.time, players: w.players, ..base }, i + enc_world_part1(w).len())),
{
    reveal(enc_world_part1);
    reveal(sp_world_part1);
    let e0 = enc_fix(w.arena_radius);
    let e1 = enc_bool(w.sandbox);
    let e2 = enc_u64(w.round_seed);
    let e3 = enc_fix(w.time);
    let e4 = enc_players(w.players);
    let a0 = e0;
    let a1 = a0 + e1;
    let a2 = a1 + e2;
    let a3 = a2 + e3;
    let a4 = a3 + e4;
    assert(enc_world_part1(w) == a4);
    lemma_has_at_split(s, i, a3, e4);
    lemma_has_at_split(s, i, a2, e3);
    lemma_has_at_split(s, i, a1, e2);
    lemma_has_at_split(s, i, a0, e1);
    lemma_fix_rt(w.arena_radius, s, i);
    lemma_bool_rt(w.sandbox, s, i + a0.len());
    lemma_u64_rt(w.round_seed, s, i + a1.len());
    lemma_fix_rt(w.time, s, i + a2.len());
    lemma_players_rt(w.players, s, i + a3.len());
}

#[verifier::spinoff_prover]
fn encode_world_part1(o: &mut Vec<u8>, w: &World)
    ensures
        final(o)@ == old(o)@ + enc_world_part1(w@),
{
    wfix(o, w.arena_radius);
    let ghost acc = enc_fix(w@.arena_radius);
    assert(o@ =~= old(o)@ + acc);
    wbool(o, w.sandbox);
    let ghost acc = acc + enc_bool(w@.sandbox);
    assert(o@ =~= old(o)@ + acc);
    wu64(o, w.round_seed);
    let ghost acc = acc + enc_u64(w@.round_seed);
    assert(o@ =~= old(o)@ + acc);
    wfix(o, w.time);
    let ghost acc = acc + enc_fix(w@.time);
    assert(o@ =~= old(o)@ + acc);
    write_players(o, &w.players);
    let ghost acc = acc + enc_players(w@.players);
    assert(o@ =~= old(o)@ + acc);
    assert(acc == enc_world_part1(w@)) by {
        reveal(enc_world_part1);
    }
}

#[verifier::spinoff_prover]
fn decode_world_part1(w: &mut World, b: &[u8], p: &mut usize) -> (r: Option<()>)
    requires
        readable(b@, *old(p)),
    ensures
        *old(p) <= *final(p),
        r is Some ==> readable(b@, *final(p)),
        match sp_world_part1(b@, *old(p) as int, old(w)@) {
            Some((v, j)) => r == Some(()) && final(w)@ == v && *final(p) == j,
            None => r is None,
        },
{
    reveal(sp_world_part1);
    let arena_radius = fixat(b, p)?;
    let sandbox = boolat(b, p)?;
    let round_seed = u64at(b, p)?;
    let time = fixat(b, p)?;
    let players = read_players(b, p)?;
    w.arena_radius = arena_radius;
    w.sandbox = sandbox;
    w.round_seed = round_seed;
    w.time = time;
    w.players = players;
    Some(())
}

/// Reading part 2 of a snapshot into `base`.
#[verifier::opaque]
pub open spec fn sp_world_part2(s: Seq<u8>, i: int, np: usize, base: WorldView) -> Option<(WorldView, int)> {
    let r0 = sp_u32(s, i);
    let (v_round_number, q0) = r0.unwrap();
    let r1 = sp_ice(s, q0);
    let (v_ice, q1) = r1.unwrap();
    let r2 = sp_u8(s, q1);
    let (v_mode, q2) = r2.unwrap();
    let r3 = sp_opt1(u32_reader(), s, q2);
    let (v_avatar, q3) = r3.unwrap();
    let r4 = sp_short_list(s, q3);
    let (v_kings, q4) = r4.unwrap();
    let r5 = sp_repeat(slot_override_reader(), s, q4, np as nat);
    let (v_f_override, q5) = r5.unwrap();
    let r6 = sp_bool(s, q5);
    let (v_round_forced, q6) = r6.unwrap();
    if r0 is Some
        && r1 is Some
        && r2 is Some
        && r3 is Some
        && r4 is Some
        && r5 is Some
        && r6 is Some {
        Some((WorldView { round_number: v_round_number, ice: v_ice, mode: v_mode, avatar: v_avatar, kings: v_kings, f_override: v_f_override, round_forced: v_round_forced, ..base }, q6))
    } else {
        None
    }
}

/// Reading part 2 of a snapshot back.
#[verifier::spinoff_prover]
pub proof fn lemma_world_part2_rt(w: WorldView, np: usize, base: WorldView, s: Seq<u8>, i: int)
    requires
        np == w.players.len(),
        w.ice.len() < 256,
        w.kings.len() < 256,
        w.f_override.len() == np,
        has_at(s, i, enc_world_part2(w)),
    ensures
        sp_world_part2(s, i, np, base) == Some((WorldView { round_number: w.round_number, ice: w.ice, mode: w.mode, avatar: w.avatar, kings: w.kings, f_override: w.f_override, round_forced: w.round_forced, ..base }, i + enc_world_part2(w).len())),
{
    reveal(enc_world_part2);
    reveal(sp_world_part2);
    let e0 = enc_u32(w.round_number);
    let e1 = enc_ice(w.ice);
    let e2 = enc_u8(w.mode);
    let e3 = enc_opt(u32_writer(), w.avatar);
    let e4 = enc_short_list(w.kings);
    let e5 = enc_all(slot_override_writer(), w.f_override);
    let e6 = enc_bool(w.round_forced);
    let a0 = e0;
    let a1 = a0 + e1;
    let a2 = a1 + e2;
    let a3 = a2 + e3;
    let a4 = a3 + e4;
    let a5 = a4 + e5;
    let a6 = a5 + e6;
    assert(enc_world_part2(w) == a6);
    lemma_has_at_split(s, i, a5, e6);
    lemma_has_at_split(s, i, a4, e5);
    lemma_has_at_split(s, i, a3, e4);
    lemma_has_at_split(s, i, a2, e3);
    lemma_has_at_split(s, i, a1, e2);
    lemma_has_at_split(s, i, a0, e1);
    lemma_u32_inverts();
    lemma_slot_override_inverts();
    lemma_u32_rt(w.round_number, s, i);
    lemma_ice_rt(w.ice, s, i + a0.len());
    lemma_u8_rt(w.mode, s, i + a1.len());
    lemma_opt1_rt(u32_reader(), u32_writer(), always::<u32>(), w.avatar, s, i + a2.len());
    lemma_short_list_rt(w.kings, s, i + a3.len());
    lemma_repeat_rt(slot_override_reader(), slot_override_writer(), always::<Option<SkillId>>(), w.f_override, s, i + a4.len());
    lemma_bool_rt(w.round_forced, s, i + a5.len());
}

#[verifier::spinoff_prover]
fn encode_world_part2(o: &mut Vec<u8>, w: &World)
    ensures
        final(o)@ == old(o)@ + enc_world_part2(w@),
{
    wu32(o, w.round_number);
    let ghost acc = enc_u32(w@.round_number);
    assert(o@ =~= old(o)@ + acc);
    write_ice(o, &w.ice);
    let ghost acc = acc + enc_ice(w@.ice);
    assert(o@ =~= old(o)@ + acc);
    wu8(o, w.mode);
    let ghost acc = acc + enc_u8(w@.mode);
    assert(o@ =~= old(o)@ + acc);
    write_opt_u32(o, w.avatar);
    let ghost acc = acc + enc_opt(u32_writer(), w@.avatar);
    assert(o@ =~= old(o)@ + acc);
    write_short_list(o, &w.kings);
    let ghost acc = acc + enc_short_list(w@.kings);
    assert(o@ =~= old(o)@ + acc);
    write_slot_overrides(o, &w.f_override);
    let ghost acc = acc + enc_all(slot_override_writer(), w@.f_override);
    assert(o@ =~= old(o)@ + acc);
    wbool(o, w.round_forced);
    let ghost acc = acc + enc_bool(w@.round_forced);
    assert(o@ =~= old(o)@ + acc);
    assert(acc == enc_world_part2(w@)) by {
        reveal(enc_world_part2);
    }
}

#[verifier::spinoff_prover]
fn decode_world_part2(w: &mut World, b: &[u8], p: &mut usize, np: usize) -> (r: Option<()>)
    requires
        readable(b@, *old(p)),
    ensures
        *old(p) <= *final(p),
        r is Some ==> readable(b@, *final(p)),
        match sp_world_part2(b@, *old(p) as int, np, old(w)@) {
            Some((v, j)) => r == Some(()) && final(w)@ == v && *final(p) == j,
            None => r is None,
        },
{
    reveal(sp_world_part2);
    let round_number = u32at(b, p)?;
    let ice = read_ice(b, p)?;
    let mode = u8at(b, p)?;
    let avatar = read_opt1_u32(b, p)?;
    let kings = read_short_list(b, p)?;
    let f_override = read_slot_overrides(b, p, np)?;
    let round_forced = boolat(b, p)?;
    w.round_number = round_number;
    w.ice = ice;
    w.mode = mode;
    w.avatar = avatar;
    w.kings = kings;
    w.f_override = f_override;
    w.round_forced = round_forced;
    Some(())
}

/// Reading part 3 of a snapshot into `base`.
#[verifier::opaque]
pub open spec fn sp_world_part3(s: Seq<u8>, i: int, np: usize, base: WorldView) -> Option<(WorldView, int)> {
    let r0 = sp_repeat(row_reader(np as nat), s, i, np as nat);
    let (v_damage_matrix, q0) = r0.unwrap();
    let r1 = sp_repeat(fix_reader(), s, q0, np as nat);
    let (v_avatar_score, q1) = r1.unwrap();
    if r0 is Some
        && r1 is Some {
        Some((WorldView { damage_matrix: v_damage_matrix, avatar_score: v_avatar_score, ..base }, q1))
    } else {
        None
    }
}

/// Reading part 3 of a snapshot back.
#[verifier::spinoff_prover]
pub proof fn lemma_world_part3_rt(w: WorldView, np: usize, base: WorldView, s: Seq<u8>, i: int)
    requires
        np == w.players.len(),
        w.damage_matrix.len() == np,
        forall|k: int| 0 <= k < w.damage_matrix.len() ==> #[trigger] w.damage_matrix[k].len() == np,
        w.avatar_score.len() == np,
        has_at(s, i, enc_world_part3(w)),
    ensures
        sp_world_part3(s, i, np, base) == Some((WorldView { damage_matrix: w.damage_matrix, avatar_score: w.avatar_score, ..base }, i + enc_world_part3(w).len())),
{
    reveal(enc_world_part3);
    reveal(sp_world_part3);
    let e0 = enc_all(row_writer(w.players.len() as int), w.damage_matrix);
    let e1 = enc_all(fix_writer(), take_upto(w.avatar_score, w.players.len() as int));
    let a0 = e0;
    let a1 = a0 + e1;
    assert(enc_world_part3(w) == a1);
    lemma_has_at_split(s, i, a0, e1);
    lemma_matrix_rt(w.damage_matrix, np, s, i);
    lemma_scores_rt(w.avatar_score, np, s, i + a0.len());
}

#[verifier::spinoff_prover]
fn encode_world_part3(o: &mut Vec<u8>, w: &World)
    ensures
        final(o)@ == old(o)@ + enc_world_part3(w@),
{
    let n = w.players.len();
    write_matrix(o, &w.damage_matrix, n);
    let ghost acc = enc_all(row_writer(w@.players.len() as int), w@.damage_matrix);
    assert(o@ =~= old(o)@ + acc);
    write_fixs_upto(o, &w.avatar_score, n);
    let ghost acc = acc + enc_all(fix_writer(), take_upto(w@.avatar_score, w@.players.len() as int));
    assert(o@ =~= old(o)@ + acc);
    assert(acc == enc_world_part3(w@)) by {
        reveal(enc_world_part3);
    }
}

#[verifier::spinoff_prover]
fn decode_world_part3(w: &mut World, b: &[u8], p: &mut usize, np: usize) -> (r: Option<()>)
    requires
        readable(b@, *old(p)),
    ensures
        *old(p) <= *final(p),
        r is Some ==> readable(b@, *final(p)),
        match sp_world_part3(b@, *old(p) as int, np, old(w)@) {
            Some((v, j)) => r == Some(()) && final(w)@ == v && *final(p) == j,
            None => r is None,
        },
{
    reveal(sp_world_part3);
    let damage_matrix = read_matrix(b, p, np)?;
    let avatar_score = read_fixs(b, p, np)?;
    w.damage_matrix = damage_matrix;
    w.avatar_score = avatar_score;
    Some(())
}

/// Reading part 4 of a snapshot into `base`.
#[verifier::opaque]
pub open spec fn sp_world_part4(s: Seq<u8>, i: int, base: WorldView) -> Option<(WorldView, int)> {
    let r0 = sp_counted(obstacle_reader(), MAX_DECODE_OBSTACLES, s, i);
    let (v_obstacles, q0) = r0.unwrap();
    let r1 = sp_counted(projectile_reader(), MAX_DECODE_PROJECTILES, s, q0);
    let (v_projectiles, q1) = r1.unwrap();
    if r0 is Some
        && r1 is Some {
        Some((WorldView { obstacles: v_obstacles, projectiles: v_projectiles, ..base }, q1))
    } else {
        None
    }
}

/// Reading part 4 of a snapshot back.
#[verifier::spinoff_prover]
pub proof fn lemma_world_part4_rt(w: WorldView, base: WorldView, s: Seq<u8>, i: int)
    requires
        w.obstacles.len() <= MAX_DECODE_OBSTACLES,
        w.projectiles.len() <= MAX_DECODE_PROJECTILES,
        forall|k: int| 0 <= k < w.projectiles.len() ==> wf_projectile(#[trigger] w.projectiles[k]),
        has_at(s, i, enc_world_part4(w)),
    ensures
        sp_world_part4(s, i, base) == Some((WorldView { obstacles: w.obstacles, projectiles: w.projectiles, ..base }, i + enc_world_part4(w).len())),
{
    reveal(enc_world_part4);
    reveal(sp_world_part4);
    let e0 = enc_counted(obstacle_writer(), w.obstacles);
    let e1 = enc_counted(projectile_writer(), w.projectiles);
    let a0 = e0;
    let a1 = a0 + e1;
    assert(enc_world_part4(w) == a1);
    lemma_has_at_split(s, i, a0, e1);
    lemma_obstacles_rt(w.obstacles, s, i);
    lemma_projectiles_rt(w.projectiles, s, i + a0.len());
}

#[verifier::spinoff_prover]
fn encode_world_part4(o: &mut Vec<u8>, w: &World)
    ensures
        final(o)@ == old(o)@ + enc_world_part4(w@),
{
    write_obstacles(o, &w.obstacles);
    let ghost acc = enc_counted(obstacle_writer(), w@.obstacles);
    assert(o@ =~= old(o)@ + acc);
    write_projectiles(o, &w.projectiles);
    let ghost acc = acc + enc_counted(projectile_writer(), w@.projectiles);
    assert(o@ =~= old(o)@ + acc);
    assert(acc == enc_world_part4(w@)) by {
        reveal(enc_world_part4);
    }
}

#[verifier::spinoff_prover]
fn decode_world_part4(w: &mut World, b: &[u8], p: &mut usize) -> (r: Option<()>)
    requires
        readable(b@, *old(p)),
    ensures
        *old(p) <= *final(p),
        r is Some ==> readable(b@, *final(p)),
        match sp_world_part4(b@, *old(p) as int, old(w)@) {
            Some((v, j)) => r == Some(()) && final(w)@ == v && *final(p) == j,
            None => r is None,
        },
{
    reveal(sp_world_part4);
    let obstacles = read_obstacles(b, p)?;
    let projectiles = read_projectiles(b, p)?;
    w.obstacles = obstacles;
    w.projectiles = projectiles;
    Some(())
}

/// Reading part 5 of a snapshot into `base`.
#[verifier::opaque]
pub open spec fn sp_world_part5(s: Seq<u8>, i: int, np: usize, base: WorldView) -> Option<(WorldView, int)> {
    let r0 = sp_counted(index_reader(np), MAX_DECODE_ELIMINATED, s, i);
    let (v_eliminated_order, q0) = r0.unwrap();
    let r1 = sp_counted(kill_reader(np), MAX_DECODE_KILLS, s, q0);
    let (v_kills_this_round, q1) = r1.unwrap();
    let r2 = sp_fix(s, q1);
    let (v_shrink_timer, q2) = r2.unwrap();
    let r3 = sp_opt1(index_reader(np), s, q2);
    let (v_pending_avatar, q3) = r3.unwrap();
    let r4 = sp_short_indices(s, q3, np);
    let (v_pending_kings, q4) = r4.unwrap();
    if r0 is Some
        && r1 is Some
        && r2 is Some
        && r3 is Some
        && r4 is Some {
        Some((WorldView { eliminated_order: v_eliminated_order, kills_this_round: v_kills_this_round, shrink_timer: v_shrink_timer, pending_avatar: v_pending_avatar, pending_kings: v_pending_kings, ..base }, q4))
    } else {
        None
    }
}

/// Reading part 5 of a snapshot back.
#[verifier::spinoff_prover]
pub proof fn lemma_world_part5_rt(w: WorldView, np: usize, base: WorldView, s: Seq<u8>, i: int)
    requires
        np == w.players.len(),
        w.eliminated_order.len() <= MAX_DECODE_ELIMINATED,
        forall|k: int| 0 <= k < w.eliminated_order.len() ==> #[trigger] w.eliminated_order[k] < np,
        w.kills_this_round.len() <= MAX_DECODE_KILLS,
        forall|k: int| 0 <= k < w.kills_this_round.len() ==> #[trigger] w.kills_this_round[k].0 < np && w.kills_this_round[k].1 < np,
        (w.pending_avatar matches Some(k) ==> k < np),
        w.pending_kings.len() < 256,
        forall|k: int| 0 <= k < w.pending_kings.len() ==> #[trigger] w.pending_kings[k] < np,
        has_at(s, i, enc_world_part5(w)),
    ensures
        sp_world_part5(s, i, np, base) == Some((WorldView { eliminated_order: w.eliminated_order, kills_this_round: w.kills_this_round, shrink_timer: w.shrink_timer, pending_avatar: w.pending_avatar, pending_kings: w.pending_kings, ..base }, i + enc_world_part5(w).len())),
{
    reveal(enc_world_part5);
    reveal(sp_world_part5);
    let e0 = enc_counted(u32_writer(), w.eliminated_order);
    let e1 = enc_counted(kill_writer(), w.kills_this_round);
    let e2 = enc_fix(w.shrink_timer);
    let e3 = enc_opt(u32_writer(), w.pending_avatar);
    let e4 = enc_short_list(w.pending_kings);
    let a0 = e0;
    let a1 = a0 + e1;
    let a2 = a1 + e2;
    let a3 = a2 + e3;
    let a4 = a3 + e4;
    assert(enc_world_part5(w) == a4);
    lemma_has_at_split(s, i, a3, e4);
    lemma_has_at_split(s, i, a2, e3);
    lemma_has_at_split(s, i, a1, e2);
    lemma_has_at_split(s, i, a0, e1);
    lemma_eliminated_rt(w.eliminated_order, np, s, i);
    lemma_kills_rt(w.kills_this_round, np, s, i + a0.len());
    lemma_fix_rt(w.shrink_timer, s, i + a1.len());
    lemma_pending_avatar_rt(w.pending_avatar, np, s, i + a2.len());
    lemma_short_indices_rt(w.pending_kings, np, s, i + a3.len());
}

#[verifier::spinoff_prover]
fn encode_world_part5(o: &mut Vec<u8>, w: &World)
    ensures
        final(o)@ == old(o)@ + enc_world_part5(w@),
{
    write_counted_u32s(o, &w.eliminated_order);
    let ghost acc = enc_counted(u32_writer(), w@.eliminated_order);
    assert(o@ =~= old(o)@ + acc);
    write_kills(o, &w.kills_this_round);
    let ghost acc = acc + enc_counted(kill_writer(), w@.kills_this_round);
    assert(o@ =~= old(o)@ + acc);
    wfix(o, w.shrink_timer);
    let ghost acc = acc + enc_fix(w@.shrink_timer);
    assert(o@ =~= old(o)@ + acc);
    write_opt_u32(o, w.pending_avatar);
    let ghost acc = acc + enc_opt(u32_writer(), w@.pending_avatar);
    assert(o@ =~= old(o)@ + acc);
    write_short_list(o, &w.pending_kings);
    let ghost acc = acc + enc_short_list(w@.pending_kings);
    assert(o@ =~= old(o)@ + acc);
    assert(acc == enc_world_part5(w@)) by {
        reveal(enc_world_part5);
    }
}

#[verifier::spinoff_prover]
fn decode_world_part5(w: &mut World, b: &[u8], p: &mut usize, np: usize) -> (r: Option<()>)
    requires
        readable(b@, *old(p)),
    ensures
        *old(p) <= *final(p),
        r is Some ==> readable(b@, *final(p)),
        match sp_world_part5(b@, *old(p) as int, np, old(w)@) {
            Some((v, j)) => r == Some(()) && final(w)@ == v && *final(p) == j,
            None => r is None,
        },
{
    reveal(sp_world_part5);
    let eliminated_order = read_eliminated(b, p, np)?;
    let kills_this_round = read_kills(b, p, np)?;
    let shrink_timer = fixat(b, p)?;
    let pending_avatar = read_pending_avatar(b, p, np)?;
    let pending_kings = read_short_indices(b, p, np)?;
    w.eliminated_order = eliminated_order;
    w.kills_this_round = kills_this_round;
    w.shrink_timer = shrink_timer;
    w.pending_avatar = pending_avatar;
    w.pending_kings = pending_kings;
    Some(())
}

/// Encoding of a snapshot: its parts in order.
pub open spec fn enc_world(w: WorldView) -> Seq<u8> {
    enc_world_part1(w)
        + enc_world_part2(w)
        + enc_world_part3(w)
        + enc_world_part4(w)
        + enc_world_part5(w)
}

/// A snapshot that reads back exactly as written: at most [`MAX_DECODE_PLAYERS`] players,
/// each one that a snapshot of that many players can carry; a replacement skill, a damage
/// row and an avatar score for each player, each damage row one entry per player; fewer
/// than 256 ice discs, kings and next-round kings; the obstacle, projectile, elimination
/// and kill lists within their bounds; every roster projectile's homing target not the
/// all-ones word; and every eliminated, killing, killed and next-round index a player.
pub open spec fn wf_world(w: WorldView) -> bool {
    let np = w.players.len() as usize;
    &&& w.players.len() <= MAX_DECODE_PLAYERS
    &&& forall|k: int| 0 <= k < w.players.len() ==> wf_player(#[trigger] w.players[k], w.players.len() as usize)
    &&& w.ice.len() < 256
    &&& w.kings.len() < 256
    &&& w.f_override.len() == np
    &&& w.damage_matrix.len() == np
    &&& forall|k: int| 0 <= k < w.damage_matrix.len() ==> #[trigger] w.damage_matrix[k].len() == np
    &&& w.avatar_score.len() == np
    &&& w.obstacles.len() <= MAX_DECODE_OBSTACLES
    &&& w.projectiles.len() <= MAX_DECODE_PROJECTILES
    &&& forall|k: int| 0 <= k < w.projectiles.len() ==> wf_projectile(#[trigger] w.projectiles[k])
    &&& w.eliminated_order.len() <= MAX_DECODE_ELIMINATED
    &&& forall|k: int| 0 <= k < w.eliminated_order.len() ==> #[trigger] w.eliminated_order[k] < np
    &&& w.kills_this_round.len() <= MAX_DECODE_KILLS
    &&& forall|k: int| 0 <= k < w.kills_this_round.len() ==> #[trigger] w.kills_this_round[k].0 < np && w.kills_this_round[k].1 < np
    &&& (w.pending_avatar matches Some(k) ==> k < np)
    &&& w.pending_kings.len() < 256
    &&& forall|k: int| 0 <= k < w.pending_kings.len() ==> #[trigger] w.pending_kings[k] < np
}

/// Reading a snapshot from the start of `s`: its parts in order, the player list first,
/// whose length bounds every player index that follows. Bytes after the snapshot are ignored.
pub open spec fn sp_world(s: Seq<u8>) -> Option<WorldView> {
    match sp_world_part1(s, 0, blank_world_view()) {
        Some((v1, q1)) => {
            let np = v1.players.len() as usize;
            match sp_world_part2(s, q1, np, v1) {
                Some((v2, q2)) => {
                    match sp_world_part3(s, q2, np, v2) {
                        Some((v3, q3)) => {
                            match sp_world_part4(s, q3, v3) {
                                Some((v4, q4)) => {
                                    match sp_world_part5(s, q4, np, v4) {
                                        Some((v5, q5)) => {
                                            Some(v5)
                                        },
                                        None => None,
                                    }
                                },
                                None => None,
                            }
                        },
                        None => None,
                    }
                },
                None => None,
            }
        },
        None => None,
    }
}

/// Reading a snapshot back: a snapshot that reads back exactly as written does so
/// wherever it is followed by other bytes.
#[verifier::spinoff_prover]
pub proof fn lemma_world_rt(w: WorldView, s: Seq<u8>)
    requires
        wf_world(w),
        has_at(s, 0, enc_world(w)),
    ensures
        sp_world(s) == Some(w),
{
    let e0 = enc_world_part1(w);
    let e1 = enc_world_part2(w);
    let e2 = enc_world_part3(w);
    let e3 = enc_world_part4(w);
    let e4 = enc_world_part5(w);
    let a0 = e0;
    let a1 = a0 + e1;
    let a2 = a1 + e2;
    let a3 = a2 + e3;
    let a4 = a3 + e4;
    assert(enc_world(w) == a4);
    lemma_has_at_split(s, 0, a3, e4);
    lemma_has_at_split(s, 0, a2, e3);
    lemma_has_at_split(s, 0, a1, e2);
    lemma_has_at_split(s, 0, a0, e1);
    let np = w.players.len() as usize;
    let b1 = WorldView { arena_radius: w.arena_radius, sandbox: w.sandbox, round_seed: w.round_seed, time: w.time, players: w.players, ..blank_world_view() };
    lemma_world_part1_rt(w, blank_world_view(), s, 0);
    let q1: int = e0.len() as int;
    assert(q1 == a0.len());
    assert(has_at(s, q1, e1));
    let b2 = WorldView { round_number: w.round_number, ice: w.ice, mode: w.mode, avatar: w.avatar, kings: w.kings, f_override: w.f_override, round_forced: w.round_forced, ..b1 };
    lemma_world_part2_rt(w, np, b1, s, q1);
    let q2: int = q1 + e1.len();
    assert(q2 == a1.len());
    assert(has_at(s, q2, e2));
    let b3 = WorldView { damage_matrix: w.damage_matrix, avatar_score: w.avatar_score, ..b2 };
    lemma_world_part3_rt(w, np, b2, s, q2);
    let q3: int = q2 + e2.len();
    assert(q3 == a2.len());
    assert(has_at(s, q3, e3));
    let b4 = WorldView { obstacles: w.obstacles, projectiles: w.projectiles, ..b3 };
    lemma_world_part4_rt(w, b3, s, q3);
    let q4: int = q3 + e3.len();
    assert(q4 == a3.len());
    assert(has_at(s, q4, e4));
    let b5 = WorldView { eliminated_order: w.eliminated_order, kills_this_round: w.kills_this_round, shrink_timer: w.shrink_timer, pending_avatar: w.pending_avatar, pending_kings: w.pending_kings, ..b4 };
    lemma_world_part5_rt(w, np, b4, s, q4);
    assert(b5 == w);
}

/// Encodes a snapshot of the world.
pub fn world_to_bytes(w: &World) -> (r: Vec<u8>)
    ensures
        r@ == enc_world(w@),
{
    let mut o: Vec<u8> = Vec::new();
    encode_world_part1(&mut o, w);
    encode_world_part2(&mut o, w);
    encode_world_part3(&mut o, w);
    encode_world_part4(&mut o, w);
    encode_world_part5(&mut o, w);
    assert(o@ =~= enc_world(w@));
    o
}

/// Decodes a snapshot from the start of `b`; `None` when the bytes are not a snapshot:
/// truncated, an unknown tag, a count above its bound, or a player index out of range.
pub fn world_from_bytes(b: &[u8]) -> (r: Option<World>)
    requires
        b@.len() <= isize::MAX,
    ensures
        match sp_world(b@) {
            Some(v) => r matches Some(w) && w@ == v,
            None => r is None,
        },
        r matches Some(w) ==> indices_in_range(w@),
{
    proof {
        if sp_world(b@) is Some {
            law_decoded_indices_in_range(b@);
        }
    }
    let mut p: usize = 0;
    let mut w = blank_world();
    decode_world_part1(&mut w, b, &mut p)?;
    let np = w.players.len();
    decode_world_part2(&mut w, b, &mut p, np)?;
    decode_world_part3(&mut w, b, &mut p, np)?;
    decode_world_part4(&mut w, b, &mut p)?;
    decode_world_part5(&mut w, b, &mut p, np)?;
    Some(w)
}

/// What a snapshot reads back as: every snapshot that [`wf_world`] accepts decodes to
/// itself from its own encoding, whatever bytes follow it.
pub proof fn law_snapshot_roundtrip(w: WorldView, rest: Seq<u8>)
    requires
        wf_world(w),
    ensures
        sp_world(enc_world(w) + rest) == Some(w),
{
    let s = enc_world(w) + rest;
    assert(s.subrange(0, enc_world(w).len() as int) =~= enc_world(w));
    lemma_world_rt(w, s);
}

// ===========================================================================
// State hash
// ===========================================================================

/// The FNV-1a 64-bit offset basis.
pub const FNV_OFFSET: u64 = 0xcbf2_9ce4_8422_2325;
/// The FNV-1a 64-bit prime.
pub const FNV_PRIME: u64 = 0x0000_0100_0000_01b3;

/// One FNV-1a step: mix in a byte, then multiply by the prime modulo 2^64.
pub open spec fn fnv_step(h: u64, b: u8) -> u64 {
    vstd::wrapping::u64_specs::wrapping_mul(h ^ (b as u64), FNV_PRIME)
}

/// The FNV-1a 64-bit hash of a byte sequence.
pub open spec fn fnv1a(s: Seq<u8>) -> u64
    decreases s.len(),
{
    if s.len() == 0 {
        FNV_OFFSET
    } else {
        fnv_step(fnv1a(s.drop_last()), s.last())
    }
}

/// Multiplying by the FNV prime modulo 2^64 loses nothing: the prime is odd, so it has an
/// inverse modulo 2^64.
proof fn lemma_prime_mul_injective(x: u64, y: u64)
    requires
        vstd::wrapping::u64_specs::wrapping_mul(x, FNV_PRIME) == vstd::wrapping::u64_specs::wrapping_mul(y, FNV_PRIME),
    ensures
        x == y,
{
    let m: int = 0x1_0000_0000_0000_0000;
    let q: int = 0xce96_5057_aff6_957b;
    let p: int = FNV_PRIME as int;
    let k: int = 0xce_9650_590f;
    assert(p * q == 1 + k * m);
    lemma_prime_inverse(x as int, p, q, k, m);
    lemma_prime_inverse(y as int, p, q, k, m);
}

/// `x` is recovered from `x * p` modulo `m` by multiplying by `q`, when `p * q = 1 + k m`.
proof fn lemma_prime_inverse(x: int, p: int, q: int, k: int, m: int)
    requires
        0 <= x < m,
        m > 0,
        p * q == 1 + k * m,
    ensures
        (x * p % m) * q % m == x,
{
    vstd::arithmetic::div_mod::lemma_mul_mod_noop_left(x * p, q, m);
    vstd::arithmetic::mul::lemma_mul_is_associative(x, p, q);
    assert(x * (p * q) == m * (x * k) + x) by (nonlinear_arith)
        requires
            p * q == 1 + k * m,
    ;
    vstd::arithmetic::div_mod::lemma_mod_multiples_vanish(x * k, x, m);
    vstd::arithmetic::div_mod::lemma_small_mod(x as nat, m as nat);
}

/// The hashes of two byte strings that differ in exactly one place differ at every
/// length past that place.
proof fn lemma_fnv_differs_from(a: Seq<u8>, b: Seq<u8>, k: int, n: int)
    requires
        a.len() == b.len(),
        0 <= k < n <= a.len(),
        a[k] != b[k],
        forall|i: int| 0 <= i < a.len() && i != k ==> a[i] == b[i],
    ensures
        fnv1a(a.take(n)) != fnv1a(b.take(n)),
    decreases n,
{
    assert(a.take(n).drop_last() =~= a.take(n - 1));
    assert(b.take(n).drop_last() =~= b.take(n - 1));
    let ha = fnv1a(a.take(n - 1));
    let hb = fnv1a(b.take(n - 1));
    let xa: u64 = a[n - 1] as u64;
    let xb: u64 = b[n - 1] as u64;
    if n - 1 == k {
        assert(a.take(n - 1) =~= b.take(n - 1));
        assert(xa != xb);
        assert(ha ^ xa != ha ^ xb) by (bit_vector)
            requires
                xa != xb,
        ;
        if fnv1a(a.take(n)) == fnv1a(b.take(n)) {
            lemma_prime_mul_injective(ha ^ xa, hb ^ xb);
        }
    } else {
        lemma_fnv_differs_from(a, b, k, n - 1);
        assert(xa == xb);
        assert(ha ^ xa != hb ^ xb) by (bit_vector)
            requires
                ha != hb,
                xa == xb,
        ;
        if fnv1a(a.take(n)) == fnv1a(b.take(n)) {
            lemma_prime_mul_injective(ha ^ xa, hb ^ xb);
        }
    }
}

/// Law (sensitivity): changing a single byte of a byte string always changes its
/// FNV-1a hash.
pub proof fn law_one_byte_changes_hash(a: Seq<u8>, b: Seq<u8>, k: int)
    requires
        a.len() == b.len(),
        0 <= k < a.len(),
        a[k] != b[k],
        forall|i: int| 0 <= i < a.len() && i != k ==> a[i] == b[i],
    ensures
        fnv1a(a) != fnv1a(b),
{
    lemma_fnv_differs_from(a, b, k, a.len() as int);
    assert(a.take(a.len() as int) =~= a);
    assert(b.take(b.len() as int) =~= b);
}

/// The FNV-1a hash of already encoded snapshot bytes, so that one encoding can serve
/// both the hash and the snapshot.
pub fn state_hash_bytes(bytes: &[u8]) -> (r: u64)
    ensures
        r == fnv1a(bytes@),
{
    let mut h: u64 = FNV_OFFSET;
    let n = bytes.len();
    let mut k: usize = 0;
    while k < n
        invariant
            n == bytes@.len(),
            k <= n,
            h == fnv1a(bytes@.take(k as int)),
        decreases n - k,
    {
        proof {
            assert(bytes@.take(k as int + 1).drop_last() =~= bytes@.take(k as int));
        }
        let b = bytes[k];
        h = h ^ (b as u64);
        h = h.wrapping_mul(FNV_PRIME);
        k = k + 1;
    }
    proof {
        assert(bytes@.take(n as int) =~= bytes@);
    }
    h
}

/// The state hash of a world, used to detect peers whose simulations have diverged:
/// the FNV-1a hash of its snapshot encoding, so equal snapshots hash alike on every
/// platform.
pub fn state_hash(w: &World) -> (r: u64)
    ensures
        r == fnv1a(enc_world(w@)),
{
    let bytes = world_to_bytes(w);
    state_hash_bytes(bytes.as_slice())
}

/// Snapshot encoding and decoding under one name.
pub struct SerializeWorld;

impl SerializeWorld {
    /// Encodes a snapshot; the same bytes as [`world_to_bytes`].
    pub fn encode(w: &World) -> (r: Vec<u8>)
        ensures
            r@ == enc_world(w@),
    {
        world_to_bytes(w)
    }

    /// Decodes a snapshot; the same result as [`world_from_bytes`].
    pub fn decode(b: &[u8]) -> (r: Option<World>)
        requires
            b@.len() <= isize::MAX,
        ensures
            match sp_world(b@) {
                Some(v) => r matches Some(w) && w@ == v,
                None => r is None,
            },
    {
        world_from_bytes(b)
    }
}

// ===========================================================================
// What every decoded snapshot satisfies
// ===========================================================================

/// A player's own index and last hitter are players of `np`, and its command ring
/// indices are in range.
pub open spec fn player_indices_ok(pv: PlayerView, np: int) -> bool {
    &&& pv.id < np
    &&& (pv.last_hit_by matches Some(h) ==> h < np)
    &&& spec_cmd_indices_valid(pv.cmd_head as int, pv.cmd_len as int)
}

/// Every index that picks a player out of the snapshot's player list points into it, and
/// every command ring index is in range, so that no later lookup can fail.
pub open spec fn indices_in_range(w: WorldView) -> bool {
    let np = w.players.len() as int;
    &&& forall|k: int| 0 <= k < np ==> player_indices_ok(#[trigger] w.players[k], np)
    &&& forall|k: int| 0 <= k < w.eliminated_order.len() ==> #[trigger] w.eliminated_order[k] < np
    &&& forall|k: int|
        0 <= k < w.kills_this_round.len() ==> #[trigger] w.kills_this_round[k].0 < np
            && w.kills_this_round[k].1 < np
    &&& (w.pending_avatar matches Some(a) ==> a < np)
    &&& forall|k: int| 0 <= k < w.pending_kings.len() ==> #[trigger] w.pending_kings[k] < np
}

/// A player read as one of `np` has its indices in range.
#[verifier::spinoff_prover]
proof fn lemma_player_indices(s: Seq<u8>, i: int, np: usize)
    requires
        sp_player(s, i, np) is Some,
    ensures
        player_indices_ok(sp_player(s, i, np).unwrap().0, np as int),
{
    reveal(sp_player_part1);
    reveal(sp_player_part2);
    reveal(sp_player_part3);
    reveal(sp_player_part4);
    reveal(sp_player_part5);
    reveal(sp_player_part6);
    reveal(sp_player_part7);
}

/// Every item of a successfully read counted list is one that the item reader can yield.
proof fn lemma_counted_all<X>(
    p: spec_fn(Seq<u8>, int) -> Option<(X, int)>,
    ok: spec_fn(X) -> bool,
    max: usize,
    s: Seq<u8>,
    i: int,
)
    requires
        forall|t: Seq<u8>, j: int| #[trigger] p(t, j) is Some ==> ok(p(t, j).unwrap().0),
        sp_counted(p, max, s, i) is Some,
    ensures
        forall|k: int|
            0 <= k < sp_counted(p, max, s, i).unwrap().0.len() ==> ok(
                #[trigger] sp_counted(p, max, s, i).unwrap().0[k],
            ),
{
    let (m, j) = sp_count(s, i, max).unwrap();
    lemma_repeat_all(p, ok, s, j, m as nat);
}

/// The header and player part of a decoded snapshot has every player's indices in range.
#[verifier::spinoff_prover]
proof fn lemma_world_part1_indices(s: Seq<u8>)
    requires
        sp_world_part1(s, 0, blank_world_view()) is Some,
    ensures
        ({
            let ps = sp_world_part1(s, 0, blank_world_view()).unwrap().0.players;
            forall|k: int| 0 <= k < ps.len() ==> player_indices_ok(#[trigger] ps[k], ps.len() as int)
        }),
{
    reveal(sp_world_part1);
    assert(sp_players(s, 25) is Some);
    let (n, j) = sp_count(s, 25, MAX_DECODE_PLAYERS).unwrap();
    let ok = |pv: PlayerView| player_indices_ok(pv, n as int);
    assert forall|t: Seq<u8>, jj: int| #[trigger] (player_reader(n))(t, jj) is Some implies ok(
        (player_reader(n))(t, jj).unwrap().0,
    ) by {
        lemma_player_indices(t, jj, n);
    }
    lemma_repeat_all(player_reader(n), ok, s, j, n as nat);
}

/// The parts after the player list leave it as it is.
proof fn lemma_world_middle_keeps_players(s: Seq<u8>, i: int, np: usize, base: WorldView)
    ensures
        sp_world_part2(s, i, np, base) matches Some((v, _)) ==> v.players == base.players,
        sp_world_part3(s, i, np, base) matches Some((v, _)) ==> v.players == base.players,
        sp_world_part4(s, i, base) matches Some((v, _)) ==> v.players == base.players,
{
    reveal(sp_world_part2);
    reveal(sp_world_part3);
    reveal(sp_world_part4);
}

/// The last part of a decoded snapshot keeps the player list and has every index in range.
#[verifier::spinoff_prover]
proof fn lemma_world_part5_indices(s: Seq<u8>, i: int, np: usize, base: WorldView)
    requires
        sp_world_part5(s, i, np, base) is Some,
    ensures
        ({
            let w = sp_world_part5(s, i, np, base).unwrap().0;
            &&& w.players == base.players
            &&& forall|k: int| 0 <= k < w.eliminated_order.len() ==> #[trigger] w.eliminated_order[k] < np
            &&& forall|k: int|
                0 <= k < w.kills_this_round.len() ==> #[trigger] w.kills_this_round[k].0 < np
                    && w.kills_this_round[k].1 < np
            &&& (w.pending_avatar matches Some(a) ==> a < np)
            &&& forall|k: int| 0 <= k < w.pending_kings.len() ==> #[trigger] w.pending_kings[k] < np
        }),
{
    reveal(sp_world_part5);
    let ok = |k: u32| k < np;
    assert forall|t: Seq<u8>, j: int| #[trigger] (index_reader(np))(t, j) is Some implies ok(
        (index_reader(np))(t, j).unwrap().0,
    ) by {}
    let okk = |kv: (u32, u32)| kv.0 < np && kv.1 < np;
    assert forall|t: Seq<u8>, j: int| #[trigger] (kill_reader(np))(t, j) is Some implies okk(
        (kill_reader(np))(t, j).unwrap().0,
    ) by {}
    let r0 = sp_counted(index_reader(np), MAX_DECODE_ELIMINATED, s, i);
    lemma_counted_all(index_reader(np), ok, MAX_DECODE_ELIMINATED, s, i);
    let q0 = r0.unwrap().1;
    let r1 = sp_counted(kill_reader(np), MAX_DECODE_KILLS, s, q0);
    lemma_counted_all(kill_reader(np), okk, MAX_DECODE_KILLS, s, q0);
    let q1 = r1.unwrap().1;
    let q2 = sp_fix(s, q1).unwrap().1;
    let q3 = sp_opt1(index_reader(np), s, q2).unwrap().1;
    let (m, j) = sp_u8(s, q3).unwrap();
    lemma_repeat_all(index_reader(np), ok, s, j, m as nat);
}

/// Decoding checks every player index: in a decoded snapshot each of them points at a
/// player, and every command ring index is in range.
#[verifier::spinoff_prover]
pub proof fn law_decoded_indices_in_range(s: Seq<u8>)
    requires
        sp_world(s) is Some,
    ensures
        indices_in_range(sp_world(s).unwrap()),
{
    let (v1, q1) = sp_world_part1(s, 0, blank_world_view()).unwrap();
    lemma_world_part1_indices(s);
    let np = v1.players.len() as usize;
    let (v2, q2) = sp_world_part2(s, q1, np, v1).unwrap();
    lemma_world_middle_keeps_players(s, q1, np, v1);
    let (v3, q3) = sp_world_part3(s, q2, np, v2).unwrap();
    lemma_world_middle_keeps_players(s, q2, np, v2);
    let (v4, q4) = sp_world_part4(s, q3, v3).unwrap();
    lemma_world_middle_keeps_players(s, q3, np, v3);
    lemma_world_part5_indices(s, q4, np, v4);
}

} // verus!
