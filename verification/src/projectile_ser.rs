//! Snapshot encoding of projectiles and timed areas.
//!
//! Every kind is written as a tag byte followed by its fields in a fixed order;
//! decoding refuses unknown tags and truncated input and reads back exactly what
//! encoding wrote.

use vstd::prelude::*;
use crate::fix::{Fix64, Vec2};
use crate::wire::{
    has_at, enc_opt, sp_opt, lemma_opt_rt, enc_u8, enc_bool, enc_u32, enc_u64, enc_fix, enc_vec,
    sp_u8, sp_bool, sp_u32, sp_u64, sp_fix, sp_vec, decoded, readable, lemma_has_at_split,
    lemma_u8_rt, lemma_bool_rt, lemma_u32_rt, lemma_u64_rt, lemma_fix_rt, lemma_vec_rt, wu64, wu32,
    wu8, wbool, wfix, wvec, u64at, u32at, u8at, boolat, fixat, vecat,
};
use crate::skill::{W098bProjKind, W098bOnHit};
use crate::world::{ScatterKind, ProjectileKind, Projectile};
use crate::world_ser::{fix_reader, fix_writer, lemma_fix_inverts, write_opt_fix, read_opt_fix};

verus! {

// ===========================================================================
// Small coded fields
// ===========================================================================

/// The code of a roster projectile's flight behaviour.
pub open spec fn proj_code(k: W098bProjKind) -> u8 {
    match k {
        W098bProjKind::Straight => 0,
        W098bProjKind::Homing => 1,
        W098bProjKind::Boomerang => 2,
        W098bProjKind::Bounce => 3,
        W098bProjKind::Magma => 4,
    }
}

/// The flight behaviour with a given code, if the code is known.
pub open spec fn proj_of_code(t: u8) -> Option<W098bProjKind> {
    if t == 0 {
        Some(W098bProjKind::Straight)
    } else if t == 1 {
        Some(W098bProjKind::Homing)
    } else if t == 2 {
        Some(W098bProjKind::Boomerang)
    } else if t == 3 {
        Some(W098bProjKind::Bounce)
    } else if t == 4 {
        Some(W098bProjKind::Magma)
    } else {
        None
    }
}

/// Reading a flight behaviour code.
pub open spec fn sp_proj_kind(s: Seq<u8>, i: int) -> Option<(W098bProjKind, int)> {
    match sp_u8(s, i) {
        Some((t, j)) => match proj_of_code(t) {
            Some(k) => Some((k, j)),
            None => None,
        },
        None => None,
    }
}

/// Reading a flight behaviour code back.
pub proof fn lemma_proj_kind_rt(k: W098bProjKind, s: Seq<u8>, i: int)
    requires
        has_at(s, i, enc_u8(proj_code(k))),
    ensures
        sp_proj_kind(s, i) == Some((k, i + 1)),
{
    lemma_u8_rt(proj_code(k), s, i);
}

fn proj_code_of(k: W098bProjKind) -> (r: u8)
    ensures
        r == proj_code(k),
{
    match k {
        W098bProjKind::Straight => 0,
        W098bProjKind::Homing => 1,
        W098bProjKind::Boomerang => 2,
        W098bProjKind::Bounce => 3,
        W098bProjKind::Magma => 4,
    }
}

fn read_proj_kind(b: &[u8], p: &mut usize) -> (r: Option<W098bProjKind>)
    requires
        *old(p) <= usize::MAX - 1,
    ensures
        decoded(r, *old(p), *final(p), sp_proj_kind(b@, *old(p) as int)),
{
    match u8at(b, p)? {
        0 => Some(W098bProjKind::Straight),
        1 => Some(W098bProjKind::Homing),
        2 => Some(W098bProjKind::Boomerang),
        3 => Some(W098bProjKind::Bounce),
        4 => Some(W098bProjKind::Magma),
        _ => None,
    }
}

/// The code of a roster projectile's hit effect.
pub open spec fn on_hit_code(h: W098bOnHit) -> u8 {
    match h {
        W098bOnHit::Ki => 0,
        W098bOnHit::Cripple => 1,
        W098bOnHit::ChainPull => 2,
        W098bOnHit::Scorched => 3,
        W098bOnHit::DrainSlow => 4,
        W098bOnHit::Weaken => 5,
        W098bOnHit::Recharge => 6,
        W098bOnHit::RedChain => 7,
        W098bOnHit::Silence => 8,
        W098bOnHit::SwapTarget => 9,
        W098bOnHit::CarrySelf => 10,
    }
}

/// The hit effect with a given code, if the code is known.
pub open spec fn on_hit_of_code(t: u8) -> Option<W098bOnHit> {
    if t == 0 {
        Some(W098bOnHit::Ki)
    } else if t == 1 {
        Some(W098bOnHit::Cripple)
    } else if t == 2 {
        Some(W098bOnHit::ChainPull)
    } else if t == 3 {
        Some(W098bOnHit::Scorched)
    } else if t == 4 {
        Some(W098bOnHit::DrainSlow)
    } else if t == 5 {
        Some(W098bOnHit::Weaken)
    } else if t == 6 {
        Some(W098bOnHit::Recharge)
    } else if t == 7 {
        Some(W098bOnHit::RedChain)
    } else if t == 8 {
        Some(W098bOnHit::Silence)
    } else if t == 9 {
        Some(W098bOnHit::SwapTarget)
    } else if t == 10 {
        Some(W098bOnHit::CarrySelf)
    } else {
        None
    }
}

/// Reading a hit effect code.
pub open spec fn sp_on_hit(s: Seq<u8>, i: int) -> Option<(W098bOnHit, int)> {
    match sp_u8(s, i) {
        Some((t, j)) => match on_hit_of_code(t) {
            Some(h) => Some((h, j)),
            None => None,
        },
        None => None,
    }
}

/// Reading a hit effect code back.
pub proof fn lemma_on_hit_rt(h: W098bOnHit, s: Seq<u8>, i: int)
    requires
        has_at(s, i, enc_u8(on_hit_code(h))),
    ensures
        sp_on_hit(s, i) == Some((h, i + 1)),
{
    lemma_u8_rt(on_hit_code(h), s, i);
}

fn on_hit_code_of(h: W098bOnHit) -> (r: u8)
    ensures
        r == on_hit_code(h),
{
    match h {
        W098bOnHit::Ki => 0,
        W098bOnHit::Cripple => 1,
        W098bOnHit::ChainPull => 2,
        W098bOnHit::Scorched => 3,
        W098bOnHit::DrainSlow => 4,
        W098bOnHit::Weaken => 5,
        W098bOnHit::Recharge => 6,
        W098bOnHit::RedChain => 7,
        W098bOnHit::Silence => 8,
        W098bOnHit::SwapTarget => 9,
        W098bOnHit::CarrySelf => 10,
    }
}

fn read_on_hit(b: &[u8], p: &mut usize) -> (r: Option<W098bOnHit>)
    requires
        *old(p) <= usize::MAX - 1,
    ensures
        decoded(r, *old(p), *final(p), sp_on_hit(b@, *old(p) as int)),
{
    match u8at(b, p)? {
        0 => Some(W098bOnHit::Ki),
        1 => Some(W098bOnHit::Cripple),
        2 => Some(W098bOnHit::ChainPull),
        3 => Some(W098bOnHit::Scorched),
        4 => Some(W098bOnHit::DrainSlow),
        5 => Some(W098bOnHit::Weaken),
        6 => Some(W098bOnHit::Recharge),
        7 => Some(W098bOnHit::RedChain),
        8 => Some(W098bOnHit::Silence),
        9 => Some(W098bOnHit::SwapTarget),
        10 => Some(W098bOnHit::CarrySelf),
        _ => None,
    }
}

/// The word that stands for an optional homing target: the target itself, or the
/// all-ones word for none.
pub open spec fn target_word(t: Option<u32>) -> u32 {
    match t {
        Some(k) => k,
        None => 0xFFFF_FFFFu32,
    }
}

/// Reading an optional homing target: the all-ones word stands for none.
pub open spec fn sp_target(s: Seq<u8>, i: int) -> Option<(Option<u32>, int)> {
    match sp_u32(s, i) {
        Some((k, j)) => Some((if k == 0xFFFF_FFFFu32 { None } else { Some(k) }, j)),
        None => None,
    }
}

/// Reading an optional homing target back; a target equal to the all-ones word would
/// read back as none.
pub proof fn lemma_target_rt(t: Option<u32>, s: Seq<u8>, i: int)
    requires
        t != Some(0xFFFF_FFFFu32),
        has_at(s, i, enc_u32(target_word(t))),
    ensures
        sp_target(s, i) == Some((t, i + 4)),
{
    lemma_u32_rt(target_word(t), s, i);
}

fn target_word_of(t: Option<u32>) -> (r: u32)
    ensures
        r == target_word(t),
{
    match t {
        Some(k) => k,
        None => u32::MAX,
    }
}

fn read_target(b: &[u8], p: &mut usize) -> (r: Option<Option<u32>>)
    requires
        *old(p) <= usize::MAX - 4,
    ensures
        decoded(r, *old(p), *final(p), sp_target(b@, *old(p) as int)),
{
    let k = u32at(b, p)?;
    Some(if k == u32::MAX { None } else { Some(k) })
}

// ===========================================================================
// Scatter kinds and projectile kinds
// ===========================================================================

/// Encoding of the fields of a burst scatter, in order.
#[verifier::opaque]
pub open spec fn enc_scatter_burst(count: u32, step_rad: Fix64, bullet_speed: Fix64) -> Seq<u8> {
    enc_u32(count)
        + enc_fix(step_rad)
        + enc_fix(bullet_speed)
}

/// Reading the fields of a burst scatter.
#[verifier::opaque]
pub open spec fn sp_scatter_burst(s: Seq<u8>, i: int) -> Option<(ScatterKind, int)> {
    let r0 = sp_u32(s, i);
    let (count, q0) = r0.unwrap();
    let r1 = sp_fix(s, q0);
    let (step_rad, q1) = r1.unwrap();
    let r2 = sp_fix(s, q1);
    let (bullet_speed, q2) = r2.unwrap();
    if r0 is Some
        && r1 is Some
        && r2 is Some {
        Some((ScatterKind::Burst { count, step_rad, bullet_speed }, q2))
    } else {
        None
    }
}

/// Reading the fields of a burst scatter back.
pub proof fn lemma_scatter_burst_rt(count: u32, step_rad: Fix64, bullet_speed: Fix64, s: Seq<u8>, i: int)
    requires
        has_at(s, i, enc_scatter_burst(count, step_rad, bullet_speed)),
    ensures
        sp_scatter_burst(s, i) == Some((ScatterKind::Burst { count, step_rad, bullet_speed }, i + enc_scatter_burst(count, step_rad, bullet_speed).len())),
{
    reveal(enc_scatter_burst);
    reveal(sp_scatter_burst);
    let e0 = enc_u32(count);
    let e1 = enc_fix(step_rad);
    let e2 = enc_fix(bullet_speed);
    let a0 = e0;
    let a1 = a0 + e1;
    let a2 = a1 + e2;
    assert(enc_scatter_burst(count, step_rad, bullet_speed) == a2);
    lemma_has_at_split(s, i, a1, e2);
    lemma_has_at_split(s, i, a0, e1);
    lemma_u32_rt(count, s, i);
    lemma_fix_rt(step_rad, s, i + a0.len());
    lemma_fix_rt(bullet_speed, s, i + a1.len());
}

fn write_scatter_burst(o: &mut Vec<u8>, count: u32, step_rad: Fix64, bullet_speed: Fix64)
    ensures
        final(o)@ == old(o)@ + enc_scatter_burst(count, step_rad, bullet_speed),
{
    wu32(o, count);
    let ghost acc = enc_u32(count);
    assert(o@ =~= old(o)@ + acc);
    wfix(o, step_rad);
    let ghost acc = acc + enc_fix(step_rad);
    assert(o@ =~= old(o)@ + acc);
    wfix(o, bullet_speed);
    let ghost acc = acc + enc_fix(bullet_speed);
    assert(o@ =~= old(o)@ + acc);
    assert(acc == enc_scatter_burst(count, step_rad, bullet_speed)) by {
        reveal(enc_scatter_burst);
    }
}

fn read_scatter_burst(b: &[u8], p: &mut usize) -> (r: Option<ScatterKind>)
    requires
        readable(b@, *old(p)),
    ensures
        decoded(r, *old(p), *final(p), sp_scatter_burst(b@, *old(p) as int)),
        r is Some ==> *final(p) <= b@.len(),
{
    reveal(sp_scatter_burst);
    let count = u32at(b, p)?;
    let step_rad = fixat(b, p)?;
    let bullet_speed = fixat(b, p)?;
    Some(ScatterKind::Burst { count, step_rad, bullet_speed })
}

/// Encoding of the fields of a periodic scatter, in order.
#[verifier::opaque]
pub open spec fn enc_scatter_periodic(count: u32, interval: Fix64, elapsed: Fix64, bullet_speed: Fix64, turn_rad: Fix64) -> Seq<u8> {
    enc_u32(count)
        + enc_fix(interval)
        + enc_fix(elapsed)
        + enc_fix(bullet_speed)
        + enc_fix(turn_rad)
}

/// Reading the fields of a periodic scatter.
#[verifier::opaque]
pub open spec fn sp_scatter_periodic(s: Seq<u8>, i: int) -> Option<(ScatterKind, int)> {
    let r0 = sp_u32(s, i);
    let (count, q0) = r0.unwrap();
    let r1 = sp_fix(s, q0);
    let (interval, q1) = r1.unwrap();
    let r2 = sp_fix(s, q1);
    let (elapsed, q2) = r2.unwrap();
    let r3 = sp_fix(s, q2);
    let (bullet_speed, q3) = r3.unwrap();
    let r4 = sp_fix(s, q3);
    let (turn_rad, q4) = r4.unwrap();
    if r0 is Some
        && r1 is Some
        && r2 is Some
        && r3 is Some
        && r4 is Some {
        Some((ScatterKind::Periodic { count, interval, elapsed, bullet_speed, turn_rad }, q4))
    } else {
        None
    }
}

/// Reading the fields of a periodic scatter back.
pub proof fn lemma_scatter_periodic_rt(count: u32, interval: Fix64, elapsed: Fix64, bullet_speed: Fix64, turn_rad: Fix64, s: Seq<u8>, i: int)
    requires
        has_at(s, i, enc_scatter_periodic(count, interval, elapsed, bullet_speed, turn_rad)),
    ensures
        sp_scatter_periodic(s, i) == Some((ScatterKind::Periodic { count, interval, elapsed, bullet_speed, turn_rad }, i + enc_scatter_periodic(count, interval, elapsed, bullet_speed, turn_rad).len())),
{
    reveal(enc_scatter_periodic);
    reveal(sp_scatter_periodic);
    let e0 = enc_u32(count);
    let e1 = enc_fix(interval);
    let e2 = enc_fix(elapsed);
    let e3 = enc_fix(bullet_speed);
    let e4 = enc_fix(turn_rad);
    let a0 = e0;
    let a1 = a0 + e1;
    let a2 = a1 + e2;
    let a3 = a2 + e3;
    let a4 = a3 + e4;
    assert(enc_scatter_periodic(count, interval, elapsed, bullet_speed, turn_rad) == a4);
    lemma_has_at_split(s, i, a3, e4);
    lemma_has_at_split(s, i, a2, e3);
    lemma_has_at_split(s, i, a1, e2);
    lemma_has_at_split(s, i, a0, e1);
    lemma_u32_rt(count, s, i);
    lemma_fix_rt(interval, s, i + a0.len());
    lemma_fix_rt(elapsed, s, i + a1.len());
    lemma_fix_rt(bullet_speed, s, i + a2.len());
    lemma_fix_rt(turn_rad, s, i + a3.len());
}

fn write_scatter_periodic(o: &mut Vec<u8>, count: u32, interval: Fix64, elapsed: Fix64, bullet_speed: Fix64, turn_rad: Fix64)
    ensures
        final(o)@ == old(o)@ + enc_scatter_periodic(count, interval, elapsed, bullet_speed, turn_rad),
{
    wu32(o, count);
    let ghost acc = enc_u32(count);
    assert(o@ =~= old(o)@ + acc);
    wfix(o, interval);
    let ghost acc = acc + enc_fix(interval);
    assert(o@ =~= old(o)@ + acc);
    wfix(o, elapsed);
    let ghost acc = acc + enc_fix(elapsed);
    assert(o@ =~= old(o)@ + acc);
    wfix(o, bullet_speed);
    let ghost acc = acc + enc_fix(bullet_speed);
    assert(o@ =~= old(o)@ + acc);
    wfix(o, turn_rad);
    let ghost acc = acc + enc_fix(turn_rad);
    assert(o@ =~= old(o)@ + acc);
    assert(acc == enc_scatter_periodic(count, interval, elapsed, bullet_speed, turn_rad)) by {
        reveal(enc_scatter_periodic);
    }
}

fn read_scatter_periodic(b: &[u8], p: &mut usize) -> (r: Option<ScatterKind>)
    requires
        readable(b@, *old(p)),
    ensures
        decoded(r, *old(p), *final(p), sp_scatter_periodic(b@, *old(p) as int)),
        r is Some ==> *final(p) <= b@.len(),
{
    reveal(sp_scatter_periodic);
    let count = u32at(b, p)?;
    let interval = fixat(b, p)?;
    let elapsed = fixat(b, p)?;
    let bullet_speed = fixat(b, p)?;
    let turn_rad = fixat(b, p)?;
    Some(ScatterKind::Periodic { count, interval, elapsed, bullet_speed, turn_rad })
}

/// Encoding of a scatter kind: the tag byte, then the fields of the variant.
pub open spec fn enc_scatter(x: ScatterKind) -> Seq<u8> {
    match x {
        ScatterKind::Burst { count, step_rad, bullet_speed } => enc_u8(0) + enc_scatter_burst(count, step_rad, bullet_speed),
        ScatterKind::Periodic { count, interval, elapsed, bullet_speed, turn_rad } => enc_u8(1) + enc_scatter_periodic(count, interval, elapsed, bullet_speed, turn_rad),
    }
}

/// Reading a scatter kind: an unknown tag is refused.
pub open spec fn sp_scatter(s: Seq<u8>, i: int) -> Option<(ScatterKind, int)> {
    match sp_u8(s, i) {
        Some((t, j)) => if t == 0 {
            sp_scatter_burst(s, j)
        } else if t == 1 {
            sp_scatter_periodic(s, j)
        } else {
            None
        },
        None => None,
    }
}

/// Reading a scatter kind back.
pub proof fn lemma_scatter_rt(x: ScatterKind, s: Seq<u8>, i: int)
    requires
        has_at(s, i, enc_scatter(x)),
    ensures
        sp_scatter(s, i) == Some((x, i + enc_scatter(x).len())),
{
    match x {
        ScatterKind::Burst { count, step_rad, bullet_speed } => {
            lemma_has_at_split(s, i, enc_u8(0), enc_scatter_burst(count, step_rad, bullet_speed));
            lemma_u8_rt(0, s, i);
            lemma_scatter_burst_rt(count, step_rad, bullet_speed, s, i + 1);
        },
        ScatterKind::Periodic { count, interval, elapsed, bullet_speed, turn_rad } => {
            lemma_has_at_split(s, i, enc_u8(1), enc_scatter_periodic(count, interval, elapsed, bullet_speed, turn_rad));
            lemma_u8_rt(1, s, i);
            lemma_scatter_periodic_rt(count, interval, elapsed, bullet_speed, turn_rad, s, i + 1);
        },
    }
}

fn encode_scatter(o: &mut Vec<u8>, x: &ScatterKind)
    ensures
        final(o)@ == old(o)@ + enc_scatter(*x),
{
    match *x {
        ScatterKind::Burst { count, step_rad, bullet_speed } => {
            wu8(o, 0);
            write_scatter_burst(o, count, step_rad, bullet_speed);
            assert(o@ =~= old(o)@ + enc_scatter(*x));
        },
        ScatterKind::Periodic { count, interval, elapsed, bullet_speed, turn_rad } => {
            wu8(o, 1);
            write_scatter_periodic(o, count, interval, elapsed, bullet_speed, turn_rad);
            assert(o@ =~= old(o)@ + enc_scatter(*x));
        },
    }
}

fn decode_scatter(b: &[u8], p: &mut usize) -> (r: Option<ScatterKind>)
    requires
        readable(b@, *old(p)),
    ensures
        decoded(r, *old(p), *final(p), sp_scatter(b@, *old(p) as int)),
        r is Some ==> *final(p) <= b@.len(),
{
    let t = u8at(b, p)?;
    if t == 0 {
        read_scatter_burst(b, p)
    } else if t == 1 {
        read_scatter_periodic(b, p)
    } else {
        None
    }
}

/// Encoding of the fields of a rock, in order.
#[verifier::opaque]
pub open spec fn enc_kind_rock(fuse: Fix64, radius: Fix64, damage: Fix64, bomb_force: Fix64) -> Seq<u8> {
    enc_fix(fuse)
        + enc_fix(radius)
        + enc_fix(damage)
        + enc_fix(bomb_force)
}

/// Reading the fields of a rock.
#[verifier::opaque]
pub open spec fn sp_kind_rock(s: Seq<u8>, i: int) -> Option<(ProjectileKind, int)> {
    let r0 = sp_fix(s, i);
    let (fuse, q0) = r0.unwrap();
    let r1 = sp_fix(s, q0);
    let (radius, q1) = r1.unwrap();
    let r2 = sp_fix(s, q1);
    let (damage, q2) = r2.unwrap();
    let r3 = sp_fix(s, q2);
    let (bomb_force, q3) = r3.unwrap();
    if r0 is Some
        && r1 is Some
        && r2 is Some
        && r3 is Some {
        Some((ProjectileKind::Rock { fuse, radius, damage, bomb_force }, q3))
    } else {
        None
    }
}

/// Reading the fields of a rock back.
pub proof fn lemma_kind_rock_rt(fuse: Fix64, radius: Fix64, damage: Fix64, bomb_force: Fix64, s: Seq<u8>, i: int)
    requires
        has_at(s, i, enc_kind_rock(fuse, radius, damage, bomb_force)),
    ensures
        sp_kind_rock(s, i) == Some((ProjectileKind::Rock { fuse, radius, damage, bomb_force }, i + enc_kind_rock(fuse, radius, damage, bomb_force).len())),
{
    reveal(enc_kind_rock);
    reveal(sp_kind_rock);
    let e0 = enc_fix(fuse);
    let e1 = enc_fix(radius);
    let e2 = enc_fix(damage);
    let e3 = enc_fix(bomb_force);
    let a0 = e0;
    let a1 = a0 + e1;
    let a2 = a1 + e2;
    let a3 = a2 + e3;
    assert(enc_kind_rock(fuse, radius, damage, bomb_force) == a3);
    lemma_has_at_split(s, i, a2, e3);
    lemma_has_at_split(s, i, a1, e2);
    lemma_has_at_split(s, i, a0, e1);
    lemma_fix_rt(fuse, s, i);
    lemma_fix_rt(radius, s, i + a0.len());
    lemma_fix_rt(damage, s, i + a1.len());
    lemma_fix_rt(bomb_force, s, i + a2.len());
}

fn write_kind_rock(o: &mut Vec<u8>, fuse: Fix64, radius: Fix64, damage: Fix64, bomb_force: Fix64)
    ensures
        final(o)@ == old(o)@ + enc_kind_rock(fuse, radius, damage, bomb_force),
{
    wfix(o, fuse);
    let ghost acc = enc_fix(fuse);
    assert(o@ =~= old(o)@ + acc);
    wfix(o, radius);
    let ghost acc = acc + enc_fix(radius);
    assert(o@ =~= old(o)@ + acc);
    wfix(o, damage);
    let ghost acc = acc + enc_fix(damage);
    assert(o@ =~= old(o)@ + acc);
    wfix(o, bomb_force);
    let ghost acc = acc + enc_fix(bomb_force);
    assert(o@ =~= old(o)@ + acc);
    assert(acc == enc_kind_rock(fuse, radius, damage, bomb_force)) by {
        reveal(enc_kind_rock);
    }
}

fn read_kind_rock(b: &[u8], p: &mut usize) -> (r: Option<ProjectileKind>)
    requires
        readable(b@, *old(p)),
    ensures
        decoded(r, *old(p), *final(p), sp_kind_rock(b@, *old(p) as int)),
        r is Some ==> *final(p) <= b@.len(),
{
    reveal(sp_kind_rock);
    let fuse = fixat(b, p)?;
    let radius = fixat(b, p)?;
    let damage = fixat(b, p)?;
    let bomb_force = fixat(b, p)?;
    Some(ProjectileKind::Rock { fuse, radius, damage, bomb_force })
}

/// Encoding of the fields of a decoy, in order.
#[verifier::opaque]
pub open spec fn enc_kind_decoy(radius: Fix64, lifetime: Fix64) -> Seq<u8> {
    enc_fix(radius)
        + enc_fix(lifetime)
}

/// Reading the fields of a decoy.
#[verifier::opaque]
pub open spec fn sp_kind_decoy(s: Seq<u8>, i: int) -> Option<(ProjectileKind, int)> {
    let r0 = sp_fix(s, i);
    let (radius, q0) = r0.unwrap();
    let r1 = sp_fix(s, q0);
    let (lifetime, q1) = r1.unwrap();
    if r0 is Some
        && r1 is Some {
        Some((ProjectileKind::Decoy { radius, lifetime }, q1))
    } else {
        None
    }
}

/// Reading the fields of a decoy back.
pub proof fn lemma_kind_decoy_rt(radius: Fix64, lifetime: Fix64, s: Seq<u8>, i: int)
    requires
        has_at(s, i, enc_kind_decoy(radius, lifetime)),
    ensures
        sp_kind_decoy(s, i) == Some((ProjectileKind::Decoy { radius, lifetime }, i + enc_kind_decoy(radius, lifetime).len())),
{
    reveal(enc_kind_decoy);
    reveal(sp_kind_decoy);
    let e0 = enc_fix(radius);
    let e1 = enc_fix(lifetime);
    let a0 = e0;
    let a1 = a0 + e1;
    assert(enc_kind_decoy(radius, lifetime) == a1);
    lemma_has_at_split(s, i, a0, e1);
    lemma_fix_rt(radius, s, i);
    lemma_fix_rt(lifetime, s, i + a0.len());
}

fn write_kind_decoy(o: &mut Vec<u8>, radius: Fix64, lifetime: Fix64)
    ensures
        final(o)@ == old(o)@ + enc_kind_decoy(radius, lifetime),
{
    wfix(o, radius);
    let ghost acc = enc_fix(radius);
    assert(o@ =~= old(o)@ + acc);
    wfix(o, lifetime);
    let ghost acc = acc + enc_fix(lifetime);
    assert(o@ =~= old(o)@ + acc);
    assert(acc == enc_kind_decoy(radius, lifetime)) by {
        reveal(enc_kind_decoy);
    }
}

fn read_kind_decoy(b: &[u8], p: &mut usize) -> (r: Option<ProjectileKind>)
    requires
        readable(b@, *old(p)),
    ensures
        decoded(r, *old(p), *final(p), sp_kind_decoy(b@, *old(p) as int)),
        r is Some ==> *final(p) <= b@.len(),
{
    reveal(sp_kind_decoy);
    let radius = fixat(b, p)?;
    let lifetime = fixat(b, p)?;
    Some(ProjectileKind::Decoy { radius, lifetime })
}

/// Encoding of the fields of a bullet, in order.
#[verifier::opaque]
pub open spec fn enc_kind_bullet(dir: Vec2, speed: Fix64, damage: Fix64, radius: Fix64, remaining: Fix64) -> Seq<u8> {
    enc_vec(dir)
        + enc_fix(speed)
        + enc_fix(damage)
        + enc_fix(radius)
        + enc_fix(remaining)
}

/// Reading the fields of a bullet.
#[verifier::opaque]
pub open spec fn sp_kind_bullet(s: Seq<u8>, i: int) -> Option<(ProjectileKind, int)> {
    let r0 = sp_vec(s, i);
    let (dir, q0) = r0.unwrap();
    let r1 = sp_fix(s, q0);
    let (speed, q1) = r1.unwrap();
    let r2 = sp_fix(s, q1);
    let (damage, q2) = r2.unwrap();
    let r3 = sp_fix(s, q2);
    let (radius, q3) = r3.unwrap();
    let r4 = sp_fix(s, q3);
    let (remaining, q4) = r4.unwrap();
    if r0 is Some
        && r1 is Some
        && r2 is Some
        && r3 is Some
        && r4 is Some {
        Some((ProjectileKind::Bullet { dir, speed, damage, radius, remaining }, q4))
    } else {
        None
    }
}

/// Reading the fields of a bullet back.
pub proof fn lemma_kind_bullet_rt(dir: Vec2, speed: Fix64, damage: Fix64, radius: Fix64, remaining: Fix64, s: Seq<u8>, i: int)
    requires
        has_at(s, i, enc_kind_bullet(dir, speed, damage, radius, remaining)),
    ensures
        sp_kind_bullet(s, i) == Some((ProjectileKind::Bullet { dir, speed, damage, radius, remaining }, i + enc_kind_bullet(dir, speed, damage, radius, remaining).len())),
{
    reveal(enc_kind_bullet);
    reveal(sp_kind_bullet);
    let e0 = enc_vec(dir);
    let e1 = enc_fix(speed);
    let e2 = enc_fix(damage);
    let e3 = enc_fix(radius);
    let e4 = enc_fix(remaining);
    let a0 = e0;
    let a1 = a0 + e1;
    let a2 = a1 + e2;
    let a3 = a2 + e3;
    let a4 = a3 + e4;
    assert(enc_kind_bullet(dir, speed, damage, radius, remaining) == a4);
    lemma_has_at_split(s, i, a3, e4);
    lemma_has_at_split(s, i, a2, e3);
    lemma_has_at_split(s, i, a1, e2);
    lemma_has_at_split(s, i, a0, e1);
    lemma_vec_rt(dir, s, i);
    lemma_fix_rt(speed, s, i + a0.len());
    lemma_fix_rt(damage, s, i + a1.len());
    lemma_fix_rt(radius, s, i + a2.len());
    lemma_fix_rt(remaining, s, i + a3.len());
}

fn write_kind_bullet(o: &mut Vec<u8>, dir: Vec2, speed: Fix64, damage: Fix64, radius: Fix64, remaining: Fix64)
    ensures
        final(o)@ == old(o)@ + enc_kind_bullet(dir, speed, damage, radius, remaining),
{
    wvec(o, dir);
    let ghost acc = enc_vec(dir);
    assert(o@ =~= old(o)@ + acc);
    wfix(o, speed);
    let ghost acc = acc + enc_fix(speed);
    assert(o@ =~= old(o)@ + acc);
    wfix(o, damage);
    let ghost acc = acc + enc_fix(damage);
    assert(o@ =~= old(o)@ + acc);
    wfix(o, radius);
    let ghost acc = acc + enc_fix(radius);
    assert(o@ =~= old(o)@ + acc);
    wfix(o, remaining);
    let ghost acc = acc + enc_fix(remaining);
    assert(o@ =~= old(o)@ + acc);
    assert(acc == enc_kind_bullet(dir, speed, damage, radius, remaining)) by {
        reveal(enc_kind_bullet);
    }
}

fn read_kind_bullet(b: &[u8], p: &mut usize) -> (r: Option<ProjectileKind>)
    requires
        readable(b@, *old(p)),
    ensures
        decoded(r, *old(p), *final(p), sp_kind_bullet(b@, *old(p) as int)),
        r is Some ==> *final(p) <= b@.len(),
{
    reveal(sp_kind_bullet);
    let dir = vecat(b, p)?;
    let speed = fixat(b, p)?;
    let damage = fixat(b, p)?;
    let radius = fixat(b, p)?;
    let remaining = fixat(b, p)?;
    Some(ProjectileKind::Bullet { dir, speed, damage, radius, remaining })
}

/// Encoding of the fields of a missile, in order.
#[verifier::opaque]
pub open spec fn enc_kind_missile(dir: Vec2, speed: Fix64, damage: Fix64, radius: Fix64, push_power: Fix64, push_time: Fix64, remaining: Fix64) -> Seq<u8> {
    enc_vec(dir)
        + enc_fix(speed)
        + enc_fix(damage)
        + enc_fix(radius)
        + enc_fix(push_power)
        + enc_fix(push_time)
        + enc_fix(remaining)
}

/// Reading the fields of a missile.
#[verifier::opaque]
pub open spec fn sp_kind_missile(s: Seq<u8>, i: int) -> Option<(ProjectileKind, int)> {
    let r0 = sp_vec(s, i);
    let (dir, q0) = r0.unwrap();
    let r1 = sp_fix(s, q0);
    let (speed, q1) = r1.unwrap();
    let r2 = sp_fix(s, q1);
    let (damage, q2) = r2.unwrap();
    let r3 = sp_fix(s, q2);
    let (radius, q3) = r3.unwrap();
    let r4 = sp_fix(s, q3);
    let (push_power, q4) = r4.unwrap();
    let r5 = sp_fix(s, q4);
    let (push_time, q5) = r5.unwrap();
    let r6 = sp_fix(s, q5);
    let (remaining, q6) = r6.unwrap();
    if r0 is Some
        && r1 is Some
        && r2 is Some
        && r3 is Some
        && r4 is Some
        && r5 is Some
        && r6 is Some {
        Some((ProjectileKind::Missile { dir, speed, damage, radius, push_power, push_time, remaining }, q6))
    } else {
        None
    }
}

/// Reading the fields of a missile back.
pub proof fn lemma_kind_missile_rt(dir: Vec2, speed: Fix64, damage: Fix64, radius: Fix64, push_power: Fix64, push_time: Fix64, remaining: Fix64, s: Seq<u8>, i: int)
    requires
        has_at(s, i, enc_kind_missile(dir, speed, damage, radius, push_power, push_time, remaining)),
    ensures
        sp_kind_missile(s, i) == Some((ProjectileKind::Missile { dir, speed, damage, radius, push_power, push_time, remaining }, i + enc_kind_missile(dir, speed, damage, radius, push_power, push_time, remaining).len())),
{
    reveal(enc_kind_missile);
    reveal(sp_kind_missile);
    let e0 = enc_vec(dir);
    let e1 = enc_fix(speed);
    let e2 = enc_fix(damage);
    let e3 = enc_fix(radius);
    let e4 = enc_fix(push_power);
    let e5 = enc_fix(push_time);
    let e6 = enc_fix(remaining);
    let a0 = e0;
    let a1 = a0 + e1;
    let a2 = a1 + e2;
    let a3 = a2 + e3;
    let a4 = a3 + e4;
    let a5 = a4 + e5;
    let a6 = a5 + e6;
    assert(enc_kind_missile(dir, speed, damage, radius, push_power, push_time, remaining) == a6);
    lemma_has_at_split(s, i, a5, e6);
    lemma_has_at_split(s, i, a4, e5);
    lemma_has_at_split(s, i, a3, e4);
    lemma_has_at_split(s, i, a2, e3);
    lemma_has_at_split(s, i, a1, e2);
    lemma_has_at_split(s, i, a0, e1);
    lemma_vec_rt(dir, s, i);
    lemma_fix_rt(speed, s, i + a0.len());
    lemma_fix_rt(damage, s, i + a1.len());
    lemma_fix_rt(radius, s, i + a2.len());
    lemma_fix_rt(push_power, s, i + a3.len());
    lemma_fix_rt(push_time, s, i + a4.len());
    lemma_fix_rt(remaining, s, i + a5.len());
}

fn write_kind_missile(o: &mut Vec<u8>, dir: Vec2, speed: Fix64, damage: Fix64, radius: Fix64, push_power: Fix64, push_time: Fix64, remaining: Fix64)
    ensures
        final(o)@ == old(o)@ + enc_kind_missile(dir, speed, damage, radius, push_power, push_time, remaining),
{
    wvec(o, dir);
    let ghost acc = enc_vec(dir);
    assert(o@ =~= old(o)@ + acc);
    wfix(o, speed);
    let ghost acc = acc + enc_fix(speed);
    assert(o@ =~= old(o)@ + acc);
    wfix(o, damage);
    let ghost acc = acc + enc_fix(damage);
    assert(o@ =~= old(o)@ + acc);
    wfix(o, radius);
    let ghost acc = acc + enc_fix(radius);
    assert(o@ =~= old(o)@ + acc);
    wfix(o, push_power);
    let ghost acc = acc + enc_fix(push_power);
    assert(o@ =~= old(o)@ + acc);
    wfix(o, push_time);
    let ghost acc = acc + enc_fix(push_time);
    assert(o@ =~= old(o)@ + acc);
    wfix(o, remaining);
    let ghost acc = acc + enc_fix(remaining);
    assert(o@ =~= old(o)@ + acc);
    assert(acc == enc_kind_missile(dir, speed, damage, radius, push_power, push_time, remaining)) by {
        reveal(enc_kind_missile);
    }
}

fn read_kind_missile(b: &[u8], p: &mut usize) -> (r: Option<ProjectileKind>)
    requires
        readable(b@, *old(p)),
    ensures
        decoded(r, *old(p), *final(p), sp_kind_missile(b@, *old(p) as int)),
        r is Some ==> *final(p) <= b@.len(),
{
    reveal(sp_kind_missile);
    let dir = vecat(b, p)?;
    let speed = fixat(b, p)?;
    let damage = fixat(b, p)?;
    let radius = fixat(b, p)?;
    let push_power = fixat(b, p)?;
    let push_time = fixat(b, p)?;
    let remaining = fixat(b, p)?;
    Some(ProjectileKind::Missile { dir, speed, damage, radius, push_power, push_time, remaining })
}

/// Encoding of the fields of a boomerang, in order.
#[verifier::opaque]
pub open spec fn enc_kind_boomerang(vel: Vec2, accelerate: Fix64, damage: Fix64, radius: Fix64, push_power: Fix64, push_time: Fix64, life: Fix64, owner_pos: Vec2) -> Seq<u8> {
    enc_vec(vel)
        + enc_fix(accelerate)
        + enc_fix(damage)
        + enc_fix(radius)
        + enc_fix(push_power)
        + enc_fix(push_time)
        + enc_fix(life)
        + enc_vec(owner_pos)
}

/// Reading the fields of a boomerang.
#[verifier::opaque]
pub open spec fn sp_kind_boomerang(s: Seq<u8>, i: int) -> Option<(ProjectileKind, int)> {
    let r0 = sp_vec(s, i);
    let (vel, q0) = r0.unwrap();
    let r1 = sp_fix(s, q0);
    let (accelerate, q1) = r1.unwrap();
    let r2 = sp_fix(s, q1);
    let (damage, q2) = r2.unwrap();
    let r3 = sp_fix(s, q2);
    let (radius, q3) = r3.unwrap();
    let r4 = sp_fix(s, q3);
    let (push_power, q4) = r4.unwrap();
    let r5 = sp_fix(s, q4);
    let (push_time, q5) = r5.unwrap();
    let r6 = sp_fix(s, q5);
    let (life, q6) = r6.unwrap();
    let r7 = sp_vec(s, q6);
    let (owner_pos, q7) = r7.unwrap();
    if r0 is Some
        && r1 is Some
        && r2 is Some
        && r3 is Some
        && r4 is Some
        && r5 is Some
        && r6 is Some
        && r7 is Some {
        Some((ProjectileKind::Boomerang { vel, accelerate, damage, radius, push_power, push_time, life, owner_pos }, q7))
    } else {
        None
    }
}

/// Reading the fields of a boomerang back.
pub proof fn lemma_kind_boomerang_rt(vel: Vec2, accelerate: Fix64, damage: Fix64, radius: Fix64, push_power: Fix64, push_time: Fix64, life: Fix64, owner_pos: Vec2, s: Seq<u8>, i: int)
    requires
        has_at(s, i, enc_kind_boomerang(vel, accelerate, damage, radius, push_power, push_time, life, owner_pos)),
    ensures
        sp_kind_boomerang(s, i) == Some((ProjectileKind::Boomerang { vel, accelerate, damage, radius, push_power, push_time, life, owner_pos }, i + enc_kind_boomerang(vel, accelerate, damage, radius, push_power, push_time, life, owner_pos).len())),
{
    reveal(enc_kind_boomerang);
    reveal(sp_kind_boomerang);
    let e0 = enc_vec(vel);
    let e1 = enc_fix(accelerate);
    let e2 = enc_fix(damage);
    let e3 = enc_fix(radius);
    let e4 = enc_fix(push_power);
    let e5 = enc_fix(push_time);
    let e6 = enc_fix(life);
    let e7 = enc_vec(owner_pos);
    let a0 = e0;
    let a1 = a0 + e1;
    let a2 = a1 + e2;
    let a3 = a2 + e3;
    let a4 = a3 + e4;
    let a5 = a4 + e5;
    let a6 = a5 + e6;
    let a7 = a6 + e7;
    assert(enc_kind_boomerang(vel, accelerate, damage, radius, push_power, push_time, life, owner_pos) == a7);
    lemma_has_at_split(s, i, a6, e7);
    lemma_has_at_split(s, i, a5, e6);
    lemma_has_at_split(s, i, a4, e5);
    lemma_has_at_split(s, i, a3, e4);
    lemma_has_at_split(s, i, a2, e3);
    lemma_has_at_split(s, i, a1, e2);
    lemma_has_at_split(s, i, a0, e1);
    lemma_vec_rt(vel, s, i);
    lemma_fix_rt(accelerate, s, i + a0.len());
    lemma_fix_rt(damage, s, i + a1.len());
    lemma_fix_rt(radius, s, i + a2.len());
    lemma_fix_rt(push_power, s, i + a3.len());
    lemma_fix_rt(push_time, s, i + a4.len());
    lemma_fix_rt(life, s, i + a5.len());
    lemma_vec_rt(owner_pos, s, i + a6.len());
}

fn write_kind_boomerang(o: &mut Vec<u8>, vel: Vec2, accelerate: Fix64, damage: Fix64, radius: Fix64, push_power: Fix64, push_time: Fix64, life: Fix64, owner_pos: Vec2)
    ensures
        final(o)@ == old(o)@ + enc_kind_boomerang(vel, accelerate, damage, radius, push_power, push_time, life, owner_pos),
{
    wvec(o, vel);
    let ghost acc = enc_vec(vel);
    assert(o@ =~= old(o)@ + acc);
    wfix(o, accelerate);
    let ghost acc = acc + enc_fix(accelerate);
    assert(o@ =~= old(o)@ + acc);
    wfix(o, damage);
    let ghost acc = acc + enc_fix(damage);
    assert(o@ =~= old(o)@ + acc);
    wfix(o, radius);
    let ghost acc = acc + enc_fix(radius);
    assert(o@ =~= old(o)@ + acc);
    wfix(o, push_power);
    let ghost acc = acc + enc_fix(push_power);
    assert(o@ =~= old(o)@ + acc);
    wfix(o, push_time);
    let ghost acc = acc + enc_fix(push_time);
    assert(o@ =~= old(o)@ + acc);
    wfix(o, life);
    let ghost acc = acc + enc_fix(life);
    assert(o@ =~= old(o)@ + acc);
    wvec(o, owner_pos);
    let ghost acc = acc + enc_vec(owner_pos);
    assert(o@ =~= old(o)@ + acc);
    assert(acc == enc_kind_boomerang(vel, accelerate, damage, radius, push_power, push_time, life, owner_pos)) by {
        reveal(enc_kind_boomerang);
    }
}

fn read_kind_boomerang(b: &[u8], p: &mut usize) -> (r: Option<ProjectileKind>)
    requires
        readable(b@, *old(p)),
    ensures
        decoded(r, *old(p), *final(p), sp_kind_boomerang(b@, *old(p) as int)),
        r is Some ==> *final(p) <= b@.len(),
{
    reveal(sp_kind_boomerang);
    let vel = vecat(b, p)?;
    let accelerate = fixat(b, p)?;
    let damage = fixat(b, p)?;
    let radius = fixat(b, p)?;
    let push_power = fixat(b, p)?;
    let push_time = fixat(b, p)?;
    let life = fixat(b, p)?;
    let owner_pos = vecat(b, p)?;
    Some(ProjectileKind::Boomerang { vel, accelerate, damage, radius, push_power, push_time, life, owner_pos })
}

/// Encoding of the fields of a banana, in order.
#[verifier::opaque]
pub open spec fn enc_kind_banana(dir: Vec2, speed: Fix64, turn: Fix64, damage: Fix64, radius: Fix64, push_power: Fix64, push_time: Fix64, life: Fix64) -> Seq<u8> {
    enc_vec(dir)
        + enc_fix(speed)
        + enc_fix(turn)
        + enc_fix(damage)
        + enc_fix(radius)
        + enc_fix(push_power)
        + enc_fix(push_time)
        + enc_fix(life)
}

/// Reading the fields of a banana.
#[verifier::opaque]
pub open spec fn sp_kind_banana(s: Seq<u8>, i: int) -> Option<(ProjectileKind, int)> {
    let r0 = sp_vec(s, i);
    let (dir, q0) = r0.unwrap();
    let r1 = sp_fix(s, q0);
    let (speed, q1) = r1.unwrap();
    let r2 = sp_fix(s, q1);
    let (turn, q2) = r2.unwrap();
    let r3 = sp_fix(s, q2);
    let (damage, q3) = r3.unwrap();
    let r4 = sp_fix(s, q3);
    let (radius, q4) = r4.unwrap();
    let r5 = sp_fix(s, q4);
    let (push_power, q5) = r5.unwrap();
    let r6 = sp_fix(s, q5);
    let (push_time, q6) = r6.unwrap();
    let r7 = sp_fix(s, q6);
    let (life, q7) = r7.unwrap();
    if r0 is Some
        && r1 is Some
        && r2 is Some
        && r3 is Some
        && r4 is Some
        && r5 is Some
        && r6 is Some
        && r7 is Some {
        Some((ProjectileKind::Banana { dir, speed, turn, damage, radius, push_power, push_time, life }, q7))
    } else {
        None
    }
}

/// Reading the fields of a banana back.
pub proof fn lemma_kind_banana_rt(dir: Vec2, speed: Fix64, turn: Fix64, damage: Fix64, radius: Fix64, push_power: Fix64, push_time: Fix64, life: Fix64, s: Seq<u8>, i: int)
    requires
        has_at(s, i, enc_kind_banana(dir, speed, turn, damage, radius, push_power, push_time, life)),
    ensures
        sp_kind_banana(s, i) == Some((ProjectileKind::Banana { dir, speed, turn, damage, radius, push_power, push_time, life }, i + enc_kind_banana(dir, speed, turn, damage, radius, push_power, push_time, life).len())),
{
    reveal(enc_kind_banana);
    reveal(sp_kind_banana);
    let e0 = enc_vec(dir);
    let e1 = enc_fix(speed);
    let e2 = enc_fix(turn);
    let e3 = enc_fix(damage);
    let e4 = enc_fix(radius);
    let e5 = enc_fix(push_power);
    let e6 = enc_fix(push_time);
    let e7 = enc_fix(life);
    let a0 = e0;
    let a1 = a0 + e1;
    let a2 = a1 + e2;
    let a3 = a2 + e3;
    let a4 = a3 + e4;
    let a5 = a4 + e5;
    let a6 = a5 + e6;
    let a7 = a6 + e7;
    assert(enc_kind_banana(dir, speed, turn, damage, radius, push_power, push_time, life) == a7);
    lemma_has_at_split(s, i, a6, e7);
    lemma_has_at_split(s, i, a5, e6);
    lemma_has_at_split(s, i, a4, e5);
    lemma_has_at_split(s, i, a3, e4);
    lemma_has_at_split(s, i, a2, e3);
    lemma_has_at_split(s, i, a1, e2);
    lemma_has_at_split(s, i, a0, e1);
    lemma_vec_rt(dir, s, i);
    lemma_fix_rt(speed, s, i + a0.len());
    lemma_fix_rt(turn, s, i + a1.len());
    lemma_fix_rt(damage, s, i + a2.len());
    lemma_fix_rt(radius, s, i + a3.len());
    lemma_fix_rt(push_power, s, i + a4.len());
    lemma_fix_rt(push_time, s, i + a5.len());
    lemma_fix_rt(life, s, i + a6.len());
}

fn write_kind_banana(o: &mut Vec<u8>, dir: Vec2, speed: Fix64, turn: Fix64, damage: Fix64, radius: Fix64, push_power: Fix64, push_time: Fix64, life: Fix64)
    ensures
        final(o)@ == old(o)@ + enc_kind_banana(dir, speed, turn, damage, radius, push_power, push_time, life),
{
    wvec(o, dir);
    let ghost acc = enc_vec(dir);
    assert(o@ =~= old(o)@ + acc);
    wfix(o, speed);
    let ghost acc = acc + enc_fix(speed);
    assert(o@ =~= old(o)@ + acc);
    wfix(o, turn);
    let ghost acc = acc + enc_fix(turn);
    assert(o@ =~= old(o)@ + acc);
    wfix(o, damage);
    let ghost acc = acc + enc_fix(damage);
    assert(o@ =~= old(o)@ + acc);
    wfix(o, radius);
    let ghost acc = acc + enc_fix(radius);
    assert(o@ =~= old(o)@ + acc);
    wfix(o, push_power);
    let ghost acc = acc + enc_fix(push_power);
    assert(o@ =~= old(o)@ + acc);
    wfix(o, push_time);
    let ghost acc = acc + enc_fix(push_time);
    assert(o@ =~= old(o)@ + acc);
    wfix(o, life);
    let ghost acc = acc + enc_fix(life);
    assert(o@ =~= old(o)@ + acc);
    assert(acc == enc_kind_banana(dir, speed, turn, damage, radius, push_power, push_time, life)) by {
        reveal(enc_kind_banana);
    }
}

fn read_kind_banana(b: &[u8], p: &mut usize) -> (r: Option<ProjectileKind>)
    requires
        readable(b@, *old(p)),
    ensures
        decoded(r, *old(p), *final(p), sp_kind_banana(b@, *old(p) as int)),
        r is Some ==> *final(p) <= b@.len(),
{
    reveal(sp_kind_banana);
    let dir = vecat(b, p)?;
    let speed = fixat(b, p)?;
    let turn = fixat(b, p)?;
    let damage = fixat(b, p)?;
    let radius = fixat(b, p)?;
    let push_power = fixat(b, p)?;
    let push_time = fixat(b, p)?;
    let life = fixat(b, p)?;
    Some(ProjectileKind::Banana { dir, speed, turn, damage, radius, push_power, push_time, life })
}

/// Encoding of the fields of a rolling ball, in order.
#[verifier::opaque]
pub open spec fn enc_kind_rolling(dir: Vec2, speed: Fix64, damage_per_sec: Fix64, radius: Fix64, remaining: Fix64) -> Seq<u8> {
    enc_vec(dir)
        + enc_fix(speed)
        + enc_fix(damage_per_sec)
        + enc_fix(radius)
        + enc_fix(remaining)
}

/// Reading the fields of a rolling ball.
#[verifier::opaque]
pub open spec fn sp_kind_rolling(s: Seq<u8>, i: int) -> Option<(ProjectileKind, int)> {
    let r0 = sp_vec(s, i);
    let (dir, q0) = r0.unwrap();
    let r1 = sp_fix(s, q0);
    let (speed, q1) = r1.unwrap();
    let r2 = sp_fix(s, q1);
    let (damage_per_sec, q2) = r2.unwrap();
    let r3 = sp_fix(s, q2);
    let (radius, q3) = r3.unwrap();
    let r4 = sp_fix(s, q3);
    let (remaining, q4) = r4.unwrap();
    if r0 is Some
        && r1 is Some
        && r2 is Some
        && r3 is Some
        && r4 is Some {
        Some((ProjectileKind::Rolling { dir, speed, damage_per_sec, radius, remaining }, q4))
    } else {
        None
    }
}

/// Reading the fields of a rolling ball back.
pub proof fn lemma_kind_rolling_rt(dir: Vec2, speed: Fix64, damage_per_sec: Fix64, radius: Fix64, remaining: Fix64, s: Seq<u8>, i: int)
    requires
        has_at(s, i, enc_kind_rolling(dir, speed, damage_per_sec, radius, remaining)),
    ensures
        sp_kind_rolling(s, i) == Some((ProjectileKind::Rolling { dir, speed, damage_per_sec, radius, remaining }, i + enc_kind_rolling(dir, speed, damage_per_sec, radius, remaining).len())),
{
    reveal(enc_kind_rolling);
    reveal(sp_kind_rolling);
    let e0 = enc_vec(dir);
    let e1 = enc_fix(speed);
    let e2 = enc_fix(damage_per_sec);
    let e3 = enc_fix(radius);
    let e4 = enc_fix(remaining);
    let a0 = e0;
    let a1 = a0 + e1;
    let a2 = a1 + e2;
    let a3 = a2 + e3;
    let a4 = a3 + e4;
    assert(enc_kind_rolling(dir, speed, damage_per_sec, radius, remaining) == a4);
    lemma_has_at_split(s, i, a3, e4);
    lemma_has_at_split(s, i, a2, e3);
    lemma_has_at_split(s, i, a1, e2);
    lemma_has_at_split(s, i, a0, e1);
    lemma_vec_rt(dir, s, i);
    lemma_fix_rt(speed, s, i + a0.len());
    lemma_fix_rt(damage_per_sec, s, i + a1.len());
    lemma_fix_rt(radius, s, i + a2.len());
    lemma_fix_rt(remaining, s, i + a3.len());
}

fn write_kind_rolling(o: &mut Vec<u8>, dir: Vec2, speed: Fix64, damage_per_sec: Fix64, radius: Fix64, remaining: Fix64)
    ensures
        final(o)@ == old(o)@ + enc_kind_rolling(dir, speed, damage_per_sec, radius, remaining),
{
    wvec(o, dir);
    let ghost acc = enc_vec(dir);
    assert(o@ =~= old(o)@ + acc);
    wfix(o, speed);
    let ghost acc = acc + enc_fix(speed);
    assert(o@ =~= old(o)@ + acc);
    wfix(o, damage_per_sec);
    let ghost acc = acc + enc_fix(damage_per_sec);
    assert(o@ =~= old(o)@ + acc);
    wfix(o, radius);
    let ghost acc = acc + enc_fix(radius);
    assert(o@ =~= old(o)@ + acc);
    wfix(o, remaining);
    let ghost acc = acc + enc_fix(remaining);
    assert(o@ =~= old(o)@ + acc);
    assert(acc == enc_kind_rolling(dir, speed, damage_per_sec, radius, remaining)) by {
        reveal(enc_kind_rolling);
    }
}

fn read_kind_rolling(b: &[u8], p: &mut usize) -> (r: Option<ProjectileKind>)
    requires
        readable(b@, *old(p)),
    ensures
        decoded(r, *old(p), *final(p), sp_kind_rolling(b@, *old(p) as int)),
        r is Some ==> *final(p) <= b@.len(),
{
    reveal(sp_kind_rolling);
    let dir = vecat(b, p)?;
    let speed = fixat(b, p)?;
    let damage_per_sec = fixat(b, p)?;
    let radius = fixat(b, p)?;
    let remaining = fixat(b, p)?;
    Some(ProjectileKind::Rolling { dir, speed, damage_per_sec, radius, remaining })
}

/// Encoding of the fields of a scatter line, in order.
#[verifier::opaque]
pub open spec fn enc_kind_scatter_line(dir: Vec2, speed: Fix64, remaining: Fix64, scatter: ScatterKind) -> Seq<u8> {
    enc_vec(dir)
        + enc_fix(speed)
        + enc_fix(remaining)
        + enc_scatter(scatter)
}

/// Reading the fields of a scatter line.
#[verifier::opaque]
pub open spec fn sp_kind_scatter_line(s: Seq<u8>, i: int) -> Option<(ProjectileKind, int)> {
    let r0 = sp_vec(s, i);
    let (dir, q0) = r0.unwrap();
    let r1 = sp_fix(s, q0);
    let (speed, q1) = r1.unwrap();
    let r2 = sp_fix(s, q1);
    let (remaining, q2) = r2.unwrap();
    let r3 = sp_scatter(s, q2);
    let (scatter, q3) = r3.unwrap();
    if r0 is Some
        && r1 is Some
        && r2 is Some
        && r3 is Some {
        Some((ProjectileKind::ScatterLine { dir, speed, remaining, scatter }, q3))
    } else {
        None
    }
}

/// Reading the fields of a scatter line back.
pub proof fn lemma_kind_scatter_line_rt(dir: Vec2, speed: Fix64, remaining: Fix64, scatter: ScatterKind, s: Seq<u8>, i: int)
    requires
        has_at(s, i, enc_kind_scatter_line(dir, speed, remaining, scatter)),
    ensures
        sp_kind_scatter_line(s, i) == Some((ProjectileKind::ScatterLine { dir, speed, remaining, scatter }, i + enc_kind_scatter_line(dir, speed, remaining, scatter).len())),
{
    reveal(enc_kind_scatter_line);
    reveal(sp_kind_scatter_line);
    let e0 = enc_vec(dir);
    let e1 = enc_fix(speed);
    let e2 = enc_fix(remaining);
    let e3 = enc_scatter(scatter);
    let a0 = e0;
    let a1 = a0 + e1;
    let a2 = a1 + e2;
    let a3 = a2 + e3;
    assert(enc_kind_scatter_line(dir, speed, remaining, scatter) == a3);
    lemma_has_at_split(s, i, a2, e3);
    lemma_has_at_split(s, i, a1, e2);
    lemma_has_at_split(s, i, a0, e1);
    lemma_vec_rt(dir, s, i);
    lemma_fix_rt(speed, s, i + a0.len());
    lemma_fix_rt(remaining, s, i + a1.len());
    lemma_scatter_rt(scatter, s, i + a2.len());
}

fn write_kind_scatter_line(o: &mut Vec<u8>, dir: Vec2, speed: Fix64, remaining: Fix64, scatter: ScatterKind)
    ensures
        final(o)@ == old(o)@ + enc_kind_scatter_line(dir, speed, remaining, scatter),
{
    wvec(o, dir);
    let ghost acc = enc_vec(dir);
    assert(o@ =~= old(o)@ + acc);
    wfix(o, speed);
    let ghost acc = acc + enc_fix(speed);
    assert(o@ =~= old(o)@ + acc);
    wfix(o, remaining);
    let ghost acc = acc + enc_fix(remaining);
    assert(o@ =~= old(o)@ + acc);
    encode_scatter(o, &scatter);
    let ghost acc = acc + enc_scatter(scatter);
    assert(o@ =~= old(o)@ + acc);
    assert(acc == enc_kind_scatter_line(dir, speed, remaining, scatter)) by {
        reveal(enc_kind_scatter_line);
    }
}

fn read_kind_scatter_line(b: &[u8], p: &mut usize) -> (r: Option<ProjectileKind>)
    requires
        readable(b@, *old(p)),
    ensures
        decoded(r, *old(p), *final(p), sp_kind_scatter_line(b@, *old(p) as int)),
        r is Some ==> *final(p) <= b@.len(),
{
    reveal(sp_kind_scatter_line);
    let dir = vecat(b, p)?;
    let speed = fixat(b, p)?;
    let remaining = fixat(b, p)?;
    let scatter = decode_scatter(b, p)?;
    Some(ProjectileKind::ScatterLine { dir, speed, remaining, scatter })
}

/// Encoding of the fields of a beam, in order.
#[verifier::opaque]
pub open spec fn enc_kind_beam(dir: Vec2, length: Fix64, width: Fix64, damage_per_sec: Fix64, remaining: Fix64) -> Seq<u8> {
    enc_vec(dir)
        + enc_fix(length)
        + enc_fix(width)
        + enc_fix(damage_per_sec)
        + enc_fix(remaining)
}

/// Reading the fields of a beam.
#[verifier::opaque]
pub open spec fn sp_kind_beam(s: Seq<u8>, i: int) -> Option<(ProjectileKind, int)> {
    let r0 = sp_vec(s, i);
    let (dir, q0) = r0.unwrap();
    let r1 = sp_fix(s, q0);
    let (length, q1) = r1.unwrap();
    let r2 = sp_fix(s, q1);
    let (width, q2) = r2.unwrap();
    let r3 = sp_fix(s, q2);
    let (damage_per_sec, q3) = r3.unwrap();
    let r4 = sp_fix(s, q3);
    let (remaining, q4) = r4.unwrap();
    if r0 is Some
        && r1 is Some
        && r2 is Some
        && r3 is Some
        && r4 is Some {
        Some((ProjectileKind::Beam { dir, length, width, damage_per_sec, remaining }, q4))
    } else {
        None
    }
}

/// Reading the fields of a beam back.
pub proof fn lemma_kind_beam_rt(dir: Vec2, length: Fix64, width: Fix64, damage_per_sec: Fix64, remaining: Fix64, s: Seq<u8>, i: int)
    requires
        has_at(s, i, enc_kind_beam(dir, length, width, damage_per_sec, remaining)),
    ensures
        sp_kind_beam(s, i) == Some((ProjectileKind::Beam { dir, length, width, damage_per_sec, remaining }, i + enc_kind_beam(dir, length, width, damage_per_sec, remaining).len())),
{
    reveal(enc_kind_beam);
    reveal(sp_kind_beam);
    let e0 = enc_vec(dir);
    let e1 = enc_fix(length);
    let e2 = enc_fix(width);
    let e3 = enc_fix(damage_per_sec);
    let e4 = enc_fix(remaining);
    let a0 = e0;
    let a1 = a0 + e1;
    let a2 = a1 + e2;
    let a3 = a2 + e3;
    let a4 = a3 + e4;
    assert(enc_kind_beam(dir, length, width, damage_per_sec, remaining) == a4);
    lemma_has_at_split(s, i, a3, e4);
    lemma_has_at_split(s, i, a2, e3);
    lemma_has_at_split(s, i, a1, e2);
    lemma_has_at_split(s, i, a0, e1);
    lemma_vec_rt(dir, s, i);
    lemma_fix_rt(length, s, i + a0.len());
    lemma_fix_rt(width, s, i + a1.len());
    lemma_fix_rt(damage_per_sec, s, i + a2.len());
    lemma_fix_rt(remaining, s, i + a3.len());
}

fn write_kind_beam(o: &mut Vec<u8>, dir: Vec2, length: Fix64, width: Fix64, damage_per_sec: Fix64, remaining: Fix64)
    ensures
        final(o)@ == old(o)@ + enc_kind_beam(dir, length, width, damage_per_sec, remaining),
{
    wvec(o, dir);
    let ghost acc = enc_vec(dir);
    assert(o@ =~= old(o)@ + acc);
    wfix(o, length);
    let ghost acc = acc + enc_fix(length);
    assert(o@ =~= old(o)@ + acc);
    wfix(o, width);
    let ghost acc = acc + enc_fix(width);
    assert(o@ =~= old(o)@ + acc);
    wfix(o, damage_per_sec);
    let ghost acc = acc + enc_fix(damage_per_sec);
    assert(o@ =~= old(o)@ + acc);
    wfix(o, remaining);
    let ghost acc = acc + enc_fix(remaining);
    assert(o@ =~= old(o)@ + acc);
    assert(acc == enc_kind_beam(dir, length, width, damage_per_sec, remaining)) by {
        reveal(enc_kind_beam);
    }
}

fn read_kind_beam(b: &[u8], p: &mut usize) -> (r: Option<ProjectileKind>)
    requires
        readable(b@, *old(p)),
    ensures
        decoded(r, *old(p), *final(p), sp_kind_beam(b@, *old(p) as int)),
        r is Some ==> *final(p) <= b@.len(),
{
    reveal(sp_kind_beam);
    let dir = vecat(b, p)?;
    let length = fixat(b, p)?;
    let width = fixat(b, p)?;
    let damage_per_sec = fixat(b, p)?;
    let remaining = fixat(b, p)?;
    Some(ProjectileKind::Beam { dir, length, width, damage_per_sec, remaining })
}

/// Encoding of the fields of a chain, in order.
#[verifier::opaque]
pub open spec fn enc_kind_chain(dir: Vec2, speed: Fix64, damage: Fix64, heal: Fix64, ratio: Fix64, ratio_decay: Fix64, life: Fix64, last_target: u32, owner: u32, max_chain: u32, hit_count: u32, turn_delay: Fix64) -> Seq<u8> {
    enc_vec(dir)
        + enc_fix(speed)
        + enc_fix(damage)
        + enc_fix(heal)
        + enc_fix(ratio)
        + enc_fix(ratio_decay)
        + enc_fix(life)
        + enc_u32(last_target)
        + enc_u32(owner)
        + enc_u32(max_chain)
        + enc_u32(hit_count)
        + enc_fix(turn_delay)
}

/// Reading the fields of a chain.
#[verifier::opaque]
pub open spec fn sp_kind_chain(s: Seq<u8>, i: int) -> Option<(ProjectileKind, int)> {
    let r0 = sp_vec(s, i);
    let (dir, q0) = r0.unwrap();
    let r1 = sp_fix(s, q0);
    let (speed, q1) = r1.unwrap();
    let r2 = sp_fix(s, q1);
    let (damage, q2) = r2.unwrap();
    let r3 = sp_fix(s, q2);
    let (heal, q3) = r3.unwrap();
    let r4 = sp_fix(s, q3);
    let (ratio, q4) = r4.unwrap();
    let r5 = sp_fix(s, q4);
    let (ratio_decay, q5) = r5.unwrap();
    let r6 = sp_fix(s, q5);
    let (life, q6) = r6.unwrap();
    let r7 = sp_u32(s, q6);
    let (last_target, q7) = r7.unwrap();
    let r8 = sp_u32(s, q7);
    let (owner, q8) = r8.unwrap();
    let r9 = sp_u32(s, q8);
    let (max_chain, q9) = r9.unwrap();
    let r10 = sp_u32(s, q9);
    let (hit_count, q10) = r10.unwrap();
    let r11 = sp_fix(s, q10);
    let (turn_delay, q11) = r11.unwrap();
    if r0 is Some
        && r1 is Some
        && r2 is Some
        && r3 is Some
        && r4 is Some
        && r5 is Some
        && r6 is Some
        && r7 is Some
        && r8 is Some
        && r9 is Some
        && r10 is Some
        && r11 is Some {
        Some((ProjectileKind::Chain { dir, speed, damage, heal, ratio, ratio_decay, life, last_target, owner, max_chain, hit_count, turn_delay }, q11))
    } else {
        None
    }
}

/// Reading the fields of a chain back.
pub proof fn lemma_kind_chain_rt(dir: Vec2, speed: Fix64, damage: Fix64, heal: Fix64, ratio: Fix64, ratio_decay: Fix64, life: Fix64, last_target: u32, owner: u32, max_chain: u32, hit_count: u32, turn_delay: Fix64, s: Seq<u8>, i: int)
    requires
        has_at(s, i, enc_kind_chain(dir, speed, damage, heal, ratio, ratio_decay, life, last_target, owner, max_chain, hit_count, turn_delay)),
    ensures
        sp_kind_chain(s, i) == Some((ProjectileKind::Chain { dir, speed, damage, heal, ratio, ratio_decay, life, last_target, owner, max_chain, hit_count, turn_delay }, i + enc_kind_chain(dir, speed, damage, heal, ratio, ratio_decay, life, last_target, owner, max_chain, hit_count, turn_delay).len())),
{
    reveal(enc_kind_chain);
    reveal(sp_kind_chain);
    let e0 = enc_vec(dir);
    let e1 = enc_fix(speed);
    let e2 = enc_fix(damage);
    let e3 = enc_fix(heal);
    let e4 = enc_fix(ratio);
    let e5 = enc_fix(ratio_decay);
    let e6 = enc_fix(life);
    let e7 = enc_u32(last_target);
    let e8 = enc_u32(owner);
    let e9 = enc_u32(max_chain);
    let e10 = enc_u32(hit_count);
    let e11 = enc_fix(turn_delay);
    let a0 = e0;
    let a1 = a0 + e1;
    let a2 = a1 + e2;
    let a3 = a2 + e3;
    let a4 = a3 + e4;
    let a5 = a4 + e5;
    let a6 = a5 + e6;
    let a7 = a6 + e7;
    let a8 = a7 + e8;
    let a9 = a8 + e9;
    let a10 = a9 + e10;
    let a11 = a10 + e11;
    assert(enc_kind_chain(dir, speed, damage, heal, ratio, ratio_decay, life, last_target, owner, max_chain, hit_count, turn_delay) == a11);
    lemma_has_at_split(s, i, a10, e11);
    lemma_has_at_split(s, i, a9, e10);
    lemma_has_at_split(s, i, a8, e9);
    lemma_has_at_split(s, i, a7, e8);
    lemma_has_at_split(s, i, a6, e7);
    lemma_has_at_split(s, i, a5, e6);
    lemma_has_at_split(s, i, a4, e5);
    lemma_has_at_split(s, i, a3, e4);
    lemma_has_at_split(s, i, a2, e3);
    lemma_has_at_split(s, i, a1, e2);
    lemma_has_at_split(s, i, a0, e1);
    lemma_vec_rt(dir, s, i);
    lemma_fix_rt(speed, s, i + a0.len());
    lemma_fix_rt(damage, s, i + a1.len());
    lemma_fix_rt(heal, s, i + a2.len());
    lemma_fix_rt(ratio, s, i + a3.len());
    lemma_fix_rt(ratio_decay, s, i + a4.len());
    lemma_fix_rt(life, s, i + a5.len());
    lemma_u32_rt(last_target, s, i + a6.len());
    lemma_u32_rt(owner, s, i + a7.len());
    lemma_u32_rt(max_chain, s, i + a8.len());
    lemma_u32_rt(hit_count, s, i + a9.len());
    lemma_fix_rt(turn_delay, s, i + a10.len());
}

fn write_kind_chain(o: &mut Vec<u8>, dir: Vec2, speed: Fix64, damage: Fix64, heal: Fix64, ratio: Fix64, ratio_decay: Fix64, life: Fix64, last_target: u32, owner: u32, max_chain: u32, hit_count: u32, turn_delay: Fix64)
    ensures
        final(o)@ == old(o)@ + enc_kind_chain(dir, speed, damage, heal, ratio, ratio_decay, life, last_target, owner, max_chain, hit_count, turn_delay),
{
    wvec(o, dir);
    let ghost acc = enc_vec(dir);
    assert(o@ =~= old(o)@ + acc);
    wfix(o, speed);
    let ghost acc = acc + enc_fix(speed);
    assert(o@ =~= old(o)@ + acc);
    wfix(o, damage);
    let ghost acc = acc + enc_fix(damage);
    assert(o@ =~= old(o)@ + acc);
    wfix(o, heal);
    let ghost acc = acc + enc_fix(heal);
    assert(o@ =~= old(o)@ + acc);
    wfix(o, ratio);
    let ghost acc = acc + enc_fix(ratio);
    assert(o@ =~= old(o)@ + acc);
    wfix(o, ratio_decay);
    let ghost acc = acc + enc_fix(ratio_decay);
    assert(o@ =~= old(o)@ + acc);
    wfix(o, life);
    let ghost acc = acc + enc_fix(life);
    assert(o@ =~= old(o)@ + acc);
    wu32(o, last_target);
    let ghost acc = acc + enc_u32(last_target);
    assert(o@ =~= old(o)@ + acc);
    wu32(o, owner);
    let ghost acc = acc + enc_u32(owner);
    assert(o@ =~= old(o)@ + acc);
    wu32(o, max_chain);
    let ghost acc = acc + enc_u32(max_chain);
    assert(o@ =~= old(o)@ + acc);
    wu32(o, hit_count);
    let ghost acc = acc + enc_u32(hit_count);
    assert(o@ =~= old(o)@ + acc);
    wfix(o, turn_delay);
    let ghost acc = acc + enc_fix(turn_delay);
    assert(o@ =~= old(o)@ + acc);
    assert(acc == enc_kind_chain(dir, speed, damage, heal, ratio, ratio_decay, life, last_target, owner, max_chain, hit_count, turn_delay)) by {
        reveal(enc_kind_chain);
    }
}

fn read_kind_chain(b: &[u8], p: &mut usize) -> (r: Option<ProjectileKind>)
    requires
        readable(b@, *old(p)),
    ensures
        decoded(r, *old(p), *final(p), sp_kind_chain(b@, *old(p) as int)),
        r is Some ==> *final(p) <= b@.len(),
{
    reveal(sp_kind_chain);
    let dir = vecat(b, p)?;
    let speed = fixat(b, p)?;
    let damage = fixat(b, p)?;
    let heal = fixat(b, p)?;
    let ratio = fixat(b, p)?;
    let ratio_decay = fixat(b, p)?;
    let life = fixat(b, p)?;
    let last_target = u32at(b, p)?;
    let owner = u32at(b, p)?;
    let max_chain = u32at(b, p)?;
    let hit_count = u32at(b, p)?;
    let turn_delay = fixat(b, p)?;
    Some(ProjectileKind::Chain { dir, speed, damage, heal, ratio, ratio_decay, life, last_target, owner, max_chain, hit_count, turn_delay })
}

/// Encoding of the fields of a bonus bomb, in order.
#[verifier::opaque]
pub open spec fn enc_kind_bonus_bomb(dir: Vec2, speed: Fix64, damage: Fix64, radius: Fix64, push_power: Fix64, push_time: Fix64, remaining: Fix64, owner: u32) -> Seq<u8> {
    enc_vec(dir)
        + enc_fix(speed)
        + enc_fix(damage)
        + enc_fix(radius)
        + enc_fix(push_power)
        + enc_fix(push_time)
        + enc_fix(remaining)
        + enc_u32(owner)
}

/// Reading the fields of a bonus bomb.
#[verifier::opaque]
pub open spec fn sp_kind_bonus_bomb(s: Seq<u8>, i: int) -> Option<(ProjectileKind, int)> {
    let r0 = sp_vec(s, i);
    let (dir, q0) = r0.unwrap();
    let r1 = sp_fix(s, q0);
    let (speed, q1) = r1.unwrap();
    let r2 = sp_fix(s, q1);
    let (damage, q2) = r2.unwrap();
    let r3 = sp_fix(s, q2);
    let (radius, q3) = r3.unwrap();
    let r4 = sp_fix(s, q3);
    let (push_power, q4) = r4.unwrap();
    let r5 = sp_fix(s, q4);
    let (push_time, q5) = r5.unwrap();
    let r6 = sp_fix(s, q5);
    let (remaining, q6) = r6.unwrap();
    let r7 = sp_u32(s, q6);
    let (owner, q7) = r7.unwrap();
    if r0 is Some
        && r1 is Some
        && r2 is Some
        && r3 is Some
        && r4 is Some
        && r5 is Some
        && r6 is Some
        && r7 is Some {
        Some((ProjectileKind::BonusBomb { dir, speed, damage, radius, push_power, push_time, remaining, owner }, q7))
    } else {
        None
    }
}

/// Reading the fields of a bonus bomb back.
pub proof fn lemma_kind_bonus_bomb_rt(dir: Vec2, speed: Fix64, damage: Fix64, radius: Fix64, push_power: Fix64, push_time: Fix64, remaining: Fix64, owner: u32, s: Seq<u8>, i: int)
    requires
        has_at(s, i, enc_kind_bonus_bomb(dir, speed, damage, radius, push_power, push_time, remaining, owner)),
    ensures
        sp_kind_bonus_bomb(s, i) == Some((ProjectileKind::BonusBomb { dir, speed, damage, radius, push_power, push_time, remaining, owner }, i + enc_kind_bonus_bomb(dir, speed, damage, radius, push_power, push_time, remaining, owner).len())),
{
    reveal(enc_kind_bonus_bomb);
    reveal(sp_kind_bonus_bomb);
    let e0 = enc_vec(dir);
    let e1 = enc_fix(speed);
    let e2 = enc_fix(damage);
    let e3 = enc_fix(radius);
    let e4 = enc_fix(push_power);
    let e5 = enc_fix(push_time);
    let e6 = enc_fix(remaining);
    let e7 = enc_u32(owner);
    let a0 = e0;
    let a1 = a0 + e1;
    let a2 = a1 + e2;
    let a3 = a2 + e3;
    let a4 = a3 + e4;
    let a5 = a4 + e5;
    let a6 = a5 + e6;
    let a7 = a6 + e7;
    assert(enc_kind_bonus_bomb(dir, speed, damage, radius, push_power, push_time, remaining, owner) == a7);
    lemma_has_at_split(s, i, a6, e7);
    lemma_has_at_split(s, i, a5, e6);
    lemma_has_at_split(s, i, a4, e5);
    lemma_has_at_split(s, i, a3, e4);
    lemma_has_at_split(s, i, a2, e3);
    lemma_has_at_split(s, i, a1, e2);
    lemma_has_at_split(s, i, a0, e1);
    lemma_vec_rt(dir, s, i);
    lemma_fix_rt(speed, s, i + a0.len());
    lemma_fix_rt(damage, s, i + a1.len());
    lemma_fix_rt(radius, s, i + a2.len());
    lemma_fix_rt(push_power, s, i + a3.len());
    lemma_fix_rt(push_time, s, i + a4.len());
    lemma_fix_rt(remaining, s, i + a5.len());
    lemma_u32_rt(owner, s, i + a6.len());
}

fn write_kind_bonus_bomb(o: &mut Vec<u8>, dir: Vec2, speed: Fix64, damage: Fix64, radius: Fix64, push_power: Fix64, push_time: Fix64, remaining: Fix64, owner: u32)
    ensures
        final(o)@ == old(o)@ + enc_kind_bonus_bomb(dir, speed, damage, radius, push_power, push_time, remaining, owner),
{
    wvec(o, dir);
    let ghost acc = enc_vec(dir);
    assert(o@ =~= old(o)@ + acc);
    wfix(o, speed);
    let ghost acc = acc + enc_fix(speed);
    assert(o@ =~= old(o)@ + acc);
    wfix(o, damage);
    let ghost acc = acc + enc_fix(damage);
    assert(o@ =~= old(o)@ + acc);
    wfix(o, radius);
    let ghost acc = acc + enc_fix(radius);
    assert(o@ =~= old(o)@ + acc);
    wfix(o, push_power);
    let ghost acc = acc + enc_fix(push_power);
    assert(o@ =~= old(o)@ + acc);
    wfix(o, push_time);
    let ghost acc = acc + enc_fix(push_time);
    assert(o@ =~= old(o)@ + acc);
    wfix(o, remaining);
    let ghost acc = acc + enc_fix(remaining);
    assert(o@ =~= old(o)@ + acc);
    wu32(o, owner);
    let ghost acc = acc + enc_u32(owner);
    assert(o@ =~= old(o)@ + acc);
    assert(acc == enc_kind_bonus_bomb(dir, speed, damage, radius, push_power, push_time, remaining, owner)) by {
        reveal(enc_kind_bonus_bomb);
    }
}

fn read_kind_bonus_bomb(b: &[u8], p: &mut usize) -> (r: Option<ProjectileKind>)
    requires
        readable(b@, *old(p)),
    ensures
        decoded(r, *old(p), *final(p), sp_kind_bonus_bomb(b@, *old(p) as int)),
        r is Some ==> *final(p) <= b@.len(),
{
    reveal(sp_kind_bonus_bomb);
    let dir = vecat(b, p)?;
    let speed = fixat(b, p)?;
    let damage = fixat(b, p)?;
    let radius = fixat(b, p)?;
    let push_power = fixat(b, p)?;
    let push_time = fixat(b, p)?;
    let remaining = fixat(b, p)?;
    let owner = u32at(b, p)?;
    Some(ProjectileKind::BonusBomb { dir, speed, damage, radius, push_power, push_time, remaining, owner })
}

/// Encoding of the fields of a returner, in order.
#[verifier::opaque]
pub open spec fn enc_kind_returner(dir: Vec2, speed: Fix64, damage: Fix64, radius: Fix64, push_power: Fix64, push_time: Fix64, owner: u32) -> Seq<u8> {
    enc_vec(dir)
        + enc_fix(speed)
        + enc_fix(damage)
        + enc_fix(radius)
        + enc_fix(push_power)
        + enc_fix(push_time)
        + enc_u32(owner)
}

/// Reading the fields of a returner.
#[verifier::opaque]
pub open spec fn sp_kind_returner(s: Seq<u8>, i: int) -> Option<(ProjectileKind, int)> {
    let r0 = sp_vec(s, i);
    let (dir, q0) = r0.unwrap();
    let r1 = sp_fix(s, q0);
    let (speed, q1) = r1.unwrap();
    let r2 = sp_fix(s, q1);
    let (damage, q2) = r2.unwrap();
    let r3 = sp_fix(s, q2);
    let (radius, q3) = r3.unwrap();
    let r4 = sp_fix(s, q3);
    let (push_power, q4) = r4.unwrap();
    let r5 = sp_fix(s, q4);
    let (push_time, q5) = r5.unwrap();
    let r6 = sp_u32(s, q5);
    let (owner, q6) = r6.unwrap();
    if r0 is Some
        && r1 is Some
        && r2 is Some
        && r3 is Some
        && r4 is Some
        && r5 is Some
        && r6 is Some {
        Some((ProjectileKind::Returner { dir, speed, damage, radius, push_power, push_time, owner }, q6))
    } else {
        None
    }
}

/// Reading the fields of a returner back.
pub proof fn lemma_kind_returner_rt(dir: Vec2, speed: Fix64, damage: Fix64, radius: Fix64, push_power: Fix64, push_time: Fix64, owner: u32, s: Seq<u8>, i: int)
    requires
        has_at(s, i, enc_kind_returner(dir, speed, damage, radius, push_power, push_time, owner)),
    ensures
        sp_kind_returner(s, i) == Some((ProjectileKind::Returner { dir, speed, damage, radius, push_power, push_time, owner }, i + enc_kind_returner(dir, speed, damage, radius, push_power, push_time, owner).len())),
{
    reveal(enc_kind_returner);
    reveal(sp_kind_returner);
    let e0 = enc_vec(dir);
    let e1 = enc_fix(speed);
    let e2 = enc_fix(damage);
    let e3 = enc_fix(radius);
    let e4 = enc_fix(push_power);
    let e5 = enc_fix(push_time);
    let e6 = enc_u32(owner);
    let a0 = e0;
    let a1 = a0 + e1;
    let a2 = a1 + e2;
    let a3 = a2 + e3;
    let a4 = a3 + e4;
    let a5 = a4 + e5;
    let a6 = a5 + e6;
    assert(enc_kind_returner(dir, speed, damage, radius, push_power, push_time, owner) == a6);
    lemma_has_at_split(s, i, a5, e6);
    lemma_has_at_split(s, i, a4, e5);
    lemma_has_at_split(s, i, a3, e4);
    lemma_has_at_split(s, i, a2, e3);
    lemma_has_at_split(s, i, a1, e2);
    lemma_has_at_split(s, i, a0, e1);
    lemma_vec_rt(dir, s, i);
    lemma_fix_rt(speed, s, i + a0.len());
    lemma_fix_rt(damage, s, i + a1.len());
    lemma_fix_rt(radius, s, i + a2.len());
    lemma_fix_rt(push_power, s, i + a3.len());
    lemma_fix_rt(push_time, s, i + a4.len());
    lemma_u32_rt(owner, s, i + a5.len());
}

fn write_kind_returner(o: &mut Vec<u8>, dir: Vec2, speed: Fix64, damage: Fix64, radius: Fix64, push_power: Fix64, push_time: Fix64, owner: u32)
    ensures
        final(o)@ == old(o)@ + enc_kind_returner(dir, speed, damage, radius, push_power, push_time, owner),
{
    wvec(o, dir);
    let ghost acc = enc_vec(dir);
    assert(o@ =~= old(o)@ + acc);
    wfix(o, speed);
    let ghost acc = acc + enc_fix(speed);
    assert(o@ =~= old(o)@ + acc);
    wfix(o, damage);
    let ghost acc = acc + enc_fix(damage);
    assert(o@ =~= old(o)@ + acc);
    wfix(o, radius);
    let ghost acc = acc + enc_fix(radius);
    assert(o@ =~= old(o)@ + acc);
    wfix(o, push_power);
    let ghost acc = acc + enc_fix(push_power);
    assert(o@ =~= old(o)@ + acc);
    wfix(o, push_time);
    let ghost acc = acc + enc_fix(push_time);
    assert(o@ =~= old(o)@ + acc);
    wu32(o, owner);
    let ghost acc = acc + enc_u32(owner);
    assert(o@ =~= old(o)@ + acc);
    assert(acc == enc_kind_returner(dir, speed, damage, radius, push_power, push_time, owner)) by {
        reveal(enc_kind_returner);
    }
}

fn read_kind_returner(b: &[u8], p: &mut usize) -> (r: Option<ProjectileKind>)
    requires
        readable(b@, *old(p)),
    ensures
        decoded(r, *old(p), *final(p), sp_kind_returner(b@, *old(p) as int)),
        r is Some ==> *final(p) <= b@.len(),
{
    reveal(sp_kind_returner);
    let dir = vecat(b, p)?;
    let speed = fixat(b, p)?;
    let damage = fixat(b, p)?;
    let radius = fixat(b, p)?;
    let push_power = fixat(b, p)?;
    let push_time = fixat(b, p)?;
    let owner = u32at(b, p)?;
    Some(ProjectileKind::Returner { dir, speed, damage, radius, push_power, push_time, owner })
}

/// Encoding of the fields of a tether, in order.
#[verifier::opaque]
pub open spec fn enc_kind_tether(owner: u32, target: u32, damage_per_sec: Fix64, pull_speed: Fix64, remaining: Fix64, beam: bool) -> Seq<u8> {
    enc_u32(owner)
        + enc_u32(target)
        + enc_fix(damage_per_sec)
        + enc_fix(pull_speed)
        + enc_fix(remaining)
        + enc_bool(beam)
}

/// Reading the fields of a tether.
#[verifier::opaque]
pub open spec fn sp_kind_tether(s: Seq<u8>, i: int) -> Option<(ProjectileKind, int)> {
    let r0 = sp_u32(s, i);
    let (owner, q0) = r0.unwrap();
    let r1 = sp_u32(s, q0);
    let (target, q1) = r1.unwrap();
    let r2 = sp_fix(s, q1);
    let (damage_per_sec, q2) = r2.unwrap();
    let r3 = sp_fix(s, q2);
    let (pull_speed, q3) = r3.unwrap();
    let r4 = sp_fix(s, q3);
    let (remaining, q4) = r4.unwrap();
    let r5 = sp_bool(s, q4);
    let (beam, q5) = r5.unwrap();
    if r0 is Some
        && r1 is Some
        && r2 is Some
        && r3 is Some
        && r4 is Some
        && r5 is Some {
        Some((ProjectileKind::Tether { owner, target, damage_per_sec, pull_speed, remaining, beam }, q5))
    } else {
        None
    }
}

/// Reading the fields of a tether back.
pub proof fn lemma_kind_tether_rt(owner: u32, target: u32, damage_per_sec: Fix64, pull_speed: Fix64, remaining: Fix64, beam: bool, s: Seq<u8>, i: int)
    requires
        has_at(s, i, enc_kind_tether(owner, target, damage_per_sec, pull_speed, remaining, beam)),
    ensures
        sp_kind_tether(s, i) == Some((ProjectileKind::Tether { owner, target, damage_per_sec, pull_speed, remaining, beam }, i + enc_kind_tether(owner, target, damage_per_sec, pull_speed, remaining, beam).len())),
{
    reveal(enc_kind_tether);
    reveal(sp_kind_tether);
    let e0 = enc_u32(owner);
    let e1 = enc_u32(target);
    let e2 = enc_fix(damage_per_sec);
    let e3 = enc_fix(pull_speed);
    let e4 = enc_fix(remaining);
    let e5 = enc_bool(beam);
    let a0 = e0;
    let a1 = a0 + e1;
    let a2 = a1 + e2;
    let a3 = a2 + e3;
    let a4 = a3 + e4;
    let a5 = a4 + e5;
    assert(enc_kind_tether(owner, target, damage_per_sec, pull_speed, remaining, beam) == a5);
    lemma_has_at_split(s, i, a4, e5);
    lemma_has_at_split(s, i, a3, e4);
    lemma_has_at_split(s, i, a2, e3);
    lemma_has_at_split(s, i, a1, e2);
    lemma_has_at_split(s, i, a0, e1);
    lemma_u32_rt(owner, s, i);
    lemma_u32_rt(target, s, i + a0.len());
    lemma_fix_rt(damage_per_sec, s, i + a1.len());
    lemma_fix_rt(pull_speed, s, i + a2.len());
    lemma_fix_rt(remaining, s, i + a3.len());
    lemma_bool_rt(beam, s, i + a4.len());
}

fn write_kind_tether(o: &mut Vec<u8>, owner: u32, target: u32, damage_per_sec: Fix64, pull_speed: Fix64, remaining: Fix64, beam: bool)
    ensures
        final(o)@ == old(o)@ + enc_kind_tether(owner, target, damage_per_sec, pull_speed, remaining, beam),
{
    wu32(o, owner);
    let ghost acc = enc_u32(owner);
    assert(o@ =~= old(o)@ + acc);
    wu32(o, target);
    let ghost acc = acc + enc_u32(target);
    assert(o@ =~= old(o)@ + acc);
    wfix(o, damage_per_sec);
    let ghost acc = acc + enc_fix(damage_per_sec);
    assert(o@ =~= old(o)@ + acc);
    wfix(o, pull_speed);
    let ghost acc = acc + enc_fix(pull_speed);
    assert(o@ =~= old(o)@ + acc);
    wfix(o, remaining);
    let ghost acc = acc + enc_fix(remaining);
    assert(o@ =~= old(o)@ + acc);
    wbool(o, beam);
    let ghost acc = acc + enc_bool(beam);
    assert(o@ =~= old(o)@ + acc);
    assert(acc == enc_kind_tether(owner, target, damage_per_sec, pull_speed, remaining, beam)) by {
        reveal(enc_kind_tether);
    }
}

fn read_kind_tether(b: &[u8], p: &mut usize) -> (r: Option<ProjectileKind>)
    requires
        readable(b@, *old(p)),
    ensures
        decoded(r, *old(p), *final(p), sp_kind_tether(b@, *old(p) as int)),
        r is Some ==> *final(p) <= b@.len(),
{
    reveal(sp_kind_tether);
    let owner = u32at(b, p)?;
    let target = u32at(b, p)?;
    let damage_per_sec = fixat(b, p)?;
    let pull_speed = fixat(b, p)?;
    let remaining = fixat(b, p)?;
    let beam = boolat(b, p)?;
    Some(ProjectileKind::Tether { owner, target, damage_per_sec, pull_speed, remaining, beam })
}

/// Encoding of the fields of a gravity well, in order.
#[verifier::opaque]
pub open spec fn enc_kind_gravity(dir: Vec2, speed: Fix64, radius: Fix64, pull_speed: Fix64, damage_per_sec: Fix64, remaining: Fix64) -> Seq<u8> {
    enc_vec(dir)
        + enc_fix(speed)
        + enc_fix(radius)
        + enc_fix(pull_speed)
        + enc_fix(damage_per_sec)
        + enc_fix(remaining)
}

/// Reading the fields of a gravity well.
#[verifier::opaque]
pub open spec fn sp_kind_gravity(s: Seq<u8>, i: int) -> Option<(ProjectileKind, int)> {
    let r0 = sp_vec(s, i);
    let (dir, q0) = r0.unwrap();
    let r1 = sp_fix(s, q0);
    let (speed, q1) = r1.unwrap();
    let r2 = sp_fix(s, q1);
    let (radius, q2) = r2.unwrap();
    let r3 = sp_fix(s, q2);
    let (pull_speed, q3) = r3.unwrap();
    let r4 = sp_fix(s, q3);
    let (damage_per_sec, q4) = r4.unwrap();
    let r5 = sp_fix(s, q4);
    let (remaining, q5) = r5.unwrap();
    if r0 is Some
        && r1 is Some
        && r2 is Some
        && r3 is Some
        && r4 is Some
        && r5 is Some {
        Some((ProjectileKind::Gravity { dir, speed, radius, pull_speed, damage_per_sec, remaining }, q5))
    } else {
        None
    }
}

/// Reading the fields of a gravity well back.
pub proof fn lemma_kind_gravity_rt(dir: Vec2, speed: Fix64, radius: Fix64, pull_speed: Fix64, damage_per_sec: Fix64, remaining: Fix64, s: Seq<u8>, i: int)
    requires
        has_at(s, i, enc_kind_gravity(dir, speed, radius, pull_speed, damage_per_sec, remaining)),
    ensures
        sp_kind_gravity(s, i) == Some((ProjectileKind::Gravity { dir, speed, radius, pull_speed, damage_per_sec, remaining }, i + enc_kind_gravity(dir, speed, radius, pull_speed, damage_per_sec, remaining).len())),
{
    reveal(enc_kind_gravity);
    reveal(sp_kind_gravity);
    let e0 = enc_vec(dir);
    let e1 = enc_fix(speed);
    let e2 = enc_fix(radius);
    let e3 = enc_fix(pull_speed);
    let e4 = enc_fix(damage_per_sec);
    let e5 = enc_fix(remaining);
    let a0 = e0;
    let a1 = a0 + e1;
    let a2 = a1 + e2;
    let a3 = a2 + e3;
    let a4 = a3 + e4;
    let a5 = a4 + e5;
    assert(enc_kind_gravity(dir, speed, radius, pull_speed, damage_per_sec, remaining) == a5);
    lemma_has_at_split(s, i, a4, e5);
    lemma_has_at_split(s, i, a3, e4);
    lemma_has_at_split(s, i, a2, e3);
    lemma_has_at_split(s, i, a1, e2);
    lemma_has_at_split(s, i, a0, e1);
    lemma_vec_rt(dir, s, i);
    lemma_fix_rt(speed, s, i + a0.len());
    lemma_fix_rt(radius, s, i + a1.len());
    lemma_fix_rt(pull_speed, s, i + a2.len());
    lemma_fix_rt(damage_per_sec, s, i + a3.len());
    lemma_fix_rt(remaining, s, i + a4.len());
}

fn write_kind_gravity(o: &mut Vec<u8>, dir: Vec2, speed: Fix64, radius: Fix64, pull_speed: Fix64, damage_per_sec: Fix64, remaining: Fix64)
    ensures
        final(o)@ == old(o)@ + enc_kind_gravity(dir, speed, radius, pull_speed, damage_per_sec, remaining),
{
    wvec(o, dir);
    let ghost acc = enc_vec(dir);
    assert(o@ =~= old(o)@ + acc);
    wfix(o, speed);
    let ghost acc = acc + enc_fix(speed);
    assert(o@ =~= old(o)@ + acc);
    wfix(o, radius);
    let ghost acc = acc + enc_fix(radius);
    assert(o@ =~= old(o)@ + acc);
    wfix(o, pull_speed);
    let ghost acc = acc + enc_fix(pull_speed);
    assert(o@ =~= old(o)@ + acc);
    wfix(o, damage_per_sec);
    let ghost acc = acc + enc_fix(damage_per_sec);
    assert(o@ =~= old(o)@ + acc);
    wfix(o, remaining);
    let ghost acc = acc + enc_fix(remaining);
    assert(o@ =~= old(o)@ + acc);
    assert(acc == enc_kind_gravity(dir, speed, radius, pull_speed, damage_per_sec, remaining)) by {
        reveal(enc_kind_gravity);
    }
}

fn read_kind_gravity(b: &[u8], p: &mut usize) -> (r: Option<ProjectileKind>)
    requires
        readable(b@, *old(p)),
    ensures
        decoded(r, *old(p), *final(p), sp_kind_gravity(b@, *old(p) as int)),
        r is Some ==> *final(p) <= b@.len(),
{
    reveal(sp_kind_gravity);
    let dir = vecat(b, p)?;
    let speed = fixat(b, p)?;
    let radius = fixat(b, p)?;
    let pull_speed = fixat(b, p)?;
    let damage_per_sec = fixat(b, p)?;
    let remaining = fixat(b, p)?;
    Some(ProjectileKind::Gravity { dir, speed, radius, pull_speed, damage_per_sec, remaining })
}

/// Encoding of the fields of a star, in order.
#[verifier::opaque]
pub open spec fn enc_kind_star(owner: u32, radius: Fix64, damage_per_sec: Fix64, heal_per_sec: Fix64, remaining: Fix64, heal_team: bool) -> Seq<u8> {
    enc_u32(owner)
        + enc_fix(radius)
        + enc_fix(damage_per_sec)
        + enc_fix(heal_per_sec)
        + enc_fix(remaining)
        + enc_bool(heal_team)
}

/// Reading the fields of a star.
#[verifier::opaque]
pub open spec fn sp_kind_star(s: Seq<u8>, i: int) -> Option<(ProjectileKind, int)> {
    let r0 = sp_u32(s, i);
    let (owner, q0) = r0.unwrap();
    let r1 = sp_fix(s, q0);
    let (radius, q1) = r1.unwrap();
    let r2 = sp_fix(s, q1);
    let (damage_per_sec, q2) = r2.unwrap();
    let r3 = sp_fix(s, q2);
    let (heal_per_sec, q3) = r3.unwrap();
    let r4 = sp_fix(s, q3);
    let (remaining, q4) = r4.unwrap();
    let r5 = sp_bool(s, q4);
    let (heal_team, q5) = r5.unwrap();
    if r0 is Some
        && r1 is Some
        && r2 is Some
        && r3 is Some
        && r4 is Some
        && r5 is Some {
        Some((ProjectileKind::Star { owner, radius, damage_per_sec, heal_per_sec, remaining, heal_team }, q5))
    } else {
        None
    }
}

/// Reading the fields of a star back.
pub proof fn lemma_kind_star_rt(owner: u32, radius: Fix64, damage_per_sec: Fix64, heal_per_sec: Fix64, remaining: Fix64, heal_team: bool, s: Seq<u8>, i: int)
    requires
        has_at(s, i, enc_kind_star(owner, radius, damage_per_sec, heal_per_sec, remaining, heal_team)),
    ensures
        sp_kind_star(s, i) == Some((ProjectileKind::Star { owner, radius, damage_per_sec, heal_per_sec, remaining, heal_team }, i + enc_kind_star(owner, radius, damage_per_sec, heal_per_sec, remaining, heal_team).len())),
{
    reveal(enc_kind_star);
    reveal(sp_kind_star);
    let e0 = enc_u32(owner);
    let e1 = enc_fix(radius);
    let e2 = enc_fix(damage_per_sec);
    let e3 = enc_fix(heal_per_sec);
    let e4 = enc_fix(remaining);
    let e5 = enc_bool(heal_team);
    let a0 = e0;
    let a1 = a0 + e1;
    let a2 = a1 + e2;
    let a3 = a2 + e3;
    let a4 = a3 + e4;
    let a5 = a4 + e5;
    assert(enc_kind_star(owner, radius, damage_per_sec, heal_per_sec, remaining, heal_team) == a5);
    lemma_has_at_split(s, i, a4, e5);
    lemma_has_at_split(s, i, a3, e4);
    lemma_has_at_split(s, i, a2, e3);
    lemma_has_at_split(s, i, a1, e2);
    lemma_has_at_split(s, i, a0, e1);
    lemma_u32_rt(owner, s, i);
    lemma_fix_rt(radius, s, i + a0.len());
    lemma_fix_rt(damage_per_sec, s, i + a1.len());
    lemma_fix_rt(heal_per_sec, s, i + a2.len());
    lemma_fix_rt(remaining, s, i + a3.len());
    lemma_bool_rt(heal_team, s, i + a4.len());
}

fn write_kind_star(o: &mut Vec<u8>, owner: u32, radius: Fix64, damage_per_sec: Fix64, heal_per_sec: Fix64, remaining: Fix64, heal_team: bool)
    ensures
        final(o)@ == old(o)@ + enc_kind_star(owner, radius, damage_per_sec, heal_per_sec, remaining, heal_team),
{
    wu32(o, owner);
    let ghost acc = enc_u32(owner);
    assert(o@ =~= old(o)@ + acc);
    wfix(o, radius);
    let ghost acc = acc + enc_fix(radius);
    assert(o@ =~= old(o)@ + acc);
    wfix(o, damage_per_sec);
    let ghost acc = acc + enc_fix(damage_per_sec);
    assert(o@ =~= old(o)@ + acc);
    wfix(o, heal_per_sec);
    let ghost acc = acc + enc_fix(heal_per_sec);
    assert(o@ =~= old(o)@ + acc);
    wfix(o, remaining);
    let ghost acc = acc + enc_fix(remaining);
    assert(o@ =~= old(o)@ + acc);
    wbool(o, heal_team);
    let ghost acc = acc + enc_bool(heal_team);
    assert(o@ =~= old(o)@ + acc);
    assert(acc == enc_kind_star(owner, radius, damage_per_sec, heal_per_sec, remaining, heal_team)) by {
        reveal(enc_kind_star);
    }
}

fn read_kind_star(b: &[u8], p: &mut usize) -> (r: Option<ProjectileKind>)
    requires
        readable(b@, *old(p)),
    ensures
        decoded(r, *old(p), *final(p), sp_kind_star(b@, *old(p) as int)),
        r is Some ==> *final(p) <= b@.len(),
{
    reveal(sp_kind_star);
    let owner = u32at(b, p)?;
    let radius = fixat(b, p)?;
    let damage_per_sec = fixat(b, p)?;
    let heal_per_sec = fixat(b, p)?;
    let remaining = fixat(b, p)?;
    let heal_team = boolat(b, p)?;
    Some(ProjectileKind::Star { owner, radius, damage_per_sec, heal_per_sec, remaining, heal_team })
}

/// Encoding of the fields of a bind line, in order.
#[verifier::opaque]
pub open spec fn enc_kind_bind_line(dir: Vec2, speed: Fix64, count: u32, fired: u32, bind_time: Fix64, from: Vec2, end: Vec2) -> Seq<u8> {
    enc_vec(dir)
        + enc_fix(speed)
        + enc_u32(count)
        + enc_u32(fired)
        + enc_fix(bind_time)
        + enc_vec(from)
        + enc_vec(end)
}

/// Reading the fields of a bind line.
#[verifier::opaque]
pub open spec fn sp_kind_bind_line(s: Seq<u8>, i: int) -> Option<(ProjectileKind, int)> {
    let r0 = sp_vec(s, i);
    let (dir, q0) = r0.unwrap();
    let r1 = sp_fix(s, q0);
    let (speed, q1) = r1.unwrap();
    let r2 = sp_u32(s, q1);
    let (count, q2) = r2.unwrap();
    let r3 = sp_u32(s, q2);
    let (fired, q3) = r3.unwrap();
    let r4 = sp_fix(s, q3);
    let (bind_time, q4) = r4.unwrap();
    let r5 = sp_vec(s, q4);
    let (from, q5) = r5.unwrap();
    let r6 = sp_vec(s, q5);
    let (end, q6) = r6.unwrap();
    if r0 is Some
        && r1 is Some
        && r2 is Some
        && r3 is Some
        && r4 is Some
        && r5 is Some
        && r6 is Some {
        Some((ProjectileKind::BindLine { dir, speed, count, fired, bind_time, from, end }, q6))
    } else {
        None
    }
}

/// Reading the fields of a bind line back.
pub proof fn lemma_kind_bind_line_rt(dir: Vec2, speed: Fix64, count: u32, fired: u32, bind_time: Fix64, from: Vec2, end: Vec2, s: Seq<u8>, i: int)
    requires
        has_at(s, i, enc_kind_bind_line(dir, speed, count, fired, bind_time, from, end)),
    ensures
        sp_kind_bind_line(s, i) == Some((ProjectileKind::BindLine { dir, speed, count, fired, bind_time, from, end }, i + enc_kind_bind_line(dir, speed, count, fired, bind_time, from, end).len())),
{
    reveal(enc_kind_bind_line);
    reveal(sp_kind_bind_line);
    let e0 = enc_vec(dir);
    let e1 = enc_fix(speed);
    let e2 = enc_u32(count);
    let e3 = enc_u32(fired);
    let e4 = enc_fix(bind_time);
    let e5 = enc_vec(from);
    let e6 = enc_vec(end);
    let a0 = e0;
    let a1 = a0 + e1;
    let a2 = a1 + e2;
    let a3 = a2 + e3;
    let a4 = a3 + e4;
    let a5 = a4 + e5;
    let a6 = a5 + e6;
    assert(enc_kind_bind_line(dir, speed, count, fired, bind_time, from, end) == a6);
    lemma_has_at_split(s, i, a5, e6);
    lemma_has_at_split(s, i, a4, e5);
    lemma_has_at_split(s, i, a3, e4);
    lemma_has_at_split(s, i, a2, e3);
    lemma_has_at_split(s, i, a1, e2);
    lemma_has_at_split(s, i, a0, e1);
    lemma_vec_rt(dir, s, i);
    lemma_fix_rt(speed, s, i + a0.len());
    lemma_u32_rt(count, s, i + a1.len());
    lemma_u32_rt(fired, s, i + a2.len());
    lemma_fix_rt(bind_time, s, i + a3.len());
    lemma_vec_rt(from, s, i + a4.len());
    lemma_vec_rt(end, s, i + a5.len());
}

fn write_kind_bind_line(o: &mut Vec<u8>, dir: Vec2, speed: Fix64, count: u32, fired: u32, bind_time: Fix64, from: Vec2, end: Vec2)
    ensures
        final(o)@ == old(o)@ + enc_kind_bind_line(dir, speed, count, fired, bind_time, from, end),
{
    wvec(o, dir);
    let ghost acc = enc_vec(dir);
    assert(o@ =~= old(o)@ + acc);
    wfix(o, speed);
    let ghost acc = acc + enc_fix(speed);
    assert(o@ =~= old(o)@ + acc);
    wu32(o, count);
    let ghost acc = acc + enc_u32(count);
    assert(o@ =~= old(o)@ + acc);
    wu32(o, fired);
    let ghost acc = acc + enc_u32(fired);
    assert(o@ =~= old(o)@ + acc);
    wfix(o, bind_time);
    let ghost acc = acc + enc_fix(bind_time);
    assert(o@ =~= old(o)@ + acc);
    wvec(o, from);
    let ghost acc = acc + enc_vec(from);
    assert(o@ =~= old(o)@ + acc);
    wvec(o, end);
    let ghost acc = acc + enc_vec(end);
    assert(o@ =~= old(o)@ + acc);
    assert(acc == enc_kind_bind_line(dir, speed, count, fired, bind_time, from, end)) by {
        reveal(enc_kind_bind_line);
    }
}

fn read_kind_bind_line(b: &[u8], p: &mut usize) -> (r: Option<ProjectileKind>)
    requires
        readable(b@, *old(p)),
    ensures
        decoded(r, *old(p), *final(p), sp_kind_bind_line(b@, *old(p) as int)),
        r is Some ==> *final(p) <= b@.len(),
{
    reveal(sp_kind_bind_line);
    let dir = vecat(b, p)?;
    let speed = fixat(b, p)?;
    let count = u32at(b, p)?;
    let fired = u32at(b, p)?;
    let bind_time = fixat(b, p)?;
    let from = vecat(b, p)?;
    let end = vecat(b, p)?;
    Some(ProjectileKind::BindLine { dir, speed, count, fired, bind_time, from, end })
}

/// Encoding of the fields of a push bullet, in order.
#[verifier::opaque]
pub open spec fn enc_kind_push_bullet(dir: Vec2, speed: Fix64, damage: Fix64, radius: Fix64, push_power: Fix64, push_time: Fix64, remaining: Fix64) -> Seq<u8> {
    enc_vec(dir)
        + enc_fix(speed)
        + enc_fix(damage)
        + enc_fix(radius)
        + enc_fix(push_power)
        + enc_fix(push_time)
        + enc_fix(remaining)
}

/// Reading the fields of a push bullet.
#[verifier::opaque]
pub open spec fn sp_kind_push_bullet(s: Seq<u8>, i: int) -> Option<(ProjectileKind, int)> {
    let r0 = sp_vec(s, i);
    let (dir, q0) = r0.unwrap();
    let r1 = sp_fix(s, q0);
    let (speed, q1) = r1.unwrap();
    let r2 = sp_fix(s, q1);
    let (damage, q2) = r2.unwrap();
    let r3 = sp_fix(s, q2);
    let (radius, q3) = r3.unwrap();
    let r4 = sp_fix(s, q3);
    let (push_power, q4) = r4.unwrap();
    let r5 = sp_fix(s, q4);
    let (push_time, q5) = r5.unwrap();
    let r6 = sp_fix(s, q5);
    let (remaining, q6) = r6.unwrap();
    if r0 is Some
        && r1 is Some
        && r2 is Some
        && r3 is Some
        && r4 is Some
        && r5 is Some
        && r6 is Some {
        Some((ProjectileKind::PushBullet { dir, speed, damage, radius, push_power, push_time, remaining }, q6))
    } else {
        None
    }
}

/// Reading the fields of a push bullet back.
pub proof fn lemma_kind_push_bullet_rt(dir: Vec2, speed: Fix64, damage: Fix64, radius: Fix64, push_power: Fix64, push_time: Fix64, remaining: Fix64, s: Seq<u8>, i: int)
    requires
        has_at(s, i, enc_kind_push_bullet(dir, speed, damage, radius, push_power, push_time, remaining)),
    ensures
        sp_kind_push_bullet(s, i) == Some((ProjectileKind::PushBullet { dir, speed, damage, radius, push_power, push_time, remaining }, i + enc_kind_push_bullet(dir, speed, damage, radius, push_power, push_time, remaining).len())),
{
    reveal(enc_kind_push_bullet);
    reveal(sp_kind_push_bullet);
    let e0 = enc_vec(dir);
    let e1 = enc_fix(speed);
    let e2 = enc_fix(damage);
    let e3 = enc_fix(radius);
    let e4 = enc_fix(push_power);
    let e5 = enc_fix(push_time);
    let e6 = enc_fix(remaining);
    let a0 = e0;
    let a1 = a0 + e1;
    let a2 = a1 + e2;
    let a3 = a2 + e3;
    let a4 = a3 + e4;
    let a5 = a4 + e5;
    let a6 = a5 + e6;
    assert(enc_kind_push_bullet(dir, speed, damage, radius, push_power, push_time, remaining) == a6);
    lemma_has_at_split(s, i, a5, e6);
    lemma_has_at_split(s, i, a4, e5);
    lemma_has_at_split(s, i, a3, e4);
    lemma_has_at_split(s, i, a2, e3);
    lemma_has_at_split(s, i, a1, e2);
    lemma_has_at_split(s, i, a0, e1);
    lemma_vec_rt(dir, s, i);
    lemma_fix_rt(speed, s, i + a0.len());
    lemma_fix_rt(damage, s, i + a1.len());
    lemma_fix_rt(radius, s, i + a2.len());
    lemma_fix_rt(push_power, s, i + a3.len());
    lemma_fix_rt(push_time, s, i + a4.len());
    lemma_fix_rt(remaining, s, i + a5.len());
}

fn write_kind_push_bullet(o: &mut Vec<u8>, dir: Vec2, speed: Fix64, damage: Fix64, radius: Fix64, push_power: Fix64, push_time: Fix64, remaining: Fix64)
    ensures
        final(o)@ == old(o)@ + enc_kind_push_bullet(dir, speed, damage, radius, push_power, push_time, remaining),
{
    wvec(o, dir);
    let ghost acc = enc_vec(dir);
    assert(o@ =~= old(o)@ + acc);
    wfix(o, speed);
    let ghost acc = acc + enc_fix(speed);
    assert(o@ =~= old(o)@ + acc);
    wfix(o, damage);
    let ghost acc = acc + enc_fix(damage);
    assert(o@ =~= old(o)@ + acc);
    wfix(o, radius);
    let ghost acc = acc + enc_fix(radius);
    assert(o@ =~= old(o)@ + acc);
    wfix(o, push_power);
    let ghost acc = acc + enc_fix(push_power);
    assert(o@ =~= old(o)@ + acc);
    wfix(o, push_time);
    let ghost acc = acc + enc_fix(push_time);
    assert(o@ =~= old(o)@ + acc);
    wfix(o, remaining);
    let ghost acc = acc + enc_fix(remaining);
    assert(o@ =~= old(o)@ + acc);
    assert(acc == enc_kind_push_bullet(dir, speed, damage, radius, push_power, push_time, remaining)) by {
        reveal(enc_kind_push_bullet);
    }
}

fn read_kind_push_bullet(b: &[u8], p: &mut usize) -> (r: Option<ProjectileKind>)
    requires
        readable(b@, *old(p)),
    ensures
        decoded(r, *old(p), *final(p), sp_kind_push_bullet(b@, *old(p) as int)),
        r is Some ==> *final(p) <= b@.len(),
{
    reveal(sp_kind_push_bullet);
    let dir = vecat(b, p)?;
    let speed = fixat(b, p)?;
    let damage = fixat(b, p)?;
    let radius = fixat(b, p)?;
    let push_power = fixat(b, p)?;
    let push_time = fixat(b, p)?;
    let remaining = fixat(b, p)?;
    Some(ProjectileKind::PushBullet { dir, speed, damage, radius, push_power, push_time, remaining })
}

/// Encoding of the fields of a roster projectile, in order.
#[verifier::opaque]
pub open spec fn enc_kind_w098b(proj: W098bProjKind, vel: Vec2, speed: Fix64, radius: Fix64, remaining: Fix64, life: Fix64, gx: Fix64, kb_ji: Fix64, ignite: Option<Fix64>, blast: Option<Fix64>, target: Option<u32>, returning: bool, lateral: Fix64, forward_dir: Vec2, out_dist: Fix64, on_hit: W098bOnHit, debuff_dur: Fix64, burst: u8, emit_cooldown: Fix64, emit_angle: u64, pillar_bounce: bool, pillar_rest: Fix64, lightning_dmg: Fix64) -> Seq<u8> {
    enc_u8(proj_code(proj))
        + enc_vec(vel)
        + enc_fix(speed)
        + enc_fix(radius)
        + enc_fix(remaining)
        + enc_fix(life)
        + enc_fix(gx)
        + enc_fix(kb_ji)
        + enc_opt(fix_writer(), ignite)
        + enc_opt(fix_writer(), blast)
        + enc_u32(target_word(target))
        + enc_bool(returning)
        + enc_fix(lateral)
        + enc_vec(forward_dir)
        + enc_fix(out_dist)
        + enc_u8(on_hit_code(on_hit))
        + enc_fix(debuff_dur)
        + enc_u8(burst)
        + enc_fix(emit_cooldown)
        + enc_u64(emit_angle)
        + enc_bool(pillar_bounce)
        + enc_fix(pillar_rest)
        + enc_fix(lightning_dmg)
}

/// Reading the fields of a roster projectile.
#[verifier::opaque]
pub open spec fn sp_kind_w098b(s: Seq<u8>, i: int) -> Option<(ProjectileKind, int)> {
    let r0 = sp_proj_kind(s, i);
    let (proj, q0) = r0.unwrap();
    let r1 = sp_vec(s, q0);
    let (vel, q1) = r1.unwrap();
    let r2 = sp_fix(s, q1);
    let (speed, q2) = r2.unwrap();
    let r3 = sp_fix(s, q2);
    let (radius, q3) = r3.unwrap();
    let r4 = sp_fix(s, q3);
    let (remaining, q4) = r4.unwrap();
    let r5 = sp_fix(s, q4);
    let (life, q5) = r5.unwrap();
    let r6 = sp_fix(s, q5);
    let (gx, q6) = r6.unwrap();
    let r7 = sp_fix(s, q6);
    let (kb_ji, q7) = r7.unwrap();
    let r8 = sp_opt(fix_reader(), s, q7);
    let (ignite, q8) = r8.unwrap();
    let r9 = sp_opt(fix_reader(), s, q8);
    let (blast, q9) = r9.unwrap();
    let r10 = sp_target(s, q9);
    let (target, q10) = r10.unwrap();
    let r11 = sp_bool(s, q10);
    let (returning, q11) = r11.unwrap();
    let r12 = sp_fix(s, q11);
    let (lateral, q12) = r12.unwrap();
    let r13 = sp_vec(s, q12);
    let (forward_dir, q13) = r13.unwrap();
    let r14 = sp_fix(s, q13);
    let (out_dist, q14) = r14.unwrap();
    let r15 = sp_on_hit(s, q14);
    let (on_hit, q15) = r15.unwrap();
    let r16 = sp_fix(s, q15);
    let (debuff_dur, q16) = r16.unwrap();
    let r17 = sp_u8(s, q16);
    let (burst, q17) = r17.unwrap();
    let r18 = sp_fix(s, q17);
    let (emit_cooldown, q18) = r18.unwrap();
    let r19 = sp_u64(s, q18);
    let (emit_angle, q19) = r19.unwrap();
    let r20 = sp_bool(s, q19);
    let (pillar_bounce, q20) = r20.unwrap();
    let r21 = sp_fix(s, q20);
    let (pillar_rest, q21) = r21.unwrap();
    let r22 = sp_fix(s, q21);
    let (lightning_dmg, q22) = r22.unwrap();
    if r0 is Some
        && r1 is Some
        && r2 is Some
        && r3 is Some
        && r4 is Some
        && r5 is Some
        && r6 is Some
        && r7 is Some
        && r8 is Some
        && r9 is Some
        && r10 is Some
        && r11 is Some
        && r12 is Some
        && r13 is Some
        && r14 is Some
        && r15 is Some
        && r16 is Some
        && r17 is Some
        && r18 is Some
        && r19 is Some
        && r20 is Some
        && r21 is Some
        && r22 is Some {
        Some((ProjectileKind::W098b { proj, vel, speed, radius, remaining, life, gx, kb_ji, ignite, blast, target, returning, lateral, forward_dir, out_dist, on_hit, debuff_dur, burst, emit_cooldown, emit_angle, pillar_bounce, pillar_rest, lightning_dmg }, q22))
    } else {
        None
    }
}

/// Reading the fields of a roster projectile back.
#[verifier::rlimit(100)]
#[verifier::spinoff_prover]
pub proof fn lemma_kind_w098b_rt(proj: W098bProjKind, vel: Vec2, speed: Fix64, radius: Fix64, remaining: Fix64, life: Fix64, gx: Fix64, kb_ji: Fix64, ignite: Option<Fix64>, blast: Option<Fix64>, target: Option<u32>, returning: bool, lateral: Fix64, forward_dir: Vec2, out_dist: Fix64, on_hit: W098bOnHit, debuff_dur: Fix64, burst: u8, emit_cooldown: Fix64, emit_angle: u64, pillar_bounce: bool, pillar_rest: Fix64, lightning_dmg: Fix64, s: Seq<u8>, i: int)
    requires
        target != Some(0xFFFF_FFFFu32),
        has_at(s, i, enc_kind_w098b(proj, vel, speed, radius, remaining, life, gx, kb_ji, ignite, blast, target, returning, lateral, forward_dir, out_dist, on_hit, debuff_dur, burst, emit_cooldown, emit_angle, pillar_bounce, pillar_rest, lightning_dmg)),
    ensures
        sp_kind_w098b(s, i) == Some((ProjectileKind::W098b { proj, vel, speed, radius, remaining, life, gx, kb_ji, ignite, blast, target, returning, lateral, forward_dir, out_dist, on_hit, debuff_dur, burst, emit_cooldown, emit_angle, pillar_bounce, pillar_rest, lightning_dmg }, i + enc_kind_w098b(proj, vel, speed, radius, remaining, life, gx, kb_ji, ignite, blast, target, returning, lateral, forward_dir, out_dist, on_hit, debuff_dur, burst, emit_cooldown, emit_angle, pillar_bounce, pillar_rest, lightning_dmg).len())),
{
    reveal(enc_kind_w098b);
    reveal(sp_kind_w098b);
    let e0 = enc_u8(proj_code(proj));
    let e1 = enc_vec(vel);
    let e2 = enc_fix(speed);
    let e3 = enc_fix(radius);
    let e4 = enc_fix(remaining);
    let e5 = enc_fix(life);
    let e6 = enc_fix(gx);
    let e7 = enc_fix(kb_ji);
    let e8 = enc_opt(fix_writer(), ignite);
    let e9 = enc_opt(fix_writer(), blast);
    let e10 = enc_u32(target_word(target));
    let e11 = enc_bool(returning);
    let e12 = enc_fix(lateral);
    let e13 = enc_vec(forward_dir);
    let e14 = enc_fix(out_dist);
    let e15 = enc_u8(on_hit_code(on_hit));
    let e16 = enc_fix(debuff_dur);
    let e17 = enc_u8(burst);
    let e18 = enc_fix(emit_cooldown);
    let e19 = enc_u64(emit_angle);
    let e20 = enc_bool(pillar_bounce);
    let e21 = enc_fix(pillar_rest);
    let e22 = enc_fix(lightning_dmg);
    let a0 = e0;
    let a1 = a0 + e1;
    let a2 = a1 + e2;
    let a3 = a2 + e3;
    let a4 = a3 + e4;
    let a5 = a4 + e5;
    let a6 = a5 + e6;
    let a7 = a6 + e7;
    let a8 = a7 + e8;
    let a9 = a8 + e9;
    let a10 = a9 + e10;
    let a11 = a10 + e11;
    let a12 = a11 + e12;
    let a13 = a12 + e13;
    let a14 = a13 + e14;
    let a15 = a14 + e15;
    let a16 = a15 + e16;
    let a17 = a16 + e17;
    let a18 = a17 + e18;
    let a19 = a18 + e19;
    let a20 = a19 + e20;
    let a21 = a20 + e21;
    let a22 = a21 + e22;
    assert(enc_kind_w098b(proj, vel, speed, radius, remaining, life, gx, kb_ji, ignite, blast, target, returning, lateral, forward_dir, out_dist, on_hit, debuff_dur, burst, emit_cooldown, emit_angle, pillar_bounce, pillar_rest, lightning_dmg) == a22);
    lemma_has_at_split(s, i, a21, e22);
    lemma_has_at_split(s, i, a20, e21);
    lemma_has_at_split(s, i, a19, e20);
    lemma_has_at_split(s, i, a18, e19);
    lemma_has_at_split(s, i, a17, e18);
    lemma_has_at_split(s, i, a16, e17);
    lemma_has_at_split(s, i, a15, e16);
    lemma_has_at_split(s, i, a14, e15);
    lemma_has_at_split(s, i, a13, e14);
    lemma_has_at_split(s, i, a12, e13);
    lemma_has_at_split(s, i, a11, e12);
    lemma_has_at_split(s, i, a10, e11);
    lemma_has_at_split(s, i, a9, e10);
    lemma_has_at_split(s, i, a8, e9);
    lemma_has_at_split(s, i, a7, e8);
    lemma_has_at_split(s, i, a6, e7);
    lemma_has_at_split(s, i, a5, e6);
    lemma_has_at_split(s, i, a4, e5);
    lemma_has_at_split(s, i, a3, e4);
    lemma_has_at_split(s, i, a2, e3);
    lemma_has_at_split(s, i, a1, e2);
    lemma_has_at_split(s, i, a0, e1);
    lemma_fix_inverts();
    lemma_proj_kind_rt(proj, s, i);
    lemma_vec_rt(vel, s, i + a0.len());
    lemma_fix_rt(speed, s, i + a1.len());
    lemma_fix_rt(radius, s, i + a2.len());
    lemma_fix_rt(remaining, s, i + a3.len());
    lemma_fix_rt(life, s, i + a4.len());
    lemma_fix_rt(gx, s, i + a5.len());
    lemma_fix_rt(kb_ji, s, i + a6.len());
    lemma_opt_rt(fix_reader(), fix_writer(), ignite, s, i + a7.len());
    lemma_opt_rt(fix_reader(), fix_writer(), blast, s, i + a8.len());
    lemma_target_rt(target, s, i + a9.len());
    lemma_bool_rt(returning, s, i + a10.len());
    lemma_fix_rt(lateral, s, i + a11.len());
    lemma_vec_rt(forward_dir, s, i + a12.len());
    lemma_fix_rt(out_dist, s, i + a13.len());
    lemma_on_hit_rt(on_hit, s, i + a14.len());
    lemma_fix_rt(debuff_dur, s, i + a15.len());
    lemma_u8_rt(burst, s, i + a16.len());
    lemma_fix_rt(emit_cooldown, s, i + a17.len());
    lemma_u64_rt(emit_angle, s, i + a18.len());
    lemma_bool_rt(pillar_bounce, s, i + a19.len());
    lemma_fix_rt(pillar_rest, s, i + a20.len());
    lemma_fix_rt(lightning_dmg, s, i + a21.len());
}

#[verifier::rlimit(80)]
fn write_kind_w098b(o: &mut Vec<u8>, proj: W098bProjKind, vel: Vec2, speed: Fix64, radius: Fix64, remaining: Fix64, life: Fix64, gx: Fix64, kb_ji: Fix64, ignite: Option<Fix64>, blast: Option<Fix64>, target: Option<u32>, returning: bool, lateral: Fix64, forward_dir: Vec2, out_dist: Fix64, on_hit: W098bOnHit, debuff_dur: Fix64, burst: u8, emit_cooldown: Fix64, emit_angle: u64, pillar_bounce: bool, pillar_rest: Fix64, lightning_dmg: Fix64)
    ensures
        final(o)@ == old(o)@ + enc_kind_w098b(proj, vel, speed, radius, remaining, life, gx, kb_ji, ignite, blast, target, returning, lateral, forward_dir, out_dist, on_hit, debuff_dur, burst, emit_cooldown, emit_angle, pillar_bounce, pillar_rest, lightning_dmg),
{
    wu8(o, proj_code_of(proj));
    let ghost acc = enc_u8(proj_code(proj));
    assert(o@ =~= old(o)@ + acc);
    wvec(o, vel);
    let ghost acc = acc + enc_vec(vel);
    assert(o@ =~= old(o)@ + acc);
    wfix(o, speed);
    let ghost acc = acc + enc_fix(speed);
    assert(o@ =~= old(o)@ + acc);
    wfix(o, radius);
    let ghost acc = acc + enc_fix(radius);
    assert(o@ =~= old(o)@ + acc);
    wfix(o, remaining);
    let ghost acc = acc + enc_fix(remaining);
    assert(o@ =~= old(o)@ + acc);
    wfix(o, life);
    let ghost acc = acc + enc_fix(life);
    assert(o@ =~= old(o)@ + acc);
    wfix(o, gx);
    let ghost acc = acc + enc_fix(gx);
    assert(o@ =~= old(o)@ + acc);
    wfix(o, kb_ji);
    let ghost acc = acc + enc_fix(kb_ji);
    assert(o@ =~= old(o)@ + acc);
    write_opt_fix(o, ignite);
    let ghost acc = acc + enc_opt(fix_writer(), ignite);
    assert(o@ =~= old(o)@ + acc);
    write_opt_fix(o, blast);
    let ghost acc = acc + enc_opt(fix_writer(), blast);
    assert(o@ =~= old(o)@ + acc);
    wu32(o, target_word_of(target));
    let ghost acc = acc + enc_u32(target_word(target));
    assert(o@ =~= old(o)@ + acc);
    wbool(o, returning);
    let ghost acc = acc + enc_bool(returning);
    assert(o@ =~= old(o)@ + acc);
    wfix(o, lateral);
    let ghost acc = acc + enc_fix(lateral);
    assert(o@ =~= old(o)@ + acc);
    wvec(o, forward_dir);
    let ghost acc = acc + enc_vec(forward_dir);
    assert(o@ =~= old(o)@ + acc);
    wfix(o, out_dist);
    let ghost acc = acc + enc_fix(out_dist);
    assert(o@ =~= old(o)@ + acc);
    wu8(o, on_hit_code_of(on_hit));
    let ghost acc = acc + enc_u8(on_hit_code(on_hit));
    assert(o@ =~= old(o)@ + acc);
    wfix(o, debuff_dur);
    let ghost acc = acc + enc_fix(debuff_dur);
    assert(o@ =~= old(o)@ + acc);
    wu8(o, burst);
    let ghost acc = acc + enc_u8(burst);
    assert(o@ =~= old(o)@ + acc);
    wfix(o, emit_cooldown);
    let ghost acc = acc + enc_fix(emit_cooldown);
    assert(o@ =~= old(o)@ + acc);
    wu64(o, emit_angle);
    let ghost acc = acc + enc_u64(emit_angle);
    assert(o@ =~= old(o)@ + acc);
    wbool(o, pillar_bounce);
    let ghost acc = acc + enc_bool(pillar_bounce);
    assert(o@ =~= old(o)@ + acc);
    wfix(o, pillar_rest);
    let ghost acc = acc + enc_fix(pillar_rest);
    assert(o@ =~= old(o)@ + acc);
    wfix(o, lightning_dmg);
    let ghost acc = acc + enc_fix(lightning_dmg);
    assert(o@ =~= old(o)@ + acc);
    assert(acc == enc_kind_w098b(proj, vel, speed, radius, remaining, life, gx, kb_ji, ignite, blast, target, returning, lateral, forward_dir, out_dist, on_hit, debuff_dur, burst, emit_cooldown, emit_angle, pillar_bounce, pillar_rest, lightning_dmg)) by {
        reveal(enc_kind_w098b);
    }
}

fn read_kind_w098b(b: &[u8], p: &mut usize) -> (r: Option<ProjectileKind>)
    requires
        readable(b@, *old(p)),
    ensures
        decoded(r, *old(p), *final(p), sp_kind_w098b(b@, *old(p) as int)),
        r is Some ==> *final(p) <= b@.len(),
{
    reveal(sp_kind_w098b);
    let proj = read_proj_kind(b, p)?;
    let vel = vecat(b, p)?;
    let speed = fixat(b, p)?;
    let radius = fixat(b, p)?;
    let remaining = fixat(b, p)?;
    let life = fixat(b, p)?;
    let gx = fixat(b, p)?;
    let kb_ji = fixat(b, p)?;
    let ignite = read_opt_fix(b, p)?;
    let blast = read_opt_fix(b, p)?;
    let target = read_target(b, p)?;
    let returning = boolat(b, p)?;
    let lateral = fixat(b, p)?;
    let forward_dir = vecat(b, p)?;
    let out_dist = fixat(b, p)?;
    let on_hit = read_on_hit(b, p)?;
    let debuff_dur = fixat(b, p)?;
    let burst = u8at(b, p)?;
    let emit_cooldown = fixat(b, p)?;
    let emit_angle = u64at(b, p)?;
    let pillar_bounce = boolat(b, p)?;
    let pillar_rest = fixat(b, p)?;
    let lightning_dmg = fixat(b, p)?;
    Some(ProjectileKind::W098b { proj, vel, speed, radius, remaining, life, gx, kb_ji, ignite, blast, target, returning, lateral, forward_dir, out_dist, on_hit, debuff_dur, burst, emit_cooldown, emit_angle, pillar_bounce, pillar_rest, lightning_dmg })
}

/// Encoding of the fields of a clone, in order.
#[verifier::opaque]
pub open spec fn enc_kind_clone(owner: u32, offset: Vec2, fire_timer: Fix64, fire_cd: Fix64, fire_dmg: Fix64, remaining: Fix64) -> Seq<u8> {
    enc_u32(owner)
        + enc_vec(offset)
        + enc_fix(fire_timer)
        + enc_fix(fire_cd)
        + enc_fix(fire_dmg)
        + enc_fix(remaining)
}

/// Reading the fields of a clone.
#[verifier::opaque]
pub open spec fn sp_kind_clone(s: Seq<u8>, i: int) -> Option<(ProjectileKind, int)> {
    let r0 = sp_u32(s, i);
    let (owner, q0) = r0.unwrap();
    let r1 = sp_vec(s, q0);
    let (offset, q1) = r1.unwrap();
    let r2 = sp_fix(s, q1);
    let (fire_timer, q2) = r2.unwrap();
    let r3 = sp_fix(s, q2);
    let (fire_cd, q3) = r3.unwrap();
    let r4 = sp_fix(s, q3);
    let (fire_dmg, q4) = r4.unwrap();
    let r5 = sp_fix(s, q4);
    let (remaining, q5) = r5.unwrap();
    if r0 is Some
        && r1 is Some
        && r2 is Some
        && r3 is Some
        && r4 is Some
        && r5 is Some {
        Some((ProjectileKind::Clone { owner, offset, fire_timer, fire_cd, fire_dmg, remaining }, q5))
    } else {
        None
    }
}

/// Reading the fields of a clone back.
pub proof fn lemma_kind_clone_rt(owner: u32, offset: Vec2, fire_timer: Fix64, fire_cd: Fix64, fire_dmg: Fix64, remaining: Fix64, s: Seq<u8>, i: int)
    requires
        has_at(s, i, enc_kind_clone(owner, offset, fire_timer, fire_cd, fire_dmg, remaining)),
    ensures
        sp_kind_clone(s, i) == Some((ProjectileKind::Clone { owner, offset, fire_timer, fire_cd, fire_dmg, remaining }, i + enc_kind_clone(owner, offset, fire_timer, fire_cd, fire_dmg, remaining).len())),
{
    reveal(enc_kind_clone);
    reveal(sp_kind_clone);
    let e0 = enc_u32(owner);
    let e1 = enc_vec(offset);
    let e2 = enc_fix(fire_timer);
    let e3 = enc_fix(fire_cd);
    let e4 = enc_fix(fire_dmg);
    let e5 = enc_fix(remaining);
    let a0 = e0;
    let a1 = a0 + e1;
    let a2 = a1 + e2;
    let a3 = a2 + e3;
    let a4 = a3 + e4;
    let a5 = a4 + e5;
    assert(enc_kind_clone(owner, offset, fire_timer, fire_cd, fire_dmg, remaining) == a5);
    lemma_has_at_split(s, i, a4, e5);
    lemma_has_at_split(s, i, a3, e4);
    lemma_has_at_split(s, i, a2, e3);
    lemma_has_at_split(s, i, a1, e2);
    lemma_has_at_split(s, i, a0, e1);
    lemma_u32_rt(owner, s, i);
    lemma_vec_rt(offset, s, i + a0.len());
    lemma_fix_rt(fire_timer, s, i + a1.len());
    lemma_fix_rt(fire_cd, s, i + a2.len());
    lemma_fix_rt(fire_dmg, s, i + a3.len());
    lemma_fix_rt(remaining, s, i + a4.len());
}

fn write_kind_clone(o: &mut Vec<u8>, owner: u32, offset: Vec2, fire_timer: Fix64, fire_cd: Fix64, fire_dmg: Fix64, remaining: Fix64)
    ensures
        final(o)@ == old(o)@ + enc_kind_clone(owner, offset, fire_timer, fire_cd, fire_dmg, remaining),
{
    wu32(o, owner);
    let ghost acc = enc_u32(owner);
    assert(o@ =~= old(o)@ + acc);
    wvec(o, offset);
    let ghost acc = acc + enc_vec(offset);
    assert(o@ =~= old(o)@ + acc);
    wfix(o, fire_timer);
    let ghost acc = acc + enc_fix(fire_timer);
    assert(o@ =~= old(o)@ + acc);
    wfix(o, fire_cd);
    let ghost acc = acc + enc_fix(fire_cd);
    assert(o@ =~= old(o)@ + acc);
    wfix(o, fire_dmg);
    let ghost acc = acc + enc_fix(fire_dmg);
    assert(o@ =~= old(o)@ + acc);
    wfix(o, remaining);
    let ghost acc = acc + enc_fix(remaining);
    assert(o@ =~= old(o)@ + acc);
    assert(acc == enc_kind_clone(owner, offset, fire_timer, fire_cd, fire_dmg, remaining)) by {
        reveal(enc_kind_clone);
    }
}

fn read_kind_clone(b: &[u8], p: &mut usize) -> (r: Option<ProjectileKind>)
    requires
        readable(b@, *old(p)),
    ensures
        decoded(r, *old(p), *final(p), sp_kind_clone(b@, *old(p) as int)),
        r is Some ==> *final(p) <= b@.len(),
{
    reveal(sp_kind_clone);
    let owner = u32at(b, p)?;
    let offset = vecat(b, p)?;
    let fire_timer = fixat(b, p)?;
    let fire_cd = fixat(b, p)?;
    let fire_dmg = fixat(b, p)?;
    let remaining = fixat(b, p)?;
    Some(ProjectileKind::Clone { owner, offset, fire_timer, fire_cd, fire_dmg, remaining })
}

/// Encoding of the fields of a delayed blast, in order.
#[verifier::opaque]
pub open spec fn enc_kind_delayed_blast(radius: Fix64, damage: Fix64, kb_ji: Fix64, falloff_denom: Fix64, remaining: Fix64) -> Seq<u8> {
    enc_fix(radius)
        + enc_fix(damage)
        + enc_fix(kb_ji)
        + enc_fix(falloff_denom)
        + enc_fix(remaining)
}

/// Reading the fields of a delayed blast.
#[verifier::opaque]
pub open spec fn sp_kind_delayed_blast(s: Seq<u8>, i: int) -> Option<(ProjectileKind, int)> {
    let r0 = sp_fix(s, i);
    let (radius, q0) = r0.unwrap();
    let r1 = sp_fix(s, q0);
    let (damage, q1) = r1.unwrap();
    let r2 = sp_fix(s, q1);
    let (kb_ji, q2) = r2.unwrap();
    let r3 = sp_fix(s, q2);
    let (falloff_denom, q3) = r3.unwrap();
    let r4 = sp_fix(s, q3);
    let (remaining, q4) = r4.unwrap();
    if r0 is Some
        && r1 is Some
        && r2 is Some
        && r3 is Some
        && r4 is Some {
        Some((ProjectileKind::DelayedBlast { radius, damage, kb_ji, falloff_denom, remaining }, q4))
    } else {
        None
    }
}

/// Reading the fields of a delayed blast back.
pub proof fn lemma_kind_delayed_blast_rt(radius: Fix64, damage: Fix64, kb_ji: Fix64, falloff_denom: Fix64, remaining: Fix64, s: Seq<u8>, i: int)
    requires
        has_at(s, i, enc_kind_delayed_blast(radius, damage, kb_ji, falloff_denom, remaining)),
    ensures
        sp_kind_delayed_blast(s, i) == Some((ProjectileKind::DelayedBlast { radius, damage, kb_ji, falloff_denom, remaining }, i + enc_kind_delayed_blast(radius, damage, kb_ji, falloff_denom, remaining).len())),
{
    reveal(enc_kind_delayed_blast);
    reveal(sp_kind_delayed_blast);
    let e0 = enc_fix(radius);
    let e1 = enc_fix(damage);
    let e2 = enc_fix(kb_ji);
    let e3 = enc_fix(falloff_denom);
    let e4 = enc_fix(remaining);
    let a0 = e0;
    let a1 = a0 + e1;
    let a2 = a1 + e2;
    let a3 = a2 + e3;
    let a4 = a3 + e4;
    assert(enc_kind_delayed_blast(radius, damage, kb_ji, falloff_denom, remaining) == a4);
    lemma_has_at_split(s, i, a3, e4);
    lemma_has_at_split(s, i, a2, e3);
    lemma_has_at_split(s, i, a1, e2);
    lemma_has_at_split(s, i, a0, e1);
    lemma_fix_rt(radius, s, i);
    lemma_fix_rt(damage, s, i + a0.len());
    lemma_fix_rt(kb_ji, s, i + a1.len());
    lemma_fix_rt(falloff_denom, s, i + a2.len());
    lemma_fix_rt(remaining, s, i + a3.len());
}

fn write_kind_delayed_blast(o: &mut Vec<u8>, radius: Fix64, damage: Fix64, kb_ji: Fix64, falloff_denom: Fix64, remaining: Fix64)
    ensures
        final(o)@ == old(o)@ + enc_kind_delayed_blast(radius, damage, kb_ji, falloff_denom, remaining),
{
    wfix(o, radius);
    let ghost acc = enc_fix(radius);
    assert(o@ =~= old(o)@ + acc);
    wfix(o, damage);
    let ghost acc = acc + enc_fix(damage);
    assert(o@ =~= old(o)@ + acc);
    wfix(o, kb_ji);
    let ghost acc = acc + enc_fix(kb_ji);
    assert(o@ =~= old(o)@ + acc);
    wfix(o, falloff_denom);
    let ghost acc = acc + enc_fix(falloff_denom);
    assert(o@ =~= old(o)@ + acc);
    wfix(o, remaining);
    let ghost acc = acc + enc_fix(remaining);
    assert(o@ =~= old(o)@ + acc);
    assert(acc == enc_kind_delayed_blast(radius, damage, kb_ji, falloff_denom, remaining)) by {
        reveal(enc_kind_delayed_blast);
    }
}

fn read_kind_delayed_blast(b: &[u8], p: &mut usize) -> (r: Option<ProjectileKind>)
    requires
        readable(b@, *old(p)),
    ensures
        decoded(r, *old(p), *final(p), sp_kind_delayed_blast(b@, *old(p) as int)),
        r is Some ==> *final(p) <= b@.len(),
{
    reveal(sp_kind_delayed_blast);
    let radius = fixat(b, p)?;
    let damage = fixat(b, p)?;
    let kb_ji = fixat(b, p)?;
    let falloff_denom = fixat(b, p)?;
    let remaining = fixat(b, p)?;
    Some(ProjectileKind::DelayedBlast { radius, damage, kb_ji, falloff_denom, remaining })
}

/// Encoding of a projectile kind: the tag byte, then the fields of the variant.
pub open spec fn enc_kind(x: ProjectileKind) -> Seq<u8> {
    match x {
        ProjectileKind::Rock { fuse, radius, damage, bomb_force } => enc_u8(0) + enc_kind_rock(fuse, radius, damage, bomb_force),
        ProjectileKind::Decoy { radius, lifetime } => enc_u8(1) + enc_kind_decoy(radius, lifetime),
        ProjectileKind::Bullet { dir, speed, damage, radius, remaining } => enc_u8(2) + enc_kind_bullet(dir, speed, damage, radius, remaining),
        ProjectileKind::Missile { dir, speed, damage, radius, push_power, push_time, remaining } => enc_u8(3) + enc_kind_missile(dir, speed, damage, radius, push_power, push_time, remaining),
        ProjectileKind::Boomerang { vel, accelerate, damage, radius, push_power, push_time, life, owner_pos } => enc_u8(4) + enc_kind_boomerang(vel, accelerate, damage, radius, push_power, push_time, life, owner_pos),
        ProjectileKind::Banana { dir, speed, turn, damage, radius, push_power, push_time, life } => enc_u8(5) + enc_kind_banana(dir, speed, turn, damage, radius, push_power, push_time, life),
        ProjectileKind::Rolling { dir, speed, damage_per_sec, radius, remaining } => enc_u8(6) + enc_kind_rolling(dir, speed, damage_per_sec, radius, remaining),
        ProjectileKind::ScatterLine { dir, speed, remaining, scatter } => enc_u8(7) + enc_kind_scatter_line(dir, speed, remaining, scatter),
        ProjectileKind::Beam { dir, length, width, damage_per_sec, remaining } => enc_u8(8) + enc_kind_beam(dir, length, width, damage_per_sec, remaining),
        ProjectileKind::Chain { dir, speed, damage, heal, ratio, ratio_decay, life, last_target, owner, max_chain, hit_count, turn_delay } => enc_u8(9) + enc_kind_chain(dir, speed, damage, heal, ratio, ratio_decay, life, last_target, owner, max_chain, hit_count, turn_delay),
        ProjectileKind::BonusBomb { dir, speed, damage, radius, push_power, push_time, remaining, owner } => enc_u8(10) + enc_kind_bonus_bomb(dir, speed, damage, radius, push_power, push_time, remaining, owner),
        ProjectileKind::Returner { dir, speed, damage, radius, push_power, push_time, owner } => enc_u8(11) + enc_kind_returner(dir, speed, damage, radius, push_power, push_time, owner),
        ProjectileKind::Tether { owner, target, damage_per_sec, pull_speed, remaining, beam } => enc_u8(12) + enc_kind_tether(owner, target, damage_per_sec, pull_speed, remaining, beam),
        ProjectileKind::Gravity { dir, speed, radius, pull_speed, damage_per_sec, remaining } => enc_u8(13) + enc_kind_gravity(dir, speed, radius, pull_speed, damage_per_sec, remaining),
        ProjectileKind::Star { owner, radius, damage_per_sec, heal_per_sec, remaining, heal_team } => enc_u8(14) + enc_kind_star(owner, radius, damage_per_sec, heal_per_sec, remaining, heal_team),
        ProjectileKind::BindLine { dir, speed, count, fired, bind_time, from, end } => enc_u8(15) + enc_kind_bind_line(dir, speed, count, fired, bind_time, from, end),
        ProjectileKind::PushBullet { dir, speed, damage, radius, push_power, push_time, remaining } => enc_u8(16) + enc_kind_push_bullet(dir, speed, damage, radius, push_power, push_time, remaining),
        ProjectileKind::W098b { proj, vel, speed, radius, remaining, life, gx, kb_ji, ignite, blast, target, returning, lateral, forward_dir, out_dist, on_hit, debuff_dur, burst, emit_cooldown, emit_angle, pillar_bounce, pillar_rest, lightning_dmg } => enc_u8(17) + enc_kind_w098b(proj, vel, speed, radius, remaining, life, gx, kb_ji, ignite, blast, target, returning, lateral, forward_dir, out_dist, on_hit, debuff_dur, burst, emit_cooldown, emit_angle, pillar_bounce, pillar_rest, lightning_dmg),
        ProjectileKind::Clone { owner, offset, fire_timer, fire_cd, fire_dmg, remaining } => enc_u8(18) + enc_kind_clone(owner, offset, fire_timer, fire_cd, fire_dmg, remaining),
        ProjectileKind::DelayedBlast { radius, damage, kb_ji, falloff_denom, remaining } => enc_u8(19) + enc_kind_delayed_blast(radius, damage, kb_ji, falloff_denom, remaining),
    }
}

/// Whether a projectile kind can be written so that it reads back.
pub open spec fn wf_kind(x: ProjectileKind) -> bool {
    match x {
        ProjectileKind::W098b { target, .. } => target != Some(0xFFFF_FFFFu32),
        _ => true,
    }
}

/// Reading a projectile kind: an unknown tag is refused.
pub open spec fn sp_kind(s: Seq<u8>, i: int) -> Option<(ProjectileKind, int)> {
    match sp_u8(s, i) {
        Some((t, j)) => if t == 0 {
            sp_kind_rock(s, j)
        } else if t == 1 {
            sp_kind_decoy(s, j)
        } else if t == 2 {
            sp_kind_bullet(s, j)
        } else if t == 3 {
            sp_kind_missile(s, j)
        } else if t == 4 {
            sp_kind_boomerang(s, j)
        } else if t == 5 {
            sp_kind_banana(s, j)
        } else if t == 6 {
            sp_kind_rolling(s, j)
        } else if t == 7 {
            sp_kind_scatter_line(s, j)
        } else if t == 8 {
            sp_kind_beam(s, j)
        } else if t == 9 {
            sp_kind_chain(s, j)
        } else if t == 10 {
            sp_kind_bonus_bomb(s, j)
        } else if t == 11 {
            sp_kind_returner(s, j)
        } else if t == 12 {
            sp_kind_tether(s, j)
        } else if t == 13 {
            sp_kind_gravity(s, j)
        } else if t == 14 {
            sp_kind_star(s, j)
        } else if t == 15 {
            sp_kind_bind_line(s, j)
        } else if t == 16 {
            sp_kind_push_bullet(s, j)
        } else if t == 17 {
            sp_kind_w098b(s, j)
        } else if t == 18 {
            sp_kind_clone(s, j)
        } else if t == 19 {
            sp_kind_delayed_blast(s, j)
        } else {
            None
        },
        None => None,
    }
}

/// Reading a projectile kind back.
pub proof fn lemma_kind_rt(x: ProjectileKind, s: Seq<u8>, i: int)
    requires
        wf_kind(x),
        has_at(s, i, enc_kind(x)),
    ensures
        sp_kind(s, i) == Some((x, i + enc_kind(x).len())),
{
    match x {
        ProjectileKind::Rock { fuse, radius, damage, bomb_force } => {
            lemma_has_at_split(s, i, enc_u8(0), enc_kind_rock(fuse, radius, damage, bomb_force));
            lemma_u8_rt(0, s, i);
            lemma_kind_rock_rt(fuse, radius, damage, bomb_force, s, i + 1);
        },
        ProjectileKind::Decoy { radius, lifetime } => {
            lemma_has_at_split(s, i, enc_u8(1), enc_kind_decoy(radius, lifetime));
            lemma_u8_rt(1, s, i);
            lemma_kind_decoy_rt(radius, lifetime, s, i + 1);
        },
        ProjectileKind::Bullet { dir, speed, damage, radius, remaining } => {
            lemma_has_at_split(s, i, enc_u8(2), enc_kind_bullet(dir, speed, damage, radius, remaining));
            lemma_u8_rt(2, s, i);
            lemma_kind_bullet_rt(dir, speed, damage, radius, remaining, s, i + 1);
        },
        ProjectileKind::Missile { dir, speed, damage, radius, push_power, push_time, remaining } => {
            lemma_has_at_split(s, i, enc_u8(3), enc_kind_missile(dir, speed, damage, radius, push_power, push_time, remaining));
            lemma_u8_rt(3, s, i);
            lemma_kind_missile_rt(dir, speed, damage, radius, push_power, push_time, remaining, s, i + 1);
        },
        ProjectileKind::Boomerang { vel, accelerate, damage, radius, push_power, push_time, life, owner_pos } => {
            lemma_has_at_split(s, i, enc_u8(4), enc_kind_boomerang(vel, accelerate, damage, radius, push_power, push_time, life, owner_pos));
            lemma_u8_rt(4, s, i);
            lemma_kind_boomerang_rt(vel, accelerate, damage, radius, push_power, push_time, life, owner_pos, s, i + 1);
        },
        ProjectileKind::Banana { dir, speed, turn, damage, radius, push_power, push_time, life } => {
            lemma_has_at_split(s, i, enc_u8(5), enc_kind_banana(dir, speed, turn, damage, radius, push_power, push_time, life));
            lemma_u8_rt(5, s, i);
            lemma_kind_banana_rt(dir, speed, turn, damage, radius, push_power, push_time, life, s, i + 1);
        },
        ProjectileKind::Rolling { dir, speed, damage_per_sec, radius, remaining } => {
            lemma_has_at_split(s, i, enc_u8(6), enc_kind_rolling(dir, speed, damage_per_sec, radius, remaining));
            lemma_u8_rt(6, s, i);
            lemma_kind_rolling_rt(dir, speed, damage_per_sec, radius, remaining, s, i + 1);
        },
        ProjectileKind::ScatterLine { dir, speed, remaining, scatter } => {
            lemma_has_at_split(s, i, enc_u8(7), enc_kind_scatter_line(dir, speed, remaining, scatter));
            lemma_u8_rt(7, s, i);
            lemma_kind_scatter_line_rt(dir, speed, remaining, scatter, s, i + 1);
        },
        ProjectileKind::Beam { dir, length, width, damage_per_sec, remaining } => {
            lemma_has_at_split(s, i, enc_u8(8), enc_kind_beam(dir, length, width, damage_per_sec, remaining));
            lemma_u8_rt(8, s, i);
            lemma_kind_beam_rt(dir, length, width, damage_per_sec, remaining, s, i + 1);
        },
        ProjectileKind::Chain { dir, speed, damage, heal, ratio, ratio_decay, life, last_target, owner, max_chain, hit_count, turn_delay } => {
            lemma_has_at_split(s, i, enc_u8(9), enc_kind_chain(dir, speed, damage, heal, ratio, ratio_decay, life, last_target, owner, max_chain, hit_count, turn_delay));
            lemma_u8_rt(9, s, i);
            lemma_kind_chain_rt(dir, speed, damage, heal, ratio, ratio_decay, life, last_target, owner, max_chain, hit_count, turn_delay, s, i + 1);
        },
        ProjectileKind::BonusBomb { dir, speed, damage, radius, push_power, push_time, remaining, owner } => {
            lemma_has_at_split(s, i, enc_u8(10), enc_kind_bonus_bomb(dir, speed, damage, radius, push_power, push_time, remaining, owner));
            lemma_u8_rt(10, s, i);
            lemma_kind_bonus_bomb_rt(dir, speed, damage, radius, push_power, push_time, remaining, owner, s, i + 1);
        },
        ProjectileKind::Returner { dir, speed, damage, radius, push_power, push_time, owner } => {
            lemma_has_at_split(s, i, enc_u8(11), enc_kind_returner(dir, speed, damage, radius, push_power, push_time, owner));
            lemma_u8_rt(11, s, i);
            lemma_kind_returner_rt(dir, speed, damage, radius, push_power, push_time, owner, s, i + 1);
        },
        ProjectileKind::Tether { owner, target, damage_per_sec, pull_speed, remaining, beam } => {
            lemma_has_at_split(s, i, enc_u8(12), enc_kind_tether(owner, target, damage_per_sec, pull_speed, remaining, beam));
            lemma_u8_rt(12, s, i);
            lemma_kind_tether_rt(owner, target, damage_per_sec, pull_speed, remaining, beam, s, i + 1);
        },
        ProjectileKind::Gravity { dir, speed, radius, pull_speed, damage_per_sec, remaining } => {
            lemma_has_at_split(s, i, enc_u8(13), enc_kind_gravity(dir, speed, radius, pull_speed, damage_per_sec, remaining));
            lemma_u8_rt(13, s, i);
            lemma_kind_gravity_rt(dir, speed, radius, pull_speed, damage_per_sec, remaining, s, i + 1);
        },
        ProjectileKind::Star { owner, radius, damage_per_sec, heal_per_sec, remaining, heal_team } => {
            lemma_has_at_split(s, i, enc_u8(14), enc_kind_star(owner, radius, damage_per_sec, heal_per_sec, remaining, heal_team));
            lemma_u8_rt(14, s, i);
            lemma_kind_star_rt(owner, radius, damage_per_sec, heal_per_sec, remaining, heal_team, s, i + 1);
        },
        ProjectileKind::BindLine { dir, speed, count, fired, bind_time, from, end } => {
            lemma_has_at_split(s, i, enc_u8(15), enc_kind_bind_line(dir, speed, count, fired, bind_time, from, end));
            lemma_u8_rt(15, s, i);
            lemma_kind_bind_line_rt(dir, speed, count, fired, bind_time, from, end, s, i + 1);
        },
        ProjectileKind::PushBullet { dir, speed, damage, radius, push_power, push_time, remaining } => {
            lemma_has_at_split(s, i, enc_u8(16), enc_kind_push_bullet(dir, speed, damage, radius, push_power, push_time, remaining));
            lemma_u8_rt(16, s, i);
            lemma_kind_push_bullet_rt(dir, speed, damage, radius, push_power, push_time, remaining, s, i + 1);
        },
        ProjectileKind::W098b { proj, vel, speed, radius, remaining, life, gx, kb_ji, ignite, blast, target, returning, lateral, forward_dir, out_dist, on_hit, debuff_dur, burst, emit_cooldown, emit_angle, pillar_bounce, pillar_rest, lightning_dmg } => {
            lemma_has_at_split(s, i, enc_u8(17), enc_kind_w098b(proj, vel, speed, radius, remaining, life, gx, kb_ji, ignite, blast, target, returning, lateral, forward_dir, out_dist, on_hit, debuff_dur, burst, emit_cooldown, emit_angle, pillar_bounce, pillar_rest, lightning_dmg));
            lemma_u8_rt(17, s, i);
            lemma_kind_w098b_rt(proj, vel, speed, radius, remaining, life, gx, kb_ji, ignite, blast, target, returning, lateral, forward_dir, out_dist, on_hit, debuff_dur, burst, emit_cooldown, emit_angle, pillar_bounce, pillar_rest, lightning_dmg, s, i + 1);
        },
        ProjectileKind::Clone { owner, offset, fire_timer, fire_cd, fire_dmg, remaining } => {
            lemma_has_at_split(s, i, enc_u8(18), enc_kind_clone(owner, offset, fire_timer, fire_cd, fire_dmg, remaining));
            lemma_u8_rt(18, s, i);
            lemma_kind_clone_rt(owner, offset, fire_timer, fire_cd, fire_dmg, remaining, s, i + 1);
        },
        ProjectileKind::DelayedBlast { radius, damage, kb_ji, falloff_denom, remaining } => {
            lemma_has_at_split(s, i, enc_u8(19), enc_kind_delayed_blast(radius, damage, kb_ji, falloff_denom, remaining));
            lemma_u8_rt(19, s, i);
            lemma_kind_delayed_blast_rt(radius, damage, kb_ji, falloff_denom, remaining, s, i + 1);
        },
    }
}

fn encode_kind(o: &mut Vec<u8>, x: &ProjectileKind)
    ensures
        final(o)@ == old(o)@ + enc_kind(*x),
{
    match *x {
        ProjectileKind::Rock { fuse, radius, damage, bomb_force } => {
            wu8(o, 0);
            write_kind_rock(o, fuse, radius, damage, bomb_force);
            assert(o@ =~= old(o)@ + enc_kind(*x));
        },
        ProjectileKind::Decoy { radius, lifetime } => {
            wu8(o, 1);
            write_kind_decoy(o, radius, lifetime);
            assert(o@ =~= old(o)@ + enc_kind(*x));
        },
        ProjectileKind::Bullet { dir, speed, damage, radius, remaining } => {
            wu8(o, 2);
            write_kind_bullet(o, dir, speed, damage, radius, remaining);
            assert(o@ =~= old(o)@ + enc_kind(*x));
        },
        ProjectileKind::Missile { dir, speed, damage, radius, push_power, push_time, remaining } => {
            wu8(o, 3);
            write_kind_missile(o, dir, speed, damage, radius, push_power, push_time, remaining);
            assert(o@ =~= old(o)@ + enc_kind(*x));
        },
        ProjectileKind::Boomerang { vel, accelerate, damage, radius, push_power, push_time, life, owner_pos } => {
            wu8(o, 4);
            write_kind_boomerang(o, vel, accelerate, damage, radius, push_power, push_time, life, owner_pos);
            assert(o@ =~= old(o)@ + enc_kind(*x));
        },
        ProjectileKind::Banana { dir, speed, turn, damage, radius, push_power, push_time, life } => {
            wu8(o, 5);
            write_kind_banana(o, dir, speed, turn, damage, radius, push_power, push_time, life);
            assert(o@ =~= old(o)@ + enc_kind(*x));
        },
        ProjectileKind::Rolling { dir, speed, damage_per_sec, radius, remaining } => {
            wu8(o, 6);
            write_kind_rolling(o, dir, speed, damage_per_sec, radius, remaining);
            assert(o@ =~= old(o)@ + enc_kind(*x));
        },
        ProjectileKind::ScatterLine { dir, speed, remaining, scatter } => {
            wu8(o, 7);
            write_kind_scatter_line(o, dir, speed, remaining, scatter);
            assert(o@ =~= old(o)@ + enc_kind(*x));
        },
        ProjectileKind::Beam { dir, length, width, damage_per_sec, remaining } => {
            wu8(o, 8);
            write_kind_beam(o, dir, length, width, damage_per_sec, remaining);
            assert(o@ =~= old(o)@ + enc_kind(*x));
        },
        ProjectileKind::Chain { dir, speed, damage, heal, ratio, ratio_decay, life, last_target, owner, max_chain, hit_count, turn_delay } => {
            wu8(o, 9);
            write_kind_chain(o, dir, speed, damage, heal, ratio, ratio_decay, life, last_target, owner, max_chain, hit_count, turn_delay);
            assert(o@ =~= old(o)@ + enc_kind(*x));
        },
        ProjectileKind::BonusBomb { dir, speed, damage, radius, push_power, push_time, remaining, owner } => {
            wu8(o, 10);
            write_kind_bonus_bomb(o, dir, speed, damage, radius, push_power, push_time, remaining, owner);
            assert(o@ =~= old(o)@ + enc_kind(*x));
        },
        ProjectileKind::Returner { dir, speed, damage, radius, push_power, push_time, owner } => {
            wu8(o, 11);
            write_kind_returner(o, dir, speed, damage, radius, push_power, push_time, owner);
            assert(o@ =~= old(o)@ + enc_kind(*x));
        },
        ProjectileKind::Tether { owner, target, damage_per_sec, pull_speed, remaining, beam } => {
            wu8(o, 12);
            write_kind_tether(o, owner, target, damage_per_sec, pull_speed, remaining, beam);
            assert(o@ =~= old(o)@ + enc_kind(*x));
        },
        ProjectileKind::Gravity { dir, speed, radius, pull_speed, damage_per_sec, remaining } => {
            wu8(o, 13);
            write_kind_gravity(o, dir, speed, radius, pull_speed, damage_per_sec, remaining);
            assert(o@ =~= old(o)@ + enc_kind(*x));
        },
        ProjectileKind::Star { owner, radius, damage_per_sec, heal_per_sec, remaining, heal_team } => {
            wu8(o, 14);
            write_kind_star(o, owner, radius, damage_per_sec, heal_per_sec, remaining, heal_team);
            assert(o@ =~= old(o)@ + enc_kind(*x));
        },
        ProjectileKind::BindLine { dir, speed, count, fired, bind_time, from, end } => {
            wu8(o, 15);
            write_kind_bind_line(o, dir, speed, count, fired, bind_time, from, end);
            assert(o@ =~= old(o)@ + enc_kind(*x));
        },
        ProjectileKind::PushBullet { dir, speed, damage, radius, push_power, push_time, remaining } => {
            wu8(o, 16);
            write_kind_push_bullet(o, dir, speed, damage, radius, push_power, push_time, remaining);
            assert(o@ =~= old(o)@ + enc_kind(*x));
        },
        ProjectileKind::W098b { proj, vel, speed, radius, remaining, life, gx, kb_ji, ignite, blast, target, returning, lateral, forward_dir, out_dist, on_hit, debuff_dur, burst, emit_cooldown, emit_angle, pillar_bounce, pillar_rest, lightning_dmg } => {
            wu8(o, 17);
            write_kind_w098b(o, proj, vel, speed, radius, remaining, life, gx, kb_ji, ignite, blast, target, returning, lateral, forward_dir, out_dist, on_hit, debuff_dur, burst, emit_cooldown, emit_angle, pillar_bounce, pillar_rest, lightning_dmg);
            assert(o@ =~= old(o)@ + enc_kind(*x));
        },
        ProjectileKind::Clone { owner, offset, fire_timer, fire_cd, fire_dmg, remaining } => {
            wu8(o, 18);
            write_kind_clone(o, owner, offset, fire_timer, fire_cd, fire_dmg, remaining);
            assert(o@ =~= old(o)@ + enc_kind(*x));
        },
        ProjectileKind::DelayedBlast { radius, damage, kb_ji, falloff_denom, remaining } => {
            wu8(o, 19);
            write_kind_delayed_blast(o, radius, damage, kb_ji, falloff_denom, remaining);
            assert(o@ =~= old(o)@ + enc_kind(*x));
        },
    }
}

fn decode_kind(b: &[u8], p: &mut usize) -> (r: Option<ProjectileKind>)
    requires
        readable(b@, *old(p)),
    ensures
        decoded(r, *old(p), *final(p), sp_kind(b@, *old(p) as int)),
        r is Some ==> *final(p) <= b@.len(),
{
    let t = u8at(b, p)?;
    if t == 0 {
        read_kind_rock(b, p)
    } else if t == 1 {
        read_kind_decoy(b, p)
    } else if t == 2 {
        read_kind_bullet(b, p)
    } else if t == 3 {
        read_kind_missile(b, p)
    } else if t == 4 {
        read_kind_boomerang(b, p)
    } else if t == 5 {
        read_kind_banana(b, p)
    } else if t == 6 {
        read_kind_rolling(b, p)
    } else if t == 7 {
        read_kind_scatter_line(b, p)
    } else if t == 8 {
        read_kind_beam(b, p)
    } else if t == 9 {
        read_kind_chain(b, p)
    } else if t == 10 {
        read_kind_bonus_bomb(b, p)
    } else if t == 11 {
        read_kind_returner(b, p)
    } else if t == 12 {
        read_kind_tether(b, p)
    } else if t == 13 {
        read_kind_gravity(b, p)
    } else if t == 14 {
        read_kind_star(b, p)
    } else if t == 15 {
        read_kind_bind_line(b, p)
    } else if t == 16 {
        read_kind_push_bullet(b, p)
    } else if t == 17 {
        read_kind_w098b(b, p)
    } else if t == 18 {
        read_kind_clone(b, p)
    } else if t == 19 {
        read_kind_delayed_blast(b, p)
    } else {
        None
    }
}


// ===========================================================================
// Projectiles
// ===========================================================================

/// Encoding of a projectile: owner, alive flag, position, then its kind.
pub open spec fn enc_projectile(pr: Projectile) -> Seq<u8> {
    enc_u32(pr.owner) + enc_bool(pr.alive) + enc_vec(pr.pos) + enc_kind(pr.kind)
}

/// A projectile that reads back as written: a roster projectile's homing target is not
/// the all-ones word, which stands for "no target".
pub open spec fn wf_projectile(pr: Projectile) -> bool {
    wf_kind(pr.kind)
}

/// Reading a projectile.
pub open spec fn sp_projectile(s: Seq<u8>, i: int) -> Option<(Projectile, int)> {
    match sp_u32(s, i) {
        Some((owner, j1)) => match sp_bool(s, j1) {
            Some((alive, j2)) => match sp_vec(s, j2) {
                Some((pos, j3)) => match sp_kind(s, j3) {
                    Some((kind, j4)) => Some((Projectile { owner, kind, pos, alive }, j4)),
                    None => None,
                },
                None => None,
            },
            None => None,
        },
        None => None,
    }
}

/// Reading a projectile back.
pub proof fn lemma_projectile_rt(pr: Projectile, s: Seq<u8>, i: int)
    requires
        wf_projectile(pr),
        has_at(s, i, enc_projectile(pr)),
    ensures
        sp_projectile(s, i) == Some((pr, i + enc_projectile(pr).len())),
{
    let a = enc_u32(pr.owner);
    let b = enc_bool(pr.alive);
    let c = enc_vec(pr.pos);
    let d = enc_kind(pr.kind);
    lemma_has_at_split(s, i, a + b + c, d);
    lemma_has_at_split(s, i, a + b, c);
    lemma_has_at_split(s, i, a, b);
    lemma_u32_rt(pr.owner, s, i);
    lemma_bool_rt(pr.alive, s, i + 4);
    lemma_vec_rt(pr.pos, s, i + 5);
    lemma_kind_rt(pr.kind, s, i + 21);
}

/// Item reader for projectiles.
pub open spec fn projectile_reader() -> spec_fn(Seq<u8>, int) -> Option<(Projectile, int)> {
    |s: Seq<u8>, i: int| sp_projectile(s, i)
}

/// Item writer for projectiles.
pub open spec fn projectile_writer() -> spec_fn(Projectile) -> Seq<u8> {
    |pr: Projectile| enc_projectile(pr)
}

/// The projectiles that read back as written.
pub open spec fn projectile_ok() -> spec_fn(Projectile) -> bool {
    |pr: Projectile| wf_projectile(pr)
}

/// The reader for projectiles reads back what the writer writes.
pub proof fn lemma_projectile_inverts()
    ensures
        crate::wire::inverts(projectile_reader(), projectile_writer(), projectile_ok()),
{
    assert forall|x: Projectile, s: Seq<u8>, i: int|
        (projectile_ok())(x) && #[trigger] has_at(s, i, (projectile_writer())(x)) implies (
        projectile_reader())(s, i) == Some((x, i + (projectile_writer())(x).len())) by {
        lemma_projectile_rt(x, s, i);
    }
}

pub fn encode_projectile(o: &mut Vec<u8>, pr: &Projectile)
    ensures
        final(o)@ == old(o)@ + enc_projectile(*pr),
{
    wu32(o, pr.owner);
    wbool(o, pr.alive);
    wvec(o, pr.pos);
    encode_kind(o, &pr.kind);
    assert(o@ =~= old(o)@ + enc_projectile(*pr));
}

pub fn decode_projectile(b: &[u8], p: &mut usize) -> (r: Option<Projectile>)
    requires
        readable(b@, *old(p)),
    ensures
        decoded(r, *old(p), *final(p), sp_projectile(b@, *old(p) as int)),
        r is Some ==> *final(p) <= b@.len(),
{
    let owner = u32at(b, p)?;
    let alive = boolat(b, p)?;
    let pos = vecat(b, p)?;
    let kind = decode_kind(b, p)?;
    Some(Projectile { owner, kind, pos, alive })
}

} // verus!
