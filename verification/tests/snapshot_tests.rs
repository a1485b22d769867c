use brawl_core::fix::{Fix64, Vec2};
use brawl_core::player::{
    Buff, BuffKind, Cmd, Control, Kick, Player, Rewind, SweepState, MASTERY_TRACKS, MAX_BUFFS, MAX_CMDS,
};
use brawl_core::projectile_ser::{decode_projectile, encode_projectile};
use brawl_core::skill::{Caster, CastPhase, SkillId, W098bOnHit, W098bProjKind, MAX_SKILL_SLOTS};
use brawl_core::wire::count_at;
use brawl_core::world::{classes_collide, Obstacle, Projectile, ProjectileKind, ScatterKind, World};
use brawl_core::world_ser::{
    cmd_indices_valid, state_hash, state_hash_bytes, world_from_bytes, world_to_bytes, SerializeWorld,
    MAX_DECODE_PLAYERS,
};

fn fx(v: f64) -> Fix64 {
    // 32 fractional bits, for readable test values.
    Fix64((v * 4294967296.0) as i64)
}

fn v2(x: f64, y: f64) -> Vec2 {
    Vec2::new(fx(x), fx(y))
}

fn player(id: u32, np: u32) -> Player {
    let mut buffs = Vec::new();
    for k in 0..MAX_BUFFS {
        buffs.push(Buff { kind: if k % 2 == 0 { BuffKind::Reflect } else { BuffKind::Slow(0.5f64.to_bits()) }, remaining: fx(k as f64) });
    }
    let mut cmd_buf = Vec::new();
    for k in 0..MAX_CMDS {
        cmd_buf.push(match k % 3 {
            0 => Cmd::Move(v2(k as f64, 1.0)),
            1 => Cmd::Cast(SkillId(20 + k as u32), Some(v2(2.0, k as f64))),
            _ => Cmd::Stop,
        });
    }
    Player {
        id,
        pos: v2(10.0 * id as f64, -3.5),
        radius: fx(30.0),
        hp: fx(87.25),
        max_hp: fx(100.0),
        rewind: if id % 2 == 0 { Some(Rewind { pos: v2(1.0, 2.0), hp: fx(50.0), remaining: fx(0.75) }) } else { None },
        catastrophe_stage: 2,
        lava_boot_cd: fx(3.0),
        mana: 12.5f64.to_bits(),
        growth: 1.1f64.to_bits(),
        aegis_charged: id == 1,
        mastery: vec![1, 0, 2],
        forms: (0..MAX_SKILL_SLOTS).map(|k| k % 5 == 0).collect(),
        phoenix_remaining: fx(0.0),
        team: (id % 2) as u8,
        items: vec![3, 17, 40],
        move_target: Some(v2(5.0, 6.0)),
        caster: Caster { phase: CastPhase::Windup { id: SkillId(7), target: Some(v2(9.0, 9.0)), remaining: fx(0.25) }, cooldowns: (0..MAX_SKILL_SLOTS).map(|k| fx(k as f64 * 0.5)).collect() },
        skill_levels: (0..MAX_SKILL_SLOTS).map(|k| (k % 4) as u32).collect(),
        last_hit_by: Some((id + 1) % np),
        control: Some(Control { vel: v2(-1.0, 0.5), remaining: fx(0.3), decay: true }),
        pull: v2(0.0, 0.0),
        cur_vel: v2(4.0, -4.0),
        buffs,
        shadow_anchor: None,
        shadow_window: fx(1.5),
        kick: Some(Kick { push_power: fx(150.0), push_time: fx(0.4), push_damage: fx(5.4), remaining: fx(1.0), stop_on_hit: true }),
        boost_soaked: fx(0.0),
        s007_absorb: fx(3.0),
        s007_bonus: fx(0.2),
        fake_active: Some(fx(0.1)),
        blink2_window: None,
        dash_active: true,
        dash_vel: v2(12.0, 0.0),
        burning: false,
        charging: true,
        parry_ready: false,
        parry_cd: fx(2.0),
        ricochet_pending: None,
        ricochet_kick: None,
        ricochet_window: fx(0.0),
        sweep: Some(SweepState { dir: v2(1.0, 0.0), bullet_speed: fx(600.0), damage: fx(2.0), remaining: 4, cadence: 0.1f64.to_bits(), turn_step: 0.2f64.to_bits(), elapsed: 0.05f64.to_bits(), id: 9 }),
        damageplus: 0.0f64.to_bits(),
        cmd_buf,
        cmd_head: 3,
        cmd_len: 2,
        alive: true,
    }
}

fn all_kinds() -> Vec<ProjectileKind> {
    let f = fx(1.25);
    let d = v2(0.6, 0.8);
    vec![
        ProjectileKind::Rock { fuse: f, radius: fx(2.0), damage: fx(3.0), bomb_force: fx(4.0) },
        ProjectileKind::Decoy { radius: f, lifetime: fx(9.0) },
        ProjectileKind::Bullet { dir: d, speed: f, damage: f, radius: f, remaining: f },
        ProjectileKind::Missile { dir: d, speed: f, damage: f, radius: f, push_power: f, push_time: f, remaining: f },
        ProjectileKind::Boomerang { vel: d, accelerate: f, damage: f, radius: f, push_power: f, push_time: f, life: f, owner_pos: v2(3.0, 3.0) },
        ProjectileKind::Banana { dir: d, speed: f, turn: f, damage: f, radius: f, push_power: f, push_time: f, life: f },
        ProjectileKind::Rolling { dir: d, speed: f, damage_per_sec: f, radius: f, remaining: f },
        ProjectileKind::ScatterLine { dir: d, speed: f, remaining: f, scatter: ScatterKind::Burst { count: 8, step_rad: fx(0.2), bullet_speed: fx(700.0) } },
        ProjectileKind::ScatterLine { dir: d, speed: f, remaining: f, scatter: ScatterKind::Periodic { count: 5, interval: fx(0.1), elapsed: fx(0.05), bullet_speed: fx(500.0), turn_rad: fx(-0.3) } },
        ProjectileKind::Beam { dir: d, length: f, width: f, damage_per_sec: f, remaining: f },
        ProjectileKind::Chain { dir: d, speed: f, damage: f, heal: f, ratio: f, ratio_decay: f, life: f, last_target: 2, owner: 1, max_chain: 4, hit_count: 1, turn_delay: f },
        ProjectileKind::BonusBomb { dir: d, speed: f, damage: f, radius: f, push_power: f, push_time: f, remaining: f, owner: 3 },
        ProjectileKind::Returner { dir: d, speed: f, damage: f, radius: f, push_power: f, push_time: f, owner: 0 },
        ProjectileKind::Tether { owner: 1, target: 2, damage_per_sec: f, pull_speed: f, remaining: f, beam: true },
        ProjectileKind::Gravity { dir: d, speed: f, radius: f, pull_speed: f, damage_per_sec: f, remaining: f },
        ProjectileKind::Star { owner: 2, radius: f, damage_per_sec: f, heal_per_sec: f, remaining: f, heal_team: false },
        ProjectileKind::BindLine { dir: d, speed: f, count: 3, fired: 1, bind_time: f, from: v2(1.0, 1.0), end: v2(2.0, 2.0) },
        ProjectileKind::PushBullet { dir: d, speed: f, damage: f, radius: f, push_power: f, push_time: f, remaining: f },
        ProjectileKind::W098b {
            proj: W098bProjKind::Magma, vel: d, speed: f, radius: f, remaining: f, life: f, gx: f, kb_ji: f,
            ignite: Some(fx(2.0)), blast: None, target: Some(1), returning: true, on_hit: W098bOnHit::CarrySelf,
            debuff_dur: f, lateral: f, forward_dir: d, burst: 3, emit_cooldown: f, emit_angle: 1.5f64.to_bits(),
            out_dist: f, pillar_rest: f, pillar_bounce: true, lightning_dmg: f,
        },
        ProjectileKind::W098b {
            proj: W098bProjKind::Homing, vel: d, speed: f, radius: f, remaining: f, life: f, gx: f, kb_ji: f,
            ignite: None, blast: Some(fx(1.0)), target: None, returning: false, on_hit: W098bOnHit::Ki,
            debuff_dur: f, lateral: f, forward_dir: d, burst: 0, emit_cooldown: f, emit_angle: 0,
            out_dist: f, pillar_rest: f, pillar_bounce: false, lightning_dmg: f,
        },
        ProjectileKind::Clone { owner: 1, offset: d, fire_timer: f, fire_cd: f, fire_dmg: f, remaining: f },
        ProjectileKind::DelayedBlast { radius: f, damage: f, kb_ji: f, falloff_denom: f, remaining: f },
    ]
}

fn world(np: u32, seed: u64) -> World {
    let n = np as usize;
    let projectiles: Vec<Projectile> = all_kinds()
        .into_iter()
        .enumerate()
        .map(|(k, kind)| Projectile { owner: (k as u32) % np, kind, pos: v2(k as f64, -(k as f64)), alive: k % 3 != 0 })
        .collect();
    World {
        arena_radius: fx(700.0),
        sandbox: false,
        round_seed: seed,
        time: fx(0.5),
        players: (0..np).map(|id| player(id, np)).collect(),
        round_number: 4,
        ice: vec![(v2(100.0, 50.0), fx(80.0)), (v2(-20.0, 0.0), fx(40.0))],
        mode: 3,
        avatar: Some(1),
        kings: vec![0, 2],
        f_override: (0..np).map(|k| if k == 1 { Some(SkillId(20)) } else { None }).collect(),
        round_forced: true,
        damage_matrix: (0..n).map(|i| (0..n).map(|j| fx((i * 10 + j) as f64)).collect()).collect(),
        avatar_score: (0..n).map(|i| fx(i as f64 * 2.5)).collect(),
        obstacles: vec![Obstacle { pos: v2(0.0, 250.0), radius: fx(30.0), hp: 40 }],
        projectiles,
        eliminated_order: vec![np - 1],
        kills_this_round: vec![(0, np - 1)],
        shrink_timer: fx(7.5),
        pending_avatar: Some(np - 1),
        pending_kings: vec![1],
    }
}

#[test]
fn decode_rejects_absurd_counts_instead_of_huge_allocation() {
    let huge = 0xFFFF_FFFFu32.to_be_bytes();
    let mut p = 0;
    assert_eq!(count_at(&huge, &mut p, MAX_DECODE_PLAYERS), None);
    let ok = 3u32.to_be_bytes();
    let mut p2 = 0;
    assert_eq!(count_at(&ok, &mut p2, MAX_DECODE_PLAYERS), Some(3));
}

#[test]
fn decode_rejects_out_of_range_cmd_indices() {
    assert!(cmd_indices_valid(0, 0));
    assert!(cmd_indices_valid(MAX_CMDS - 1, MAX_CMDS));
    assert!(!cmd_indices_valid(MAX_CMDS, 0), "head out of range is refused");
    assert!(!cmd_indices_valid(0, MAX_CMDS + 1), "length out of range is refused");
}

#[test]
fn world_roundtrip_preserves_characters() {
    let w = world(3, 99);
    let bytes = world_to_bytes(&w);
    let back = world_from_bytes(&bytes).expect("decode");
    assert_eq!(w.arena_radius, back.arena_radius);
    assert_eq!(w.sandbox, back.sandbox);
    assert_eq!(w.round_seed, back.round_seed, "round_seed equal");
    assert_eq!(w.time, back.time);
    assert_eq!(w.round_number, back.round_number);
    assert_eq!(w.players, back.players, "players equal");
    assert_eq!(w.obstacles, back.obstacles, "obstacles equal");
    assert_eq!(w.projectiles, back.projectiles, "projectiles equal");
    assert_eq!(w.eliminated_order, back.eliminated_order);
    assert_eq!(w.kills_this_round, back.kills_this_round);
    assert_eq!(w.damage_matrix, back.damage_matrix);
    assert_eq!(w.ice, back.ice);
    assert_eq!(w.mode, back.mode);
    assert_eq!(w.avatar, back.avatar);
    assert_eq!(w.kings, back.kings);
    assert_eq!(w.f_override, back.f_override);
    assert_eq!(w.round_forced, back.round_forced);
    assert_eq!(w.shrink_timer, back.shrink_timer);
    assert_eq!(w.pending_avatar, back.pending_avatar);
    assert_eq!(w.pending_kings, back.pending_kings);
    assert_eq!(w, back);
}

#[test]
fn roundtrip_ignores_trailing_bytes() {
    let w = world(2, 5);
    let mut bytes = world_to_bytes(&w);
    bytes.extend_from_slice(&[1, 2, 3, 4, 5]);
    assert_eq!(world_from_bytes(&bytes), Some(w));
}

#[test]
fn state_hash_is_deterministic_and_sensitive() {
    let a = world(3, 99);
    let b = world(3, 99);
    assert_eq!(state_hash(&a), state_hash(&b), "equal worlds hash alike");
    let c = world(3, 1234);
    assert_ne!(state_hash(&a), state_hash(&c), "different worlds hash apart");
    assert_eq!(state_hash(&a), state_hash_bytes(&world_to_bytes(&a)));
}

#[test]
fn fnv1a_known_values() {
    assert_eq!(state_hash_bytes(&[]), 0xcbf2_9ce4_8422_2325);
    assert_eq!(state_hash_bytes(b"a"), 0xaf63_dc4c_8601_ec8c);
    assert_eq!(state_hash_bytes(b"foobar"), 0x8594_4171_f739_67e8);
}

#[test]
fn world_from_bytes_rejects_absurd_player_count() {
    let w = world(3, 99);
    let mut bytes = world_to_bytes(&w);
    // Header: arena_radius(8) + sandbox(1) + round_seed(8) + time(8) = 25, then the player count.
    bytes[25..29].copy_from_slice(&0xFFFF_FFFFu32.to_be_bytes());
    assert!(world_from_bytes(&bytes).is_none(), "an absurd player count is refused");
}

#[test]
fn world_from_bytes_rejects_out_of_range_player_id() {
    let w = world(3, 99);
    let mut bytes = world_to_bytes(&w);
    // Header (25) + player count (4) = 29: the first player's id.
    bytes[29..33].copy_from_slice(&0xFFFF_FFFFu32.to_be_bytes());
    assert!(world_from_bytes(&bytes).is_none(), "an out-of-range player id is refused");
}

#[test]
fn world_from_bytes_rejects_out_of_range_eliminated_id() {
    let mut w = world(2, 99);
    w.eliminated_order.push(0xFFFF_FFFF);
    let bytes = world_to_bytes(&w);
    assert!(world_from_bytes(&bytes).is_none(), "an out-of-range eliminated id is refused");
}

#[test]
fn world_from_bytes_rejects_out_of_range_kill_id() {
    let mut w = world(2, 99);
    w.kills_this_round.push((0xFFFF_FFFF, 1));
    let bytes = world_to_bytes(&w);
    assert!(world_from_bytes(&bytes).is_none(), "an out-of-range killer is refused");

    let mut w2 = world(2, 99);
    w2.kills_this_round.push((0, 0xFFFF_FFFF));
    let bytes2 = world_to_bytes(&w2);
    assert!(world_from_bytes(&bytes2).is_none(), "an out-of-range victim is refused");
}

#[test]
fn world_from_bytes_rejects_out_of_range_pending_roles() {
    let mut w = world(2, 99);
    w.pending_avatar = Some(2);
    assert!(world_from_bytes(&world_to_bytes(&w)).is_none());
    let mut w2 = world(2, 99);
    w2.pending_kings = vec![0, 5];
    assert!(world_from_bytes(&world_to_bytes(&w2)).is_none());
}

#[test]
fn world_from_bytes_rejects_out_of_range_last_hitter_and_cmd_ring() {
    let mut w = world(2, 99);
    w.players[1].last_hit_by = Some(7);
    assert!(world_from_bytes(&world_to_bytes(&w)).is_none());
    let mut w2 = world(2, 99);
    w2.players[0].cmd_head = MAX_CMDS;
    assert!(world_from_bytes(&world_to_bytes(&w2)).is_none());
}

#[test]
fn every_truncation_is_refused() {
    let w = world(2, 11);
    let bytes = world_to_bytes(&w);
    for cut in [0usize, 1, 24, 25, 28, 29, bytes.len() / 2, bytes.len() - 1] {
        assert!(world_from_bytes(&bytes[..cut]).is_none(), "cut at {cut}");
    }
}

#[test]
fn empty_world_roundtrips() {
    let w = World {
        arena_radius: fx(600.0),
        sandbox: true,
        round_seed: 0,
        time: fx(0.0),
        players: Vec::new(),
        round_number: 0,
        ice: Vec::new(),
        mode: 0,
        avatar: None,
        kings: Vec::new(),
        f_override: Vec::new(),
        round_forced: false,
        damage_matrix: Vec::new(),
        avatar_score: Vec::new(),
        obstacles: Vec::new(),
        projectiles: Vec::new(),
        eliminated_order: Vec::new(),
        kills_this_round: Vec::new(),
        shrink_timer: fx(10.0),
        pending_avatar: None,
        pending_kings: Vec::new(),
    };
    let bytes = SerializeWorld::encode(&w);
    assert_eq!(bytes.len(), 25 + 4 + 4 + 1 + 1 + 1 + 1 + 1 + 4 + 4 + 4 + 4 + 8 + 1 + 1);
    assert_eq!(SerializeWorld::decode(&bytes), Some(w));
}

#[test]
fn header_layout_is_big_endian() {
    let mut w = world(1, 0x0102_0304_0506_0708);
    w.arena_radius = Fix64(0x1122_3344_5566_7788);
    w.sandbox = true;
    let b = world_to_bytes(&w);
    assert_eq!(&b[0..8], &[0x11, 0x22, 0x33, 0x44, 0x55, 0x66, 0x77, 0x88]);
    assert_eq!(b[8], 1);
    assert_eq!(&b[9..17], &[1, 2, 3, 4, 5, 6, 7, 8]);
    assert_eq!(&b[25..29], &[0, 0, 0, 1]);
}

#[test]
fn world_tags_other_than_one_read_as_none() {
    let mut w = world(2, 3);
    w.avatar = None;
    let mut bytes = world_to_bytes(&w);
    let mut probe = w.clone();
    probe.avatar = Some(0);
    let with = world_to_bytes(&probe);
    // The first byte where the two encodings differ is the avatar's presence byte.
    let at = bytes.iter().zip(with.iter()).position(|(a, b)| a != b).unwrap();
    assert_eq!(bytes[at], 0);
    assert_eq!(with[at], 1);
    bytes[at] = 2;
    let back = world_from_bytes(&bytes).expect("a presence byte other than 1 means none");
    assert_eq!(back.avatar, None);
    assert_eq!(back, w);
}

#[test]
fn every_projectile_kind_roundtrips() {
    for (k, kind) in all_kinds().into_iter().enumerate() {
        let pr = Projectile { owner: k as u32, kind, pos: v2(1.0, -1.0), alive: true };
        let mut o = Vec::new();
        encode_projectile(&mut o, &pr);
        let mut p = 0usize;
        assert_eq!(decode_projectile(&o, &mut p), Some(pr), "kind {k}");
        assert_eq!(p, o.len());
    }
}

#[test]
fn unknown_projectile_tag_is_refused() {
    let pr = Projectile { owner: 0, kind: ProjectileKind::Decoy { radius: fx(1.0), lifetime: fx(2.0) }, pos: v2(0.0, 0.0), alive: true };
    let mut o = Vec::new();
    encode_projectile(&mut o, &pr);
    // owner(4) + alive(1) + pos(16) = 21: the kind's tag.
    assert_eq!(o[21], 1);
    o[21] = 20;
    let mut p = 0usize;
    assert_eq!(decode_projectile(&o, &mut p), None);
}

#[test]
fn homing_target_all_ones_reads_as_none() {
    let kinds = all_kinds();
    let mut kind = kinds[18];
    if let ProjectileKind::W098b { ref mut target, .. } = kind {
        *target = Some(u32::MAX);
    }
    let pr = Projectile { owner: 0, kind, pos: v2(0.0, 0.0), alive: false };
    let mut o = Vec::new();
    encode_projectile(&mut o, &pr);
    let mut p = 0usize;
    let back = decode_projectile(&o, &mut p).unwrap();
    match back.kind {
        ProjectileKind::W098b { target, .. } => assert_eq!(target, None),
        _ => panic!("kind changed"),
    }
}

#[test]
fn clock_and_mode() {
    let mut w = world(3, 1);
    assert_eq!(w.time(), fx(0.5));
    let before = w.clone();
    w.configure_mode(5);
    assert_eq!(w.mode, 5);
    let mut expect = before;
    expect.mode = 5;
    assert_eq!(w, expect);
}

#[test]
fn alive_players_and_winners() {
    let mut w = world(4, 1);
    assert_eq!(w.alive_count(), 4);
    assert_eq!(w.round_winners(), vec![0, 1, 2, 3]);
    w.players[1].alive = false;
    w.players[3].alive = false;
    assert_eq!(w.alive_count(), 2);
    assert_eq!(w.round_winners(), vec![0, 2]);
    for p in w.players.iter_mut() {
        p.alive = false;
    }
    assert_eq!(w.alive_count(), 0);
    assert!(w.round_winners().is_empty(), "a draw has no winners");
}

#[test]
fn take_kills_leaves_none() {
    let mut w = world(3, 1);
    let before = w.clone();
    assert_eq!(w.take_kills(), vec![(0, 2)]);
    assert!(w.kills_this_round.is_empty());
    assert_eq!(w.take_kills(), Vec::new());
    let mut expect = before;
    expect.kills_this_round.clear();
    assert_eq!(w, expect);
}

#[test]
fn placement_orders_alive_then_last_eliminated() {
    let mut w = world(4, 1);
    w.players[1].alive = false;
    w.players[3].alive = false;
    w.eliminated_order = vec![3, 1];
    assert_eq!(w.placement(), vec![0, 2, 1, 3]);
    // Alive players are ranked by id, whatever their index.
    w.players[0].id = 9;
    assert_eq!(w.placement(), vec![2, 9, 1, 3]);
    // Places nobody holds are padded.
    let mut v = world(3, 1);
    v.players[1].alive = false;
    v.players[2].alive = false;
    v.eliminated_order = Vec::new();
    assert_eq!(v.placement(), vec![0, u32::MAX, u32::MAX]);
}

#[test]
fn assist_is_the_top_other_damager() {
    // damage_matrix[a][v] = 10 a + v.
    let w = world(4, 1);
    assert_eq!(w.assist_damager_of(0, 3), Some(2));
    assert_eq!(w.assist_damager_of(2, 0), Some(3));
    assert_eq!(w.assist_damager_of(1, 3), Some(2));
    let mut t = world(4, 1);
    t.damage_matrix[1][0] = fx(20.0);
    assert_eq!(t.assist_damager_of(0, 3), Some(1), "the first on a tie");
    let mut z = world(3, 1);
    for row in z.damage_matrix.iter_mut() {
        for d in row.iter_mut() {
            *d = fx(0.0);
        }
    }
    assert_eq!(z.assist_damager_of(0, 1), None, "no damage, no assist");
    let two = world(2, 1);
    assert_eq!(two.assist_damager_of(0, 1), None, "nobody else");
}

#[test]
fn round_over_rules() {
    let mut w = world(4, 1);
    assert!(w.round_forced);
    assert!(w.round_over(), "a forced round is over");
    w.sandbox = true;
    assert!(!w.round_over(), "the sandbox never ends");
    w.sandbox = false;
    w.round_forced = false;
    // Teams are id % 2: both teams alive.
    assert!(!w.round_over());
    w.players[1].alive = false;
    w.players[3].alive = false;
    assert!(w.round_over(), "one team left");
    for p in w.players.iter_mut() {
        p.alive = false;
    }
    assert!(w.round_over(), "nobody left");
    // Last man standing: everyone alive last hit by the same player.
    let mut m = world(4, 1);
    m.round_forced = false;
    m.mode = 5;
    assert!(!m.round_over());
    for p in m.players.iter_mut() {
        p.last_hit_by = Some(2);
    }
    assert!(m.round_over());
    m.mode = 3;
    assert!(!m.round_over(), "only mode 5 ends on a single killer");
    m.mode = 5;
    m.players[0].last_hit_by = None;
    assert!(!m.round_over());
}

#[test]
fn severing_cuts_tethers_and_chains_on_the_victim() {
    let mut w = world(3, 1);
    let before = w.projectiles.clone();
    assert_eq!(w.sever_links_to(7), 0);
    assert_eq!(w.projectiles, before);
    // The chain's last target and the tether's target are both player 2.
    let cut = w.sever_links_to(2);
    assert_eq!(cut, 2);
    assert_eq!(w.projectiles.len(), before.len() - 2);
    let expect: Vec<Projectile> = before
        .into_iter()
        .filter(|p| !matches!(p.kind, ProjectileKind::Tether { .. } | ProjectileKind::Chain { .. }))
        .collect();
    assert_eq!(w.projectiles, expect);
}

#[test]
fn projectile_collision_classes() {
    let kinds = all_kinds();
    assert_eq!(kinds[2].missile_collision(), Some((1, 0b111)), "bullet");
    assert_eq!(kinds[3].missile_collision(), Some((1, 0b111)), "missile");
    assert_eq!(kinds[1].missile_collision(), None, "decoy");
    assert_eq!(kinds[4].missile_collision(), None, "plain boomerang");
    assert_eq!(kinds[18].missile_collision(), None, "magma");
    assert_eq!(kinds[19].missile_collision(), Some((1, 0b111)), "homing");
    let mut boom = kinds[19];
    if let ProjectileKind::W098b { ref mut proj, .. } = boom {
        *proj = W098bProjKind::Boomerang;
    }
    assert_eq!(boom.missile_collision(), Some((2, 0b101)));
    assert!(classes_collide(1, 0b111, 2, 0b101));
    assert!(!classes_collide(2, 0b101, 2, 0b101), "boomerangs pass through each other");
    assert!(classes_collide(1, 0b111, 1, 0b111));
    assert!(!classes_collide(3, 0b111, 1, 0b011));
}

#[test]
fn assist_is_top_damager_excluding_killer() {
    let mut world = world(4, 995);
    for row in world.damage_matrix.iter_mut() {
        for d in row.iter_mut() {
            *d = fx(0.0);
        }
    }
    // Player 1 was hurt by 0, 2 and 3; the killer is 0 and 2 dealt the most: the assist is 2.
    world.damage_matrix[0][1] = fx(9.0);
    world.damage_matrix[2][1] = fx(20.0);
    world.damage_matrix[3][1] = fx(4.0);
    assert_eq!(world.assist_damager_of(1, 0), Some(2), "the assist is the top damager other than the killer");
    // Only the killer hurt the victim: no assist.
    world.damage_matrix[2][1] = fx(0.0);
    world.damage_matrix[3][1] = fx(0.0);
    assert_eq!(world.assist_damager_of(1, 0), None, "no assist when only the killer dealt damage");
    // No damage at all: no assist.
    world.damage_matrix[0][1] = fx(0.0);
    assert_eq!(world.assist_damager_of(1, 0), None);
}

#[test]
fn placement_ranks_each_player_once() {
    // A respawned player is alive and still in the elimination list: ranked once, as alive.
    let mut w = world(2, 1);
    w.players[1].alive = false;
    w.eliminated_order = vec![0, 1];
    assert_eq!(w.placement(), vec![0, 1]);
    // A player eliminated twice is ranked by the last elimination.
    let mut v = world(3, 1);
    v.players[1].alive = false;
    v.players[2].alive = false;
    v.eliminated_order = vec![1, 2, 1];
    assert_eq!(v.placement(), vec![0, 1, 2]);
    v.eliminated_order = vec![2, 1, 2];
    assert_eq!(v.placement(), vec![0, 2, 1]);
}

#[test]
fn one_changed_byte_changes_the_hash() {
    let base: Vec<u8> = (0u8..40).map(|k| k.wrapping_mul(37)).collect();
    let h = state_hash_bytes(&base);
    for k in 0..base.len() {
        for delta in [1u8, 0x80, 0xff] {
            let mut other = base.clone();
            other[k] = other[k].wrapping_add(delta);
            assert_ne!(state_hash_bytes(&other), h, "byte {k}");
        }
    }
}
