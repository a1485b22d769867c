use brawl_core::stats::{
    achievement_label, achievements_for, leaderboard_score, MatchSummary, ACH_FIRST_WIN, ACH_FLAWLESS,
    ACH_KILL_10, ACH_KILL_5,
};

/// Three rounds played, one survived: never flawless, so other cases stay independent.
fn sum(kills: u32, best_placement: u32, players: u32) -> MatchSummary {
    MatchSummary { kills, best_placement, players, rounds: 3, rounds_survived: 1 }
}

#[test]
fn win_requires_at_least_two_players() {
    assert!(!sum(9, 1, 1).won());
    assert!(sum(9, 1, 2).won());
    assert!(!sum(9, 2, 4).won(), "second place is not a win");
}

#[test]
fn achievements_unlock_at_thresholds() {
    assert_eq!(achievements_for(sum(4, 2, 4)), Vec::<&str>::new());
    assert_eq!(achievements_for(sum(5, 2, 4)), vec![ACH_KILL_5]);
    assert_eq!(achievements_for(sum(10, 1, 4)), vec![ACH_FIRST_WIN, ACH_KILL_5, ACH_KILL_10]);
}

#[test]
fn flawless_needs_every_round_survived() {
    let mut s = sum(0, 1, 2);
    s.rounds = 3;
    s.rounds_survived = 3;
    assert!(s.flawless());
    s.rounds_survived = 2;
    assert!(!s.flawless());
    s.rounds = 0;
    s.rounds_survived = 0;
    s.best_placement = 0;
    assert!(!s.flawless());
    assert_eq!(achievements_for(s), Vec::<&str>::new());
}

#[test]
fn leaderboard_score_rewards_kills_and_placement() {
    assert_eq!(leaderboard_score(sum(0, 1, 4)), 500, "champion bonus");
    assert_eq!(leaderboard_score(sum(3, 1, 4)), 800, "3 kills + champion");
    assert_eq!(leaderboard_score(sum(3, 2, 4)), 550, "3 kills + runner-up");
    assert_eq!(leaderboard_score(sum(0, 9, 4)), 0, "no placement, no kills");
}

#[test]
fn achievement_label_falls_back_for_unknown_key() {
    assert_eq!(achievement_label(ACH_FIRST_WIN), "首次夺冠");
    assert_eq!(achievement_label("ACH_SOMETHING_ELSE"), "新成就");
}

#[test]
fn every_achievement_has_its_own_label() {
    assert_eq!(achievement_label(ACH_KILL_5), "单场 5 杀");
    assert_eq!(achievement_label(ACH_KILL_10), "单场 10 杀");
    assert_eq!(achievement_label(ACH_FLAWLESS), "全场无死亡");
    assert_eq!(achievement_label(""), "新成就");
}

#[test]
fn all_four_achievements_in_fixed_order() {
    let s = MatchSummary { kills: 12, best_placement: 1, players: 3, rounds: 2, rounds_survived: 2 };
    assert_eq!(achievements_for(s), vec![ACH_FIRST_WIN, ACH_KILL_5, ACH_KILL_10, ACH_FLAWLESS]);
}

#[test]
fn placement_bonus_table() {
    assert_eq!(leaderboard_score(sum(0, 2, 4)), 250);
    assert_eq!(leaderboard_score(sum(0, 3, 4)), 120);
    assert_eq!(leaderboard_score(sum(0, 4, 4)), 60);
    assert_eq!(leaderboard_score(sum(0, 5, 4)), 0);
    assert_eq!(leaderboard_score(sum(0, 0, 4)), 0);
}

#[test]
fn score_grows_with_kills_and_better_placement() {
    // One more kill adds exactly 100 at the same placement.
    assert_eq!(leaderboard_score(sum(8, 3, 4)) + 100, leaderboard_score(sum(9, 3, 4)));
    // A better placement never scores less with the same kills.
    let scores: Vec<i32> = [1u32, 2, 3, 4, 5, 0].iter().map(|&p| leaderboard_score(sum(7, p, 4))).collect();
    for w in scores.windows(2) {
        assert!(w[0] >= w[1], "{:?}", scores);
    }
}

#[test]
fn ten_kills_list_five_kills_first() {
    let a = achievements_for(sum(10, 2, 4));
    let i5 = a.iter().position(|k| *k == ACH_KILL_5).unwrap();
    let i10 = a.iter().position(|k| *k == ACH_KILL_10).unwrap();
    assert!(i5 < i10);
}
