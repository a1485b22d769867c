//! Match result → statistics, achievements and leaderboard score.
//!
//! Pure, deterministic rules: what a finished match unlocks and how it scores.

use vstd::prelude::*;
use crate::text::str_eq;

verus! {

/// Summary of one whole match (several rounds).
#[derive(Debug, Clone, Copy, PartialEq, Eq)]
pub struct MatchSummary {
    /// Total kills in the match.
    pub kills: u32,
    /// Best placement reached (1 = champion; 0 = no placement, e.g. left early).
    pub best_placement: u32,
    /// Number of participants, self included.
    pub players: u32,
    /// Number of rounds played.
    pub rounds: u32,
    /// Number of rounds survived.
    pub rounds_survived: u32,
}

/// Stat key: matches played.
pub const STAT_MATCHES: &'static str = "STAT_MATCHES";
/// Stat key: matches won.
pub const STAT_WINS: &'static str = "STAT_WINS";
/// Stat key: kills.
pub const STAT_KILLS: &'static str = "STAT_KILLS";

/// Achievement key: first win in a multiplayer match.
pub const ACH_FIRST_WIN: &'static str = "ACH_FIRST_WIN";
/// Achievement key: five kills in one match.
pub const ACH_KILL_5: &'static str = "ACH_KILL_5";
/// Achievement key: ten kills in one match.
pub const ACH_KILL_10: &'static str = "ACH_KILL_10";
/// Achievement key: every round survived.
pub const ACH_FLAWLESS: &'static str = "ACH_FLAWLESS";

/// Leaderboard name.
pub const LEADERBOARD: &'static str = "arena_best_score";

impl MatchSummary {
    /// A match counts as won when at least two players took part and first place was reached.
    pub open spec fn spec_won(self) -> bool {
        self.players >= 2 && self.best_placement == 1
    }

    /// A match is flawless when at least one round was played and every round was survived.
    pub open spec fn spec_flawless(self) -> bool {
        self.rounds >= 1 && self.rounds_survived >= self.rounds
    }

    /// Whether this match counts as a win.
    pub fn won(&self) -> (r: bool)
        ensures
            r == self.spec_won(),
    {
        self.players >= 2 && self.best_placement == 1
    }

    /// Whether no round of this match was lost.
    pub fn flawless(&self) -> (r: bool)
        ensures
            r == self.spec_flawless(),
    {
        self.rounds >= 1 && self.rounds_survived >= self.rounds
    }
}

/// The achievement keys a match unlocks, in their fixed display order.
pub open spec fn spec_achievements(s: MatchSummary) -> Seq<&'static str> {
    let a = if s.spec_won() { seq![ACH_FIRST_WIN] } else { Seq::empty() };
    let b = if s.kills >= 5 { a.push(ACH_KILL_5) } else { a };
    let c = if s.kills >= 10 { b.push(ACH_KILL_10) } else { b };
    if s.spec_flawless() { c.push(ACH_FLAWLESS) } else { c }
}

/// Achievement keys to unlock for this match (fixed order: win, 5 kills, 10 kills, flawless).
pub fn achievements_for(s: MatchSummary) -> (out: Vec<&'static str>)
    ensures
        out@ == spec_achievements(s),
{
    let mut out: Vec<&'static str> = Vec::new();
    if s.won() {
        out.push(ACH_FIRST_WIN);
    }
    if s.kills >= 5 {
        out.push(ACH_KILL_5);
    }
    if s.kills >= 10 {
        out.push(ACH_KILL_10);
    }
    if s.flawless() {
        out.push(ACH_FLAWLESS);
    }
    out
}

/// The four achievement keys are distinct.
proof fn lemma_keys_distinct()
    ensures
        ACH_FIRST_WIN != ACH_KILL_5,
        ACH_FIRST_WIN != ACH_KILL_10,
        ACH_FIRST_WIN != ACH_FLAWLESS,
        ACH_KILL_5 != ACH_KILL_10,
        ACH_KILL_5 != ACH_FLAWLESS,
        ACH_KILL_10 != ACH_FLAWLESS,
{
    reveal_strlit("ACH_FIRST_WIN");
    reveal_strlit("ACH_KILL_5");
    reveal_strlit("ACH_KILL_10");
    reveal_strlit("ACH_FLAWLESS");
    assert(ACH_FIRST_WIN@.len() == 13);
    assert(ACH_KILL_5@.len() == 10);
    assert(ACH_KILL_10@.len() == 11);
    assert(ACH_FLAWLESS@.len() == 12);
    assert(ACH_FIRST_WIN@ != ACH_KILL_5@);
    assert(ACH_FIRST_WIN@ != ACH_KILL_10@);
    assert(ACH_FIRST_WIN@ != ACH_FLAWLESS@);
    assert(ACH_KILL_5@ != ACH_KILL_10@);
    assert(ACH_KILL_5@ != ACH_FLAWLESS@);
    assert(ACH_KILL_10@ != ACH_FLAWLESS@);
}

/// Law (what a match unlocks), over the summary's own numbers:
/// - the first-win achievement comes exactly with first place in a match of two or more
///   players (a solo practice match unlocks it never);
/// - the kill achievements come exactly at five and at ten kills;
/// - the flawless one exactly when at least one round was played and all were survived;
/// - nothing else is listed, and no key twice.
pub proof fn law_achievements(s: MatchSummary)
    ensures
        spec_achievements(s).contains(ACH_FIRST_WIN) <==> (s.players >= 2 && s.best_placement == 1),
        spec_achievements(s).contains(ACH_KILL_5) <==> s.kills >= 5,
        spec_achievements(s).contains(ACH_KILL_10) <==> s.kills >= 10,
        spec_achievements(s).contains(ACH_FLAWLESS) <==> (s.rounds >= 1 && s.rounds_survived >= s.rounds),
        forall|i: int|
            0 <= i < spec_achievements(s).len() ==> {
                let k = #[trigger] spec_achievements(s)[i];
                k == ACH_FIRST_WIN || k == ACH_KILL_5 || k == ACH_KILL_10 || k == ACH_FLAWLESS
            },
        spec_achievements(s).no_duplicates(),
        (s.players < 2 || s.best_placement != 1) ==> (s.kills < 5 && !(s.rounds >= 1 && s.rounds_survived
            >= s.rounds) ==> spec_achievements(s).len() == 0),
{
    lemma_keys_distinct();
    let a = spec_achievements(s);
    let w = s.players >= 2 && s.best_placement == 1;
    let f = s.rounds >= 1 && s.rounds_survived >= s.rounds;
    let l0: Seq<&'static str> = if w { seq![ACH_FIRST_WIN] } else { Seq::empty() };
    let l1 = if s.kills >= 5 { l0.push(ACH_KILL_5) } else { l0 };
    let l2 = if s.kills >= 10 { l1.push(ACH_KILL_10) } else { l1 };
    let l3 = if f { l2.push(ACH_FLAWLESS) } else { l2 };
    assert(a == l3);
    assert forall|i: int| 0 <= i < a.len() implies {
        let k = #[trigger] a[i];
        k == ACH_FIRST_WIN || k == ACH_KILL_5 || k == ACH_KILL_10 || k == ACH_FLAWLESS
    } by {
        if f && i == l2.len() {
        } else if s.kills >= 10 && i == l1.len() {
            assert(a[i] == l2[i]);
        } else if s.kills >= 5 && i == l0.len() {
            assert(a[i] == l1[i]);
        } else {
            assert(a[i] == l0[i]);
        }
    }
    assert(a.contains(ACH_FIRST_WIN) <==> w) by {
        if w {
            assert(a[0] == ACH_FIRST_WIN);
        }
        if a.contains(ACH_FIRST_WIN) {
            let i = choose|i: int| 0 <= i < a.len() && a[i] == ACH_FIRST_WIN;
            if !w {
                assert(a[i] == ACH_KILL_5 || a[i] == ACH_KILL_10 || a[i] == ACH_FLAWLESS);
            }
        }
    }
    assert(a.contains(ACH_KILL_5) <==> s.kills >= 5) by {
        if s.kills >= 5 {
            assert(a[l0.len() as int] == ACH_KILL_5);
        }
        if a.contains(ACH_KILL_5) {
            let i = choose|i: int| 0 <= i < a.len() && a[i] == ACH_KILL_5;
            if s.kills < 5 {
                if f && i == l2.len() {
                } else {
                    assert(a[i] == l0[i]);
                }
            }
        }
    }
    assert(a.contains(ACH_KILL_10) <==> s.kills >= 10) by {
        if s.kills >= 10 {
            assert(a[l1.len() as int] == ACH_KILL_10);
        }
        if a.contains(ACH_KILL_10) {
            let i = choose|i: int| 0 <= i < a.len() && a[i] == ACH_KILL_10;
            if s.kills < 10 {
                if f && i == l2.len() {
                } else if s.kills >= 5 && i == l0.len() {
                    assert(a[i] == l1[i]);
                } else {
                    assert(a[i] == l0[i]);
                }
            }
        }
    }
    assert(a.contains(ACH_FLAWLESS) <==> f) by {
        if f {
            assert(a[l2.len() as int] == ACH_FLAWLESS);
        }
        if a.contains(ACH_FLAWLESS) {
            let i = choose|i: int| 0 <= i < a.len() && a[i] == ACH_FLAWLESS;
            if !f {
                if s.kills >= 10 && i == l1.len() {
                    assert(a[i] == l2[i]);
                } else if s.kills >= 5 && i == l0.len() {
                    assert(a[i] == l1[i]);
                } else {
                    assert(a[i] == l0[i]);
                }
            }
        }
    }
    assert forall|i: int, j: int| 0 <= i < a.len() && 0 <= j < a.len() && i != j implies a[i] != a[j] by {
        let ki = if f && i == l2.len() { 3int } else if s.kills >= 10 && i == l1.len() { 2int } else if s.kills >= 5 && i == l0.len() { 1int } else { 0int };
        let kj = if f && j == l2.len() { 3int } else if s.kills >= 10 && j == l1.len() { 2int } else if s.kills >= 5 && j == l0.len() { 1int } else { 0int };
        if f && i == l2.len() {
        } else if s.kills >= 10 && i == l1.len() {
            assert(a[i] == l2[i]);
        } else if s.kills >= 5 && i == l0.len() {
            assert(a[i] == l1[i]);
        } else {
            assert(a[i] == l0[i]);
        }
        if f && j == l2.len() {
        } else if s.kills >= 10 && j == l1.len() {
            assert(a[j] == l2[j]);
        } else if s.kills >= 5 && j == l0.len() {
            assert(a[j] == l1[j]);
        } else {
            assert(a[j] == l0[j]);
        }
        assert(ki != kj);
    }
}

/// Display name of an achievement key; unknown keys get a generic name.
pub fn achievement_label(key: &str) -> (r: &'static str)
    ensures
        r@ == (if key@ == ACH_FIRST_WIN@ {
            "首次夺冠"@
        } else if key@ == ACH_KILL_5@ {
            "单场 5 杀"@
        } else if key@ == ACH_KILL_10@ {
            "单场 10 杀"@
        } else if key@ == ACH_FLAWLESS@ {
            "全场无死亡"@
        } else {
            "新成就"@
        }),
{
    if str_eq(key, ACH_FIRST_WIN) {
        "首次夺冠"
    } else if str_eq(key, ACH_KILL_5) {
        "单场 5 杀"
    } else if str_eq(key, ACH_KILL_10) {
        "单场 10 杀"
    } else if str_eq(key, ACH_FLAWLESS) {
        "全场无死亡"
    } else {
        "新成就"
    }
}

/// Bonus points for a placement: first 500, second 250, third 120, fourth 60, otherwise 0.
pub open spec fn placement_bonus(best_placement: u32) -> int {
    if best_placement == 1 {
        500
    } else if best_placement == 2 {
        250
    } else if best_placement == 3 {
        120
    } else if best_placement == 4 {
        60
    } else {
        0
    }
}

/// The leaderboard score of a match: kills (read as `i32`) times 100 plus the placement bonus.
pub open spec fn spec_leaderboard_score(s: MatchSummary) -> int {
    (s.kills as i32) * 100 + placement_bonus(s.best_placement)
}

/// Leaderboard score: 100 per kill plus a placement bonus (champion +500).
pub fn leaderboard_score(s: MatchSummary) -> (r: i32)
    requires
        i32::MIN <= (s.kills as i32) * 100 <= i32::MAX,
        i32::MIN <= spec_leaderboard_score(s) <= i32::MAX,
    ensures
        r == spec_leaderboard_score(s),
{
    let placement_bonus: i32 = if s.best_placement == 1 {
        500
    } else if s.best_placement == 2 {
        250
    } else if s.best_placement == 3 {
        120
    } else if s.best_placement == 4 {
        60
    } else {
        0
    };
    let k: i32 = #[verifier::truncate] (s.kills as i32);
    k * 100 + placement_bonus
}

/// More kills never lower the score of a match with the same placement (for kill counts
/// that read as themselves in an `i32`).
pub proof fn law_score_grows_with_kills(a: MatchSummary, b: MatchSummary)
    requires
        a.best_placement == b.best_placement,
        a.kills <= b.kills,
        b.kills <= i32::MAX,
    ensures
        spec_leaderboard_score(a) <= spec_leaderboard_score(b),
        a.kills < b.kills ==> spec_leaderboard_score(a) + 100 <= spec_leaderboard_score(b),
{
}

/// A better placement never earns less: with equal kills, first place scores at least as
/// much as second, second as third, and so on; no placement (0) scores least.
pub proof fn law_better_placement_scores_higher(a: MatchSummary, b: MatchSummary)
    requires
        a.kills == b.kills,
        1 <= a.best_placement,
        b.best_placement == 0 || a.best_placement <= b.best_placement,
    ensures
        spec_leaderboard_score(b) <= spec_leaderboard_score(a),
{
}

/// Ten kills always unlock the five-kill achievement too, listed before it.
pub proof fn law_ten_kills_include_five(s: MatchSummary)
    requires
        s.kills >= 10,
    ensures
        ({
            let a = spec_achievements(s);
            exists|i: int, j: int|
                0 <= i < j < a.len() && a[i] == ACH_KILL_5 && a[j] == ACH_KILL_10
        }),
{
    let a = spec_achievements(s);
    let k: int = if s.spec_won() { 1 } else { 0 };
    assert(a[k] == ACH_KILL_5 && a[k + 1] == ACH_KILL_10);
}

} // verus!
