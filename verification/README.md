# brawl_core

The rules, the snapshot codec and the networking decisions of a lockstep arena brawler,
verified with Verus.

Layout:

- `src/` — the verified library.
  - `fix`, `skill`, `player`, `world`: the game state held in a snapshot, and the round
    rules that read it (alive players, winners, placements, assists, end of round,
    projectile collision classes, cutting links to a fallen player).
  - `wire`, `projectile_ser`, `world_ser`: the big-endian snapshot format, with a reader
    proved to give back what the writer wrote, bounded counts and index checks on
    untrusted input, and the FNV-1a state hash.
  - `lobby`: the lobby player table (host first, then members by id).
  - `stats`: end-of-match achievements and the leaderboard score.
  - `outbox`: per-peer send queues with a bound, and the receive queue with its counters.
  - `session`, `text`: lobby metadata, matchmaking choice, invite list ordering.
- Not here: the frame-by-frame simulation (stepping the world, casting, projectiles,
  collisions, damage, shrinking the arena, respawns, round resets and role rolls). It
  computes in floating point (angles, square roots, growth and damage factors) and
  rests on the fixed-point arithmetic, skill, item and balance tables of the game, so it
  is left outside the verified library; the library holds the state a snapshot carries
  and the round rules that read it.
- `tests/` — tests of the library on concrete values.
- `app/` — the Steam plumbing (`steamworks` calls, callbacks, I/O) around the library.
