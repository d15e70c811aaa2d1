# Wasteland Tactics

The rules of a squad turn-based tactics game, as a verified library, with the Bevy game
around it.

- `src/grid.rs`: cells, coordinates, Bresenham lines, line of sight, cover, the king-move step rule.
- `src/search.rs`: shortest walks, found by the `pathfinding` crate's A* and Dijkstra.
- `src/rules.rs`: hit chance (exact multiples of 2^-28) and the seeded ChaCha8 dice.
- `src/battle.rs`, `src/battle/`: the battle engine (`apply`, `end_enemy_turn`, queries),
  its model (`model.rs`) and the laws every action keeps (`laws.rs`).
- `src/planner.rs`: the enemy's next action; every action it plans is one `apply` accepts.
- `src/phase.rs`, `src/orders.rs`: the phase loop's decisions and the player's input.
- `src/ascii.rs`, `src/map.rs`: battles from ASCII art and from Tiled map data.
- `app/`: the window: Bevy systems, sprites, animation, audio, and reading the `.tmx` map.

Run a replayable battle with `--seed N`.
