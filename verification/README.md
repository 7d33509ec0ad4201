# boblee

A Battlesnake player. Each turn the game server sends the board as JSON and
the player answers with a move: up, down, left or right.

The move is chosen by rating the four cells around the head with a series of
heuristics (walls, snake bodies, tails, heads, heads to win or avoid, food,
our own tail, a look-ahead of 30 turns, free space) and taking the best
rated one, a random byte breaking ties. A tree of the paths that lie ahead is
built and logged as well.

## Layout

- `src/` is the library, verified with Verus:
  - `model.rs`: the board, snakes and moves, and their mathematical views;
  - `possible.rs`: the candidate moves;
  - `scoring.rs`, `tally.rs`: walls, bodies, tails and heads;
  - `food.rs`: food distance, the food we reach first, our tail;
  - `forward.rs`: the look-ahead;
  - `choice.rs`: free space, the decision to fight, the best move;
  - `engine.rs`: the rating of a turn from start to end;
  - `arena.rs`, `futur.rs`: the tree of paths ahead, kept in an `indextree` arena;
  - `sort.rs`: a verified stable sort.
- `tests/`: the scenarios and unit tests.
- `app/`: the HTTP server, the JSON forms of the messages, the food shares
  (computed in floating point) and the logs.
