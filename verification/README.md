# game_theory

Iterated prisoner's dilemma tournaments, verified with Verus.

`src/` is the library. Every function in it is verified against its
contract, except the calls into `rand` and `rand_chacha` in `rng`, whose
contracts state what those crates document:

- `action`, `history`: moves, rounds, and the two players' points of view.
- `game`: the payoff table and `Game::play`, which plays a match between two
  strategies (noise, early end and seeding through `rand` and `rand_chacha`).
- `strategy`, `strategies/`: the `Strategy` trait and the deterministic
  strategies (Tit For Tat, Pavlov, Grudger, Handshake, Detective, Alternator,
  Pattern Matcher, memory strategies), each with the move it makes stated as
  a function of the history, and `Player`, any one of them. A way of playing
  written elsewhere implements `Behaviour` and takes part as `Named`, under
  the name it is given; nothing is promised of how it plays.
- `ranking`, `scores`: stable ranking by score, tallies and counts by name.
- `tournament`, `swiss`, `finale`, `evolution`, `spatial`: round robin,
  Swiss rounds, grand finale, evolutionary selection and the spatial game.
- `experiment`: the cooperation count behind the cooperation rate.
- `rng`, `draws`: the calls into `rand` and `rand_chacha`, and `Draws`, a
  match's draws: one ChaCha8 stream read at a tracked word position. The
  match draws its end and noise from it and hands it to the strategies, so
  that a seed fixes the whole match, random choices included.

`app/` is the command-line program: argument parsing, printing, JSON output,
and what works in floating point (Q-learning, the randomly drawn memory-one
strategies, entropy and rates).
