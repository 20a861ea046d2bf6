# truco_engine

A rules engine for two-player Brazilian Truco, written in Verus: the library under
`src/` is verified against its contracts, apart from the trusted wrappers around
`smallvec`, `rand` and `rayon` (in `src/lists.rs`, `src/random.rs` and one in
`src/bot_analysis.rs`), whose contracts are taken on trust.

- `src/cards.rs`, `src/state.rs`, `src/rules.rs`: cards, hand state and the round and
  hand rules.
- `src/validation.rs`: normalization and validation of saved states.
- `src/engine.rs`: one hand — legal actions, applying actions, public and player views,
  export and restore.
- `src/game_match.rs`, `src/api.rs`: a match of consecutive hands and its API.
- `src/invariants.rs`: the laws every action keeps (well-formedness, progress, scoring,
  round trips).
- `src/ranges.rs`, `src/exploration.rs`: resolving hand and hidden-play ranges into a
  concrete match.
- `src/bot_analysis.rs`: exhaustive and sampled tactical analysis of a turn.
- `src/json_model.rs`, `src/fixtures.rs`, `src/oracle.rs`: the JSON subset check, fixture
  steps and the oracle's evaluations.
- `src/lists.rs`, `src/random.rs`: the trusted edges to `smallvec` and `rand`.
- `app/`: serializable copies of the types, the fixture runner and engine oracle front
  ends, and the Python bindings.
