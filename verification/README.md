# magicraid_sim

A deterministic, turn-based battle simulation for a small roguelite (a mage against
imps, rune eyes and a golem, with oil, fire, wooden walls, spikes and haste runes),
written and proved in Verus.

`step(state, run, action)` applies one player action and runs the time chain until
the mage's turn comes back; it returns the events of the step and the turn status.
Time is kept in whole units of 1/6, so nothing depends on floating point, and every
random draw comes from a seeded generator.

## Layout

- `src/` — the verified library
  - `state.rs`, `config.rs`, `events.rs` — battle state, constants and rooms, events
  - `grid.rs` — board queries, line of sight, area shapes
  - `time_chain.rs` — who acts next; clock arithmetic
  - `damage.rs` — damage, death, the per-step context
  - `movement.rs` — push, pull, walking, integer A* path finding
  - `terrain.rs` — oil ignition and the fire cellular automaton
  - `spells.rs` — spell data, legality checks, effects
  - `ai.rs` — enemy turns
  - `roguelite.rs` — hashing, the generator, picks, offers, room and base loading
  - `ready.rs` — run-time check that a state may take its next step
  - `turns.rs` — the relation one step establishes between states, turn by turn
  - `harness.rs` — a baseline agent, and recording and replaying whole runs
  - `determinism.rs` — a step, and a whole run, has one outcome: states with the same
    content give the same results, so replaying a run's operations gives it back and
    the agent's trace for a seed and budget is one text
  - `render.rs` — the JSON view of a battle and of a step's events for the browser
  - `trace.rs` — a step-by-step JSON trace of one agent run
  - `lib.rs` — actions, `step`, and the projected turn order
- `tests/` — scenario and regression tests
- `app/` — a command-line driver for the agent and the trace, and the browser
  binding (a C ABI exchanging JSON)
