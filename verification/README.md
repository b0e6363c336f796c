# rustorio_game

Helpers for Rustorio saves that run a batch of work on a whole row of
furnaces or assemblers at once, and bootstrap a standard game with miners.

- `src/` is the verified library (Verus): how a batch is split over machines
  (`requirement`), what each machine of a round is handed, when the round is
  done and what is collected back (`parallel`), the mining and bootstrapping
  decisions (`mining`), and the build-time limits (`settings`).
- `app/` is the ordinary Rust that plays the game through the `rustorio`
  crate, and asks the library for every decision.
- `tests/` runs the library on concrete values.
