# cgt_misere

Misère-play combinatorial game forms, verified with Verus.

The library models a game form as a tree of Left and Right options
(`misere::game_form::tree::GameTree`) and states every operation over that
model: outcome classes, P-free, dead-ending and blocking forms, integers,
conjugates, disjunctive sums, birthdays, parsing and printing, tipping points,
reduction modulo the P-free dead-ending universe, and the searches behind the
command-line tools.

Layout:

- `src/misere/game_form/` — forms kept in canonical order, their theory and
  the laws proved of it (`laws.rs`, `roundtrip.rs`), text in and out, random
  forms.
- `src/misere/p_free.rs`, `p_free_enumerate.rs`, `p_free_dead_ending.rs` —
  P-free forms, tipping points, the forms of the next day and the forms a
  counterexample shrinks to, comparison and reduction.
- `src/commands/p_free/` — the computations of the `order` and
  `outcome-table` tools, and those of the `list` tool for a dead-ending
  comparison that the user supplies (none is part of this crate).
- `src/bit_vec/`, `src/partizan.rs`, `src/result.rs`,
  `src/transposition_table.rs`, `src/subsets.rs` — small utilities.
- `app/main.rs` — the command-line program: argument handling, random
  sources, the interrupt handler and printing.
- `tests/` — tests run against the compiled library.
