# race_poker

Poker game logic for the Race protocol (cash tables, sit-and-go tables,
multi-table and long-running tournaments), written in Verus: every function
of the library carries a contract, and Verus proves the code against it.

## Layout

- `src/` is the verified library.
  - `holdem_evaluator.rs`, `omaha_evaluator.rs`, `card_views.rs`: hand
    evaluation, stated over the cards as sequences of strings.
  - `essential.rs`, `game.rs`, `hand_history.rs`, `effect.rs`, `event.rs`,
    `account.rs`, `errors.rs`: the state of a table, the commands a handler
    gives back (`Effect`), the events it takes.
  - `settle.rs`, `showdown.rs`, `handler.rs`, `variant.rs`: a table's hand,
    from the blinds to the settlement, as a function from state and event
    to the next state and the commands.
  - `mtt_base.rs`, `mtt_table.rs`, `mtt.rs`, `ltmtt.rs`, `ltmtt_player.rs`:
    tournaments, their tables, seating and balancing, prizes.
  - `laws.rs`, `tournament_laws.rs`: properties that relate several
    functions, stated as proof functions.
- `tests/` runs the library on concrete hands and tournaments.
- `app/` connects the library to the `race-api` transactor interface: it
  converts between the protocol's event and effect types and the library's,
  and carries the serialisation derives the library's types cannot have.

## Checking

The library verifies with Verus; the tests run with the outside crates
named in `Cargo.toml` linked.
