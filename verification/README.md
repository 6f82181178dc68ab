# pit

A price-time priority limit order book with self-match prevention, written
in Verus and proved correct, and the integer core of a small market
simulation built on it.

## Layout

- `src/` is the verified library.
  - `order.rs`: prices (ticks), quantities (lots), sides, fills, events.
  - `model.rs`: the abstract book (both sides in price-time priority) and
    what submitting, matching and canceling do to it.
  - `book.rs`: the engine. Each operation is proved to do exactly what
    `model.rs` says, and to keep the book's invariant: sides in priority
    order, quantities positive, ids unique, the index exact, and the book
    never crossed.
  - `laws.rs`: matching conserves quantity, trades at the resting price,
    never trades an owner with itself, takes the best order first, and an
    immediate-or-cancel order never rests.
  - `naive.rs`: a brute-force book that scans every resting order for the
    best one on each step, and the proof that the engine emits the same
    events and replies as it on every stream of operations.
  - `rng.rs`, `makers.rs`, `sim.rs`: the PCG32 generator, the market
    makers' quoting rules, and the simulation's accounts, tape, desks and
    order housekeeping, with settlement proved to conserve cash and
    inventory.
- `tests/`: the engine's unit tests, the randomized comparison against a
  naive book, and tests of the simulation core.
- `app/`: what runs on floating point (fair value, the agents' fractional
  decisions, the makers' quote centres) around the verified core, and the
  WebAssembly bindings.
