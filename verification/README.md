# approval_distribution

The decisions that a node of a validator network makes when it gossips assignments and votes of
approval voting: whom to send a message to, what to make of a message that comes in, when to send
again, and how to score the peers.  They are executable Rust, with contracts that Verus proves.

- `src/` is the library.  `subsystem.rs` has the entry points: an `Event` goes into
  `State::handle`, actions come out of `State::take_actions`, and the checks that the node waits
  for go into `State::finish_assignment_check` and `State::finish_approval_check`.  Each of them is
  specified as a function on `Node`, the mathematical model of a `State`.
- `laws.rs`, `delivery.rs`, `dispatch.rs`, `invariants.rs`, `stories.rs`, `outbox.rs` and `welcome.rs`
  state and prove what holds of the model as a whole; laws about a single part stand beside it.
- `fixtures.rs` makes up networks and certificates.
- `tests/` runs the library, `app/` moves its events and actions through asynchronous channels.

Calls into other crates are not proved: the draws of a seeded generator in `random.rs`, and the random
numbers, keys and signatures of made-up peers and certificates in `fixtures.rs`.
