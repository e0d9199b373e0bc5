# fandango_targets

Scenario generators, constraint checks and coverage bookkeeping for grammar
targets, written in Verus: every function in `src/` carries a contract that
Verus proves, except the small trusted wrappers (`#[verifier::external_body]`)
around `rand`, `hashbrown` and a few std calls, whose contracts are taken on
trust from those libraries' documentation and source.

- `alpenglow` — the simplified Alpenglow scenario format: a committee with
  roles, and per slot four block identifiers, every validator's first-round
  votes and the observer's second round, which is simulated from the first.
  Rendering, parsing (with the exact complaint for malformed text),
  validation and random generation; parsing a rendered scenario gives it
  back, and generated scenarios validate.
- `alpenglow_two_rounds` — the two-round variant with staked validators.
- `coverage` — k-path coverage and its state file; writing and reading back
  a state file gives the same covered paths.
- `altpath` — k-alt-path enumeration over a grammar graph (from its nodes
  reachable from the start, or from its edges) and the counting of
  alt-paths seen in generated trees, over `hashbrown` collections; a
  removing walk undoes an inserting one.
- `targets` — the other grammar targets, and the scope repair of Yul.
- `cli` — the command line.
- `text`, `format`, `rng` — character-level text handling, the shared line
  formats, and the random choices drawn from `rand`.

`app/` holds the program around the library: argument reading, file and
standard-output I/O, the clock, and the state-file I/O.
