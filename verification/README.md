# martian_robots_verify

The contract for the Martian Robots CLI, and the conformance suite that
enforces it, as a library whose behaviour is stated in contracts and proved
with Verus.

## Layout

- `src/` — the library. Every function is verified except the small
  trusted wrappers (marked `#[verifier::external_body]`) that call std or
  `toml`: `string_of`, `decode`, `push_debug` and
  `push_char_debug` in `text`, `lossy` in `render`, `clock_reading` in `rng`,
  and `parse_toml` and `toml_value` in `tables`.
  - `data`, `tables`, `raw`, `grammar`, `contract`, `render`: the contract as
    data (limits, rulings, grammar, template), read, checked for coherence and
    rendered as one document.
  - `mission`, `text`: missions, their canonical spelling, and the reader the
    generators check themselves against.
  - `rng`, `drawing`, `spelling`, `mutation`: the seeded stream and the
    generators that draw missions, respell them, and break them.
  - `reference`: a second simulation, written from the contract.
  - `properties`, `expect`, `run`, `cases`: the judges and the hand-written
    catalogue.
  - `modes`: the generated modes as runs a caller drives.
  - `reading`, `faithful`, `answers`: laws that span modules — what is written
    reads back, the generators never trip their own checks, a program that
    answers by the mission alone never diverges, a correct answer violates no
    property, a whole run of each generated mode reports what it should,
    and a canonical number is exactly its decimal spelling.
- `tests/` — the suite's own tests, run against the compiled library.
- `app/` — the program: arguments, running the implementation under test, and
  printing.

## Running

```
cargo run --quiet -- --contract
```

writes the contract to stdout as one document.
