# crewai

Orchestration building blocks for multi-agent crews and flows, with the
decision logic verified by Verus.

## Layout

- `src/` — the verified library.
  - `events/` — event scope tracking (parent, previous and triggering event,
    emission sequence), handler dependency scheduling, handler tables.
  - `flow/` — flow conditions and their parsing, trigger bookkeeping for
    "OR"/"AND"/router listeners, flow-structure analysis (ancestors,
    parent/children maps, breadth-first levels, execution paths), human
    feedback configuration and resumption decisions, flow state (id and
    keyed JSON data).
  - `hooks/` — combining the answers of before/after hooks and agent hooks.
  - `drivers/` — the subject–predicate–object graph driver (fixed-point
    scores), XOR-distance gating history, barrier vocabulary.
  - `crew.rs`, `crews/`, `experimental/`, `providers/` — crew memory reset,
    kickoff helpers, executor and evaluation settings, provider slots.
  - `text.rs` — string helpers with contracts (trimming, ordering, case).
- `app/` — the runtime around the library: thread-local context, global
  registries, the asynchronous event bus, flow execution with persistence,
  HTML rendering, and the floating-point drivers.
- `tests/` — tests of the library.

## Not included

- The four-layer barrier stack (outbound and inbound checks) composes a
  triune persona layer that this crate does not have, and its verdicts are
  floating-point scores; only its block-reason vocabulary is here
  (`drivers::barrier_stack`).
