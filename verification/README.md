# FinOps

A small personal-finance service: accounts, budgets and the expenses booked
against them, served as a JSON API.

- `src/` is the verified library (Verus). `routes::handlers` holds what each
  request reads, changes and answers; `services::analytics` adds up a budget's
  spending; `services::sorting` sorts listings stably by description;
  `state` keeps the records in `BTreeMap`s keyed by `u128` identifiers;
  `laws` proves how the operations fit together (a read gives back a write,
  listings are determined permutations, spending follows every change).
- `app/` is the HTTP server (axum, tokio): routing, JSON shapes with UUIDs,
  the shared lock, and the float utilization of a summary.
- `tests/` exercises the library.

`app/main.rs` starts the server on `0.0.0.0:3000`.
