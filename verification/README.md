# polars_engine

The planner of an in-memory query engine, and run-length encoding of columns, written in
Verus on top of the polars crates.

- `src/planner.rs` turns a logical plan (`polars_plan`'s `IR` nodes in an arena) into a
  physical plan, an `Executor`. `src/physical.rs` says which physical plans and which errors
  may come of a logical plan, `src/order.rs` in which order nodes leave the arena;
  `src/outcomes.rs` says when planning fails, `src/planner_laws.rs` what else holds of it as
  a whole.
- `src/decisions.rs` and `src/sources.rs` hold the choices that planning makes: whether a
  filter streams, which rows and files a scan reads, whether a join runs in parallel.
- `src/checks.rs` and `src/graph.rs` check a plan before it is planned.
- `src/rle.rs` encodes a column by its runs; `src/rle_laws.rs` states what holds of the
  encoding.
- `src/column.rs`, `src/logical.rs`, `src/expression.rs`, `src/state.rs` and
  `src/outside.rs` hold what the library takes for granted of polars' types and functions.
- `app/` wraps the library in polars' own error type and reads the environment.

Polars calls into functions of its users when it computes types and schemas. Such a call may
give different answers, or never come back. The contracts therefore speak of the set of
outcomes that a call of polars may have. `create_physical_plan` asks that each set has one;
`checked_create_physical_plan` asks nothing and leaves a plan alone where it cannot tell.
Likewise `checked_rle` leaves a column alone where it is not known that polars comes back
from comparing its rows.

The string cache and the rows of a fetch may change while planning goes on. A
`ConversionState` says of each whether it is given or looked up at every node that depends on
it; only for what is given can a contract say which flag or slice comes out.
