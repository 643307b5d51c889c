# array_vis_bench

A catalog-driven toolkit for benchmarking and visualising sorting algorithms
and their building blocks (rotations, partitions, merges, small sorts), written
in Verus: the library under `src/` is verified, with each public function's
behaviour stated in its `requires` / `ensures`.

## Layout

- `src/` — the verified library.
  - `registry`, `lexer`, `spec_lang`, `avbs`: the component catalog and the
    two query languages, parsed from text.
  - `resolve`, `enumerate`, `cardinality`, `solve`, `semantics`: resolving a
    spec tree to a Rust type, enumerating every tree of a role, estimating
    sizes before anything is built, and solving a query into its distinct
    ground sorts (with the laws tying counting to enumerating, and the
    estimate's ground to its peak).
  - `emit`, `drivers`, `avb_emit`, `codegen`: the generated registration code.
  - `sorting`, `rotations`, `partition`, `batteries`: the algorithms, the
    events they report to a `SortLogger`, and the correctness batteries.
  - `abi`, `bench_registry`, `benchmark`, `demo`: the runtime surface, input
    generation, the adaptive benchmark's decisions and its metrics.
  - `text`: string helpers, and the few trusted calls into std and `rand`.
- `app/` — the executable around it: clock, printing, the global menu and the
  link-time algorithm registry.
- `tests/` — tests run against the compiled library.
