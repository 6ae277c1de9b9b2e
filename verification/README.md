# pipeline_utils

BLAKE3 checksumming, batch copying, USD dependency graph analysis and USD layer
stack resolution for UE5/VFX asset pipelines, with the logic verified by Verus.

## Layout

- `src/` — the verified library.
  - `text.rs`: characters of strings, `str::trim`-style trimming, ASCII-case
    comparison, and the `@...@` asset reference scanner with its exact
    specification (`references`).
  - `dep_graph.rs`: `EdgeMap` (node name to references, no name twice),
    depth-first cycle detection proved sound and complete (`detect_cycle`
    returns exactly whether the graph has a closed walk), `build_graph`.
  - `checksum.rs`: BLAKE3 digest (through `blake3::hash`) in lower-case hex,
    and verification against an expected digest up to ASCII case.
  - `usd_resolver.rs`: the layer stack resolver as a state machine that asks
    its caller to canonicalize paths and read files; each step has an exact
    contract, every reachable state keeps the invariant `well_formed`, and
    `lemma_resolution_agrees` proves that, answered by any fixed file system,
    it ends with exactly the recursive resolution `resolve_layer`.
  - `config.rs`, `batch_processor.rs`, `error.rs`: configuration defaults,
    the batch extension filter and result collection, and the error type.
- `app/` — the `pipeline` command: argument parsing (clap), file system work
  (walkdir, rayon, `std::fs`), JSON output (serde), error messages (thiserror).
- `tests/` — tests of the library.
