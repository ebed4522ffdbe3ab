# cargo-sift

Reachability garbage collection for Cargo `target/` directories: read
`Cargo.lock` and the workspace manifests to learn what the project resolves to,
reconstruct the build units sitting in `target/`, and remove only the units the
current build graph can no longer reference.

The decision logic is a Verus library under `src/`, with contracts proved by
Verus:

- `toml_doc` — parsing TOML text (through the `toml` crate) into a plain model.
- `resolve` — the live set computed from `Cargo.lock` and member manifests,
  target-name reconstruction, workspace member patterns.
- `units` — unit reconstruction from listings of a profile root: name/hash
  splitting, depfile version pinning, marker classification.
- `gc` — the removal plan, its per-reason tally and the outcome totals.
- `discovery` — the target-directory fence and de-duplication of targets.
- `human`, `report` — size formatting and the lines printed for each target.

`app/` holds the command-line program: argument parsing, walking the file
system, deleting files, and printing.
