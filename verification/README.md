# skillet

Skillet compiles skills written in `.pan` files into plain `SKILL.md` files,
records what each build produced in `skillet.lock`, checks that outputs are
fresh, lints skills (oversized sections, unused fragments, untyped backticks,
duplicated passages across skills) and reports token budgets.

The library in `src/` is verified with Verus; every public function states
what it returns in its contract. Reading and writing files, walking
directories, the process environment and the command line live in `app/`,
which hands the library plain values.

Layout of `src/`:

- `compiler/` — the `.pan` lexer, parser, reference checker and compiler;
  `skillet_compiler/` is the first front end (source and lexer).
- `compile.rs` — the build pipeline on one source: front matter, fragment
  includes, typed references, the structured ref inventory.
- `workspace/` — the resolved workspace; `discover.rs` holds the discovery
  rules (which entries are skills, agents, scripts, references, fragments).
- `build_plan.rs` — which skills a build compiles, what it records in the
  lockfile, and the rebuilt fragment records.
- `freshness.rs` — `skillet check`: the lockfile against the files on disk.
- `lint/` — the lint pipeline and its rules; `duplication.rs` is the MinHash
  and LSH near-duplicate detector.
- `budget.rs` — token budgets per skill and the text table.
- `init.rs`, `publish.rs`, `config.rs`, `lockfile.rs` — workspace layout,
  adoption of existing outputs, plugin entries, configuration and lockfile
  values.
- `collections.rs`, `text.rs`, `hashing.rs`, `patterns.rs`, `refs.rs`,
  `parse.rs`, `tokens.rs` — sorted string maps and sets, text helpers, hashes,
  regular-expression matches, reference extraction, front matter, token
  counts.
