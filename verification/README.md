# steiger

An architecture linter for Feature-Sliced Design projects, with its rules,
configuration scoping, import analysis and baselines verified by Verus.

## Layout

- `src/` — the verified library.
  - `fsd.rs`: the project model (layers, slices, segments, public-API
    index files, the source index) built from a list of files.
  - `rules/structural.rs`, `rules/import_rules.rs`: the rules, each with a
    specification of exactly what it reports.
  - `imports.rs`: which texts of a source file are parsed, and the import
    graph built from resolved specifiers.
  - `config.rs`: configuration documents, pattern compilation, and the
    severity of a rule for a file or a folder.
  - `engine.rs`: the rule loop, per-rule path ordering, severities, fixes.
  - `baseline.rs`: known diagnostics and the filter for new ones.
  - `reporter.rs`: the text pieces of the human-readable report.
  - `order.rs`, `path_utils.rs`, `text.rs`: orders, path and text helpers.
  - `bindings.rs` and the glob functions of `config.rs`: the contracts
    assumed of `std`, `strsim`, `pluralizer`, `regex` and `globset`.
- `tests/` — tests of the library on concrete projects.
- `app/` — the command-line program: argument parsing, walking the file
  system, parsing sources with Oxc, resolving imports, watching, printing.

Public proof functions (`lemma_*`) state the library's laws, such as the
precedence of later configuration overrides, the highest-severity rule for
folders, the order of each rule's diagnostics, and the baseline filter.
