# documented-toml

Merges the defaults an application ships into a person's TOML configuration,
keeping their values, comments, order, formatting and line endings. Lines the
application owns carry a marker (`##:` for prose, `#:` for TOML samples) and
are written again from the defaults on every merge; ordinary `#` comments
belong to the person and stay where they were.

The library is written in Verus: each function states what it returns in
`requires` / `ensures`, and Verus proves the code against those contracts.

## Layout

- `src/text.rs`: the character-level model of a document (lines, white space,
  trimming) that the other modules' contracts are stated over.
- `src/decor.rs`: comment markers and the classification of the lines above a
  key (prose, sample, the person's own), with the laws on what a marked line
  reads back as.
- `src/standing.rs`: standing text under a table header, split into runs of
  blank and non-blank lines.
- `src/model.rs`: the plain-value tree of keys, values and tables that the
  merge walks, with its spec of which dotted names it holds.
- `src/toml.rs`: the calls into `toml_edit` (parsing, spans, rendering), each
  behind a small trusted wrapper whose contract says what the call gives back.
- `src/path.rs`: dotted key paths, kept non-empty through `nonempty`.
- `src/template.rs`: the defaults read as a template: which names they declare
  and what documentation stands above each.
- `src/merge.rs`: the merge itself, with the laws that no key of the person is
  dropped, their values and comments stay, unknown keys are reported and
  missing tables are materialised.
- `src/align.rs`: value alignment within a run of neighbouring keys.
- `src/report.rs`: diagnostics, with positions computed from byte spans.
- `src/options.rs`, `src/anchor.rs`, `src/cli.rs`, `src/source.rs`: options,
  rename rules, command-line parsing and parsed sources.
- `app/main.rs`: the command-line program (file reading and writing).
- `tests/`: executable tests of the library on concrete documents.
