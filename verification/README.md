# anza_xtask

Workspace maintenance tasks for Cargo repositories — bumping the version of
the workspace members (or of the single crate of a one-crate repository),
checking that a bump touched nothing but version fields, checking
dev-dependencies between workspace members, and sizing parallel jobs — with
the decisions written in Verus and proved against their contracts.

Layout:

- `src/commands/` — the three commands: `bump_version` (the next version, the
  edit of one manifest, the package-set check of a lock file), `dev_deps`
  (the dev-dependency check) and `jobs` (the job count from memory, CPUs and
  the environment).
- `src/utils/` — what the commands share: `bump` (which fields a bump may
  change, leaf-by-leaf manifest comparison, lock file comparison), `cargo`
  (manifest fields, workspace members), `git` and `fs` (what git's answers and
  a repository walk mean), `toml` (a plain model of a `toml_edit` document),
  `version` (semantic versions, parsed by `semver`), `ordmap` (an ordered map)
  and `text` (character-level helpers).
- `app/` — the `cargo anza-xtask` command line: arguments, logging, files,
  git, `cargo metadata` and `cargo tree`.
- `tests/` — tests of the library on concrete values.

Parsing and editing TOML is done by `toml_edit`, version parsing and
pre-release validation by `semver`; the contracts of those calls are the
trusted part of the library.
