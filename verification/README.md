# agent_harness

A command-line tool that installs a shared agent harness into a project,
updates the pinned revision, regenerates the derived files and checks that
they are in sync.

- `src/` is the verified library: the command line, the pin document, the
  expected contents of every generated file (`AGENTS.md`, the import file,
  the hook settings of each tool, the opencode plugin, the managed block of
  `.gitignore`), environment files and credentials, sorted listings of names,
  and the comparison of directory trees. Its contracts and laws are checked
  by Verus.
- `app/main.rs` is the program: it reads and writes files, runs `git`,
  prompts on the terminal, and hands file texts to the library, which parses
  and writes JSON through `serde_json`.
- `tests/` runs the library on concrete values.
