# rules_rust_tools

The parts of the Rust rules for Bazel that decide and compute, verified with
Verus: rust-analyzer project discovery and its cache, the on-save build, editor
setup, label injection for crate annotations, the wrapper and the runner of
compiled doc tests, and the documentation server.

- `src/` is the library. Every function states what it returns, and Verus proves
  it. Paths (`camino`), documents with comments (`jsonc_parser`) and JSON
  (`serde_json`) are behind small trusted functions in `paths.rs`, `jsonc.rs`,
  `json.rs` and `launcher.rs`.
- `tests/` runs the library, with those crates linked.
- `app/` is the programs around it: command lines, files, processes, and the
  JSON shapes of the library's types.

| Module | What it is about |
| --- | --- |
| `text`, `order`, `string_map`, `json`, `paths`, `jsonc` | strings, total orders and sorted sets, sorted maps, JSON values, paths, documents with comments |
| `crate_spec`, `rust_project`, `cycles` | the crates of a build, the project made of them, and what is wrong with it |
| `discovery`, `generate`, `cache`, `user_config` | the course of a discovery |
| `flycheck` | the build on every save |
| `settings`, `snippets`, `setup`, `launcher` | editors |
| `label_injection` | apparent and canonical labels |
| `rustdoc_wrapper`, `rustdoc_runner` | compiled doc tests |
| `mdbook` | the documentation server |
| `multi_buf` | a file in chunks |
