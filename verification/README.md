# crub_graper

A Cargo-like build tool for C++ projects that use modules, with its build
logic verified in Verus.

- `src/` — the verified library: the manifest types, the module dependency
  graph (held in a `petgraph` graph), deep content hashes for caching
  (SHA-256 via `sha2`, hex via `hex`), wave scheduling of compilations,
  compiler/linker command lines, `compile_commands.json` entries, reading
  module declarations from source lines, and error messages.
- `app/` — the command-line program: argument parsing (`clap`), reading
  `Crub.toml` (`toml`/`serde`), walking the source tree, running the compiler
  processes (`tokio`), the progress display (`indicatif`, `colored`) and
  writing JSON (`serde_json`).
- `tests/` — tests of the library's public functions.
