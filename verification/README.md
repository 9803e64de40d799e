# Architectural Drift Detector

Checks the imports of TypeScript projects against a declared architecture: which
layers there are, which layers may depend on which, which imports are forbidden, and
which layers must go through the ports of another. It runs on the command line, in
CI, and as a language server.

## Layout

- `src/` is the library. Its functions have contracts that Verus proves, on trust in
  the items named below; what the library promises as a whole stands beside the
  functions as public proof functions.
  - `config` compiles a declared architecture, `validator` finds what breaks it;
  - `syntax` and `ast_engine` extract the imports of a file with tree-sitter;
  - `cache` and `store` keep the layouts of files and who imports whom;
  - `reporter`, `template` and `clock` write the HTML and Markdown reports;
  - `cli` and `lsp` decide what the command line tool prints and what the language
    server publishes;
  - `path`, `text`, `globs` and `error` are what the rest is built on.
- `app/` is the program around it: arguments, files, the YAML reader, JSON output and
  the server's plumbing.
- `tests/` runs the library on concrete values.

What the library takes on trust of other crates and of the standard library stands in
small items of its own, each with the outside function that it speaks of in its doc
comment. Verus believes their contracts and does not prove them.
