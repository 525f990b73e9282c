# shakehand

Compile-time internationalisation: a `locale!` macro turns a directory of
TOML translation files into a Rust module with a `Languages` enum, a
fallback solver and one struct of translation functions per file.

This crate holds the decisions behind that module, verified with Verus:

- `src/input.rs`: the macro arguments (`"path", fallback = "lang"`).
- `src/scan.rs`: which files of the locale directory are translation files.
- `src/document.rs`: one TOML file read into translation entries and their
  `%{param}` parameters; `src/text.rs` holds the placeholder grammar.
- `src/naming.rs`: method, struct and module names from keys and file names.
- `src/fallback.rs`: fallback chains, their cycles, and the solver's table.
- `src/trie.rs`: the character trie behind `Languages::from(&str)`.
- `src/plan.rs`, `src/locale.rs`: the plan of the whole module.
- `src/render.rs`, `src/runtime.rs`: what the module does when it runs:
  current language, name lookup, fallback walk and `format!` rendering.
- `src/laws.rs`: properties of the library as a whole.

`app/lib.rs` is the macro itself: it reads the directory, the manifest and
the macro input, and writes the library's plan out as tokens.
