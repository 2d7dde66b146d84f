# pascal_lsp

The workspace model of a Pascal language server, written and proved in Verus: which documents a
client has open, which sources are kept and in which project they are read, what a change of a
file makes stale, which findings are reported for which document, and how much work a batch of
notifications may cost.

- `src/` is the library. Its public functions have contracts, stated over mathematical views of
  the library's types, and Verus proves each of them; only of those that read or set a
  cancellation flag, which other threads share, nothing is stated. Public proof functions whose
  names begin with `law_` state what holds across functions. The few calls into `globset`,
  `lsp-types` (for its URLs and diagnostics), `serde_json` and the standard library that Verus
  takes on trust are small functions whose doc comments say what is claimed of them.
- `tests/` runs the library on concrete values.
- `app/` is ordinary Rust around the library. It reads the file system and the clock, speaks to
  the parser, the project model, the linter and the formatter through traits, and performs what
  the library decides.

Steps that need the outside world are machines: a function takes what was learned and returns what
is to be done next. Paths are Unix paths, whose names are bytes that need not be text; URIs are
held as texts, and times are milliseconds.
