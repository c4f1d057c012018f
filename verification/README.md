# brotaparser

A parser and compiler for architecture description documents, verified with
Verus.

A document declares a profile, a root path, the layers of a feature and the
dependencies between them:

```text
profile feature-clean@0.1
root "src/app/features/{feature}"

layer domain
layer application

depends application on domain
```

`parse` reads the syntax (one declaration per line; see `src/syntax.rs` for
the grammar). `compile` checks the document against the `feature-clean`
profile and either refuses it with every diagnostic found, in the order of the
checks, or yields a contract in which symbols and dependencies are sorted, so
that the order of declarations does not matter.

Layout:

- `src/` — the verified library: `syntax` (grammar and parser), `semantic`
  (checks and compilation), `graph` (cycle search), `diagnostics`, `ast`,
  `contract`, `text` (order of strings, sorted sets, substrings at byte offsets).
- `tests/` — tests of the library.
- `app/` — the command-line program: reads a file or standard input and prints
  the contract, or the diagnostics, as JSON.
