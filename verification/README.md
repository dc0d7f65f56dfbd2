# sed_rs

A portable subset of `sed`: `s/pattern/replacement/flags` commands, any
delimiter, flags `g` and `i`/`I`, BRE escapes translated to the regex
engine's syntax, and sed replacement tokens (`&`, `\1`..`\9`, `\n`, `\t`).

- `src/` is the verified library (Verus):
  - `text.rs`: character helpers, trimming, the std character classes used;
  - `escapes.rs`: BRE-to-ERE pattern translation and replacement templates;
  - `command.rs`: splitting an expression into commands, reading the fields
    of an `s` command, `ParseError`;
  - `pattern.rs`: the calls into the `regex` crate;
  - `sed.rs`: `SubstCmd`, `Sed::parse`, `Sed::apply`, and the laws that tie
    several expressions to sequential application.
- `app/` is the command-line program (`-e` expressions, stdin to stdout). It
  also holds `process`, which reads lines from a `BufRead`, applies
  `Sed::apply` to each and writes the results to a `Write`: that reading and
  writing is I/O, so it is not a method of the library's `Sed`.
- `tests/` runs the library on concrete inputs.
