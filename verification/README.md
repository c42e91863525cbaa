# terra

A verified translator for terra, a tiny line-oriented scripting language
whose programs are turned into the body of a Rust `main`.

- `src/text.rs` — characters and text: names, numbers, trimming, comments,
  lines, escaping, decimal numbers; each with a spec over `Seq<char>`.
- `src/ctx.rs` — the translation state (declared variables, mode, hoisted
  declarations) and binding a name.
- `src/translate.rs` — one statement to one Rust statement or an error;
  `translated` is the specification of the grammar.
- `src/compile.rs` — splitting a program into numbered statements, the two
  passes (labels, then translation) and assembling the flat body or the
  state machine; `compiled` is the specification of a whole program.
- `src/laws.rs` — properties that span these: binding, what a rejected
  statement leaves, reserved words, the shapes of assignments, jumps and
  quits, escaping, diagnostics, and programs without labels or jumps.
- `src/layout_laws.rs` — comments, the statements of a line joined back
  with `;`, line numbers, indentation.
- `src/semicolon_laws.rs` — statements on separate lines or joined with
  `;` make the same program.
- `app/main.rs` — the command line: reading the script, printing errors,
  writing and running the generated crate.
