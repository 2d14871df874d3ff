# lib

A small list language: text is split into tokens, read into expressions, and
evaluated against a model of scoped bindings.

- `src/reader.rs` — `tokenise` and `parse`, proved against a specification of
  the token stream and of reading; `src/numeral.rs` decides which tokens are
  numbers, following the documented grammar of `f64::from_str`.
- `src/semantics.rs` — the meaning of evaluation as spec functions, bounded by
  a depth of nested evaluations; `src/eval.rs` — the evaluator, proved to
  compute exactly that meaning: `eval_bounded` within a given depth (nothing
  where that is not enough or a form is not implemented), `eval` for programs
  that finish.
- `src/model.rs` — the scopes of bindings; `src/display.rs` — the text of an
  expression; `src/oexp.rs`, `src/error.rs` — the data.
- `src/laws.rs` — properties of the whole: the result does not depend on the
  bound once evaluation finishes, evaluation changes only the innermost scope,
  a definition is read back, a program without `.` leaves the model as it was,
  a conditional chooses its branch, reading consumes exactly one balanced form,
  a program whose text balances its parentheses reads as one list with one
  element per top-level form, each token is a parenthesis alone or holds
  none, and the tokens keep every non-white character and do not depend on
  white space.
- `app/` — `f64` values, comparison and text of numbers, which the verified
  library takes as arguments.
