# portrait

The front end and checker of the Portrait covenant language, its
deploy-order planner, and the obligation generator that turns covenant
transitions into SMT-LIB queries, written in Verus with their behaviour stated
as contracts and proved.

- `src/` is the verified library: tokenizer, grammar and parser (`lexer`,
  `grammar`, `parser`, `ast`, `model`, `render`), the structural and semantic
  checks (`structure`, `clauses`, `typing`, `conserve`, `authority`, `refine`,
  `settle`, `gates`, `checker`, `advisor`), the planner (`plan`), the SMT-LIB
  encoding and obligations (`encode`, `smt`, `vc`, `obligations`), the
  solver protocol and counter-model replay (`sexpr`, `solve`, `validate`) and
  the structural check of an emitted script against its program
  (`translation`).
- `app/` runs the `z3` binary and drives the protocol of `solve` with its
  replies.
- `tests/` exercises the library on concrete programs, queries and replies.
