# proof_checker

A natural deduction proof checker for propositional logic, verified with Verus.
Statements name their arguments (`infer` marks those that a use of the statement
infers by unification), list their hypotheses and conclusion, and carry a proof
tree of rules (`Ax`, `AndIntro`, `ImpElim`, ...) or of earlier statements.

```
Prop AndComm(infer p, infer q):
  q.p => p.q
Proof:
  AndIntro:
    AndElimRight(q):
      Ax
    AndElimLeft(p):
      Ax
```

## Layout

- `src/ast.rs`: formulas, proofs, statements, their mathematical views and how they are written.
- `src/lexer.rs`: the indentation-sensitive lexer, specified step by step (`spec_next`, `spec_lex`).
- `src/parser.rs`: the recursive descent parser, specified by the grammar functions `sp_*`.
- `src/unification.rs`: substitution and the matching of a statement's conclusion against a goal.
- `src/checker.rs`: the proof checker, specified by `run_proof`, and its laws (weakening,
  hypothesis inference).
- `src/soundness.rs`: every accepted proof that admits nothing is valid under every valuation.
- `src/stream.rs`: the contracts on the `multipeek` stream that the lexer and parser read.
- `app/main.rs`: reads a file, checks its statements in order and reports each verdict.
- `tests/`: scenarios for every part.
