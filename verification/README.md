# antlr_gen

A parser generator front end for ANTLR v4 grammars, written in Verus. Every
function of the library states what it computes in its contract, and Verus
proves the code against it.

Given the grammar

```antlr
grammarSpec
    : grammarDecl prequelConstruct* rules modeSpec* EOF
    ;
```

the lexer produces the tokens `RuleID("grammarSpec")`, `Colon`,
`RuleID("grammarDecl")`, `RuleID("prequelConstruct")`, `Star`, ... and the
parser builds the rule `grammarSpec` with one alternative of five elements.
`grammar` is a keyword only as a whole word, so `grammarSpec` stays a name; a
grammar may open with a declaration `grammar NAME ;`, which the parser reads
and sets aside.

## Layout

- `src/lex.rs` — the grammar lexer, specified by a token grammar over characters.
- `src/parse.rs` — the recursive-descent parser, specified by a grammar over tokens;
  `lexing_returns` tells whether lexing an input comes to an end.
- `src/ast.rs`, `src/codeset.rs` — the syntax tree and its mathematical model.
- `src/symbols.rs` — the symbol table of a grammar and its string literals.
- `src/lower.rs`, `src/ir.rs` — lowering of rules into the intermediate form
  (`AntlrIR::new` for a whole grammar, its rules and tokens numbered by
  position, or `AntlrIR::from_ast` with a table of one's own); blocks become anonymous rules
  placed in an arena (`src/util.rs`).
- `src/analysis.rs`, `src/atn.rs` — name numbering and the ATN fragments of
  alternatives, with epsilon closures.
- `src/nth.rs` — the look-ahead search: the elements `n` tokens ahead of a
  position, with its cache of sets found and the steps already visited.
- `src/matching.rs` — the decision trees that parse a rule, built per
  alternative and merged into look-ahead tables.
- `src/langs.rs`, `src/langs/` — the C and Rust code emitted for rules,
  elements and decision trees, and the generated files.
- `app/main.rs` — the command line program: reads a grammar file, runs the
  library, writes and formats the generated files.
