# lr1

Given a context-free grammar, builds its canonical LR(1) automaton, tells whether the grammar
is LR(1), and parses token sequences, printing the rightmost derivation.

The library is written in Verus and its behaviour is stated in contracts that Verus proves.

## Layout

- `src/grammar.rs`: symbols, productions, grammars, and the augmentation with a fresh start
  symbol and end marker.
- `src/line.rs`: reading a production from a line `A -> x y ...`.
- `src/symbols.rs`, `src/analysis.rs`, `src/bits.rs`: the grammar over symbol indices, and the
  nullable, first and follow sets as the least solution of their equations.
- `src/derive.rs`: the nullable and first sets are those of derivations.
- `src/context.rs`: the analysis context of a grammar, and the string-level `is_nullable` and
  `get_first`.
- `src/closure.rs`, `src/dfa.rs`: LR(1) items, their closures, and the automaton.
- `src/parser.rs`: the parser, conflict detection.
- `src/driver.rs`, `src/tree.rs`, `src/run.rs`: the shift-reduce parse, its parse trees, and the
  moves of the parse that its outcome is stated by.
- `src/complete.rs`: when the automaton has no conflict, every sentence of the grammar is
  accepted.
- `src/format.rs`, `src/order.rs`: the text of an item, with its lookaheads in string order,
  and the order in which a state's items are listed.
- `app/main.rs`: the command-line program, `lr1 <path_to_cfg> <path_to_input>`.

The grammar file holds the number of non-terminals and one per line, the number of terminals
and one per line, the number of productions and one per line, then the start non-terminal.
