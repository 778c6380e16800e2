# odenwald

A decoder for synchronous context-free grammars (SCFG), as used in
machine translation, written in Verus: the library under `src/` is
verified, the command-line program under `app/` is ordinary Rust around it.

Given a grammar, feature weights and input sentences, the program parses each
sentence bottom-up with the grammar's source sides, builds the hypergraph of
the derivations, picks the best one under the Viterbi semiring and prints its
target side with its log score:

```
odenwald -g <grammar> -w <weights> [-i <input>] [-l] [-p]
```

- `-g, --grammar`: grammar file, one rule `[X] ||| source ||| target [||| name=value ...]` per line
- `-w, --weights`: weights file, one `name value` per line
- `-i, --input`: input file (default: stdin)
- `-l, --add-glue`: add glue rules
- `-p, --add-pass-through`: add pass-through rules

Output: `translation ||| log_score` per input line.

## Layout

- `src/text.rs`: text helpers (trimming, splitting, decimal numbers) with
  their specifications.
- `src/features.rs`: feature names with the text of their values.
- `src/grammar.rs`: symbols, rules, rule indexes and grammars.
- `src/parse.rs`: items, charts, the bottom-up parser, its soundness and
  its completeness for the rules with nonterminals.
- `src/hypergraph.rs`, `src/hypergraph_algos.rs`: hypergraphs, the
  topological sort (Kahn's order), derivations and the distinct derivations.
- `src/chart_to_hg.rs`: the hypergraph of a parse.
- `src/hypergraph_io.rs`: a hypergraph from stored records.
- `src/semiring.rs`: the Viterbi semiring.
- `app/`: the program: files, JSON, floating-point scores and the Viterbi search.
