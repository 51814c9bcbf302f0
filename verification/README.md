# glr

A GLR parser generator, verified with Verus.

The pipeline: `notation::grammar_gen` reads grammar rules written as
`name = atoms | atoms ...` (quoted terminals, token names, `?` `*` `+`
repetitions and parenthesised groups); `table::create_grammars_hashmap` groups
the rules by symbol; `automaton::create_table` builds the LR(1) automaton and
its action and goto tables; `lex::gen_lex` turns a program into tokens with a
regex built from the grammar's quoted texts and a list of token classes; and
`parser::parse` runs the tables on the tokens, splitting where several entries
apply, and gives the tree stack of every branch (`parser::parse_bounded` does
the same with a bound on the steps of each branch).

Layout of `src/`:

- `grammar`: atoms and grammar rules.
- `strings`, `order`: comparisons of strings, atoms and items; sorting of items.
- `table`: grouped rules, first sets, closures, goto, and the rows of a state.
- `automaton`: the tables of the whole automaton.
- `states`, `laws`: facts about states and about the tables built.
- `lookups`: which atom each entry of the first-terminal cache was computed
  for, and why the closures do not depend on the cache.
- `uniqueness`: two builds of the tables from the same grammar agree.
- `reach`: which rules building the tables reaches, and whether they fit;
  `automaton::try_create_table` builds the tables after that check.
- `leaves`: the tokens under the trees a parse gives come in input order.
- `model`: the build of the tables step by step, as spec functions: first
  terminals in the order they are found, lookups through the cache, closures
  in the order their items are taken, gotos, rows and the whole build.
- `notation`: the grammar reader, and `try_grammar_gen`, which says when a
  text cannot be read.
- `regexes`: the calls into the `regex` crate.
- `lex`: the token regex and the lexer.
- `parser`: syntax trees and the parser.
- `sequitur`: naming of repeated pairs of atoms.

`app/` holds the demonstrations that read grammars and programs from files and
print the trees.
