# lark

A parsing library: grammars that have been lowered to symbols and rules are
parsed by an LALR(1), an Earley or a CYK parser into one kind of tree. Every
function under `src/` is verified with Verus against the contract it states.

## Layout

- `symbols`, `tree`, `tree_builder`, `output`: grammars, tokens and trees, and
  how a rule shapes its node.
- `analysis`, `lr0`, `lookahead`, `lalr_table`, `lalr_stack`, `lalr`: the LALR
  tables and the parser that runs them; `recovery`, `interactive` and
  `token_source` drive it.
- `earley*`: the recognizer, the shared forest, and the trees made of it, with
  one derivation chosen or all shown; `earley_dynamic` lexes as it parses. The
  walks over the forest keep stacks of their own; `steps` is the measure by which
  they end. `reading` says what the columns of a chart read, tokens or a text;
  `earley_reach`, `earley_text` and `earley_carry` hold what the charts of a text
  reach, `earley_shown` what a tree shows. That a forest lacks no derivation, and
  its tree no value, is proved from the chart on: `earley_led` and `earley_sprung`
  (what a chart enters), `earley_wired`, `earley_whole` and `earley_filled` (what
  the chains hold once they are filled in), `earley_alone`, `earley_offered`,
  `earley_every` and `earley_forests` (what the walk makes of it).
- `cnf`, `empty_values`, `cyk`: the normal form and the table parser.
- `pattern`, `scanner`, `lexer`, `lex_sources`, `postlex`: from text to tokens.
- `frontend`, `reconstruct` (with `recons_*`), `standalone`, `perf` (with
  `tally` and `built`): parsers by their options, text from trees, generated parsers,
  counters.
- `value_key`: the keys by which values are told apart.

Modules whose names end in `_laws`, and `derivation`, `agreement`, `lalr_trees`,
`lalr_complete`, `lalr_unique`, `cyk_trees`, `cyk_weights`, `earley_value`,
`earley_shown` and `recons_trip`, state what holds across functions. A derivation
has a value (`derivation::yields`). Where one derivation is chosen, each parser's
tree is such a value; where an Earley parser shows all derivations, whatever is
left once an alternative is picked at every ambiguity node is such a value up to
spans (`agreement`, `text_laws`). Of tokens, every value is among those picks, where
no symbol derives itself alone and no two rules of a symbol have the same expansion
(`agreement::earley_tree_shows_every_derivation`); of texts that are read without a
lexer, that is not proved. On tokens whose derivations all have one value the parsers agree
(`agreement`). A text has a tree without a lexer exactly where tokens that the
start symbol derives fill it (`text_laws`). A grammar with a
strict table is one whose sentences have one value each (`lalr_unique`). What is
written of a tree is derived in the grammar and shaped to that tree
(`recons_trip`).

## What is not proved

The calls into the `regex` crate (`pattern`), the quoting of strings (`postlex`),
the test for letters and digits (`reconstruct`) and appending a character to a
string (`text`) are trusted; each stands in an item of its own that says what is
taken for granted.

## What is left out

Strict mode refuses conflicts of the table. It does not look for terminals of
equal priority whose regular expressions match common texts: whether two
expressions do is not something that the `regex` crate can say.

Work is counted by the functions whose names end in `_counted`. None of them adds
to the counters of scanned bytes, of compiled lexer tables and of expanded grammars.
