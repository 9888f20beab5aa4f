# ho_unify

Higher-order unification of simply typed lambda terms, with an interactive
front end.

The library (`src/`) is verified with Verus:

- `term`, `display`: types, variables, terms and constraints, their
  mathematical views and their text.
- `names`, `utils`: fresh names, binders, heads and argument spines.
- `counter`: the limits on the bindings of each kind.
- `tree`: persistent substitutions, search states, the round robin over
  streams of states, and the search (`unify_stream`, and
  `unify_stream_within`, which checks each step and stops at a budget).
- `unification`: the rules (oracle, normalization, dereference, fail,
  delete, decompose, and the binding rules imitation, projection,
  identification and elimination) and the choice among them.
- `parser`, `annotated`, `alpha`: the constraint notation over declared
  variables, the type-annotated notation, and α-renaming.
- `reader`, `commands`, `session`, `report`, `text`: reading declarations
  and answers, the declared variables, the report of the solutions, and text
  helpers.

Contracts state each function's result over the views; proof functions named
`law_*` state properties across functions.

`app/` holds the console program: prompts, the JSON files `variables.json`,
`types.json` and the report file `solutions`.
