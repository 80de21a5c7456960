# disjunction

A verified lowering of disjunction (`or`) in rule bodies.

A rule body `C and (D1 or ... or Dn)` matches when the surrounding conjunction `C` holds and
at least one branch `Di` does. The library replaces each disjunction by one atom over an
internal relation, and adds one rule for each branch that fills the relation. What comes
out are ordinary relations and rules.

- The variables that all branches share, and those that `C` binds, can be seen outside the
  disjunction. All others are local to their branch; using one outside is an error.
- Disjunctions nest. An empty branch is an error, and so is an `or` without branches or
  outside a rule body.
- Sorts come from a type environment that the caller supplies (`typing::TypeInfo`).

Start at `commands::lower_disjunctions`.

## Layout

| module | holds |
| --- | --- |
| `ast`, `error`, `typing` | the syntax, the errors and the type environment, with their models |
| `vars`, `scope` | the variables of facts, and which of them can be seen where |
| `flatten` | the query that a type environment is asked |
| `materialize`, `lowering`, `commands` | the lowering of a disjunction, a body, a command |
| `symbol_gen`, `index_set` | fresh names; the ordered set of the `indexmap` crate |
| `semantics`, `laws` | what rules mean, and that lowering keeps it |
| `filling`, `rounds` | that the internal relations can always be filled, and how soon |
| `success`, `query` | which rules can be lowered; what the typing query says |
| `shape`, `joins`, `calls`, `numbering`, `order` | what the lowered commands look like |
| `generated`, `lowered_vars` | lemmas on the lowered commands and their variables |

Contracts are stated over models: sequences in place of vectors and strings. Only
`index_set` rests on code that is not proved here.
