# etas_interpreter planning, verified

The planning stage of the Etas interpreter: from the facts of a checked program (scopes,
symbols, expressions, patterns, types, effects, imported intrinsics) to the tables the
interpreter runs on. Every function in `src/` is verified with Verus against its contract.

- `scope_tree`, `scopes`: the lexical scope graph, and closure ancestry by DFS intervals.
- `slots`, `frames`, `captures`: slot layouts of callable frames and of closures.
- `variants`, `records`, `names`: named-variant and record field layouts; names order by
  their UTF-8 bytes.
- `dispatch`, `actions`, `plan`: intrinsic dispatch, action mediation, and the planning
  passes with their diagnostics.
- `arguments`, `allocation`, `fixtures`, `text`, `ids`, `program`, `keys`: supporting tables,
  models of the checked program, and ordered sets of integer keys.
- `laws`: properties that relate the tables to one another.

`app/` holds the counting global allocator that feeds `allocation::AllocationMeter`.
