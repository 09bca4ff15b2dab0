# Canonical

A solver for type inhabitation in dependent type theory: given a type, it searches for a term of
that type.

The library under `src/` is verified with Verus. Every function states what it computes over
mathematical views of its data.

- `index`, `data`, `memory`, `es`, `types`: terms, types and metavariables. Metavariables live in a
  `Store` and are named by their position there.
- `term`, `normal`, `alike`: weak head normal forms under reduction rules.
- `constraint`, `propagation`, `meta`, `search`: equations and forbidden redexes, and which
  assignments they allow.
- `independence`: which metavariables can be solved apart from each other.
- `frames`, `backtrack`, `undo`, `prover`, `expansion`, `replay`, `stack`, `stats`: the steps of the
  search, and what is counted on the way.
- `settled`, `fresh`, `steps`: why the constraints that were imposed on the way hold in a solution.
- `ir`, `shown`, `text`, `names`, `elaborate`, `typed`, `readback`, `roundtrip`, `problem`: written
  problems and solutions.
- `refine`, `session`: refining a term by hand.
- `lean`, `exchange`, `reply`, `solutions`: what is exchanged with Lean.
- `ab`: comparing two configurations of the search.
- `guard`, `ids`: the room on the stack, and fresh identifiers. How deeply evaluation may nest is
  given by the caller; where it suffices it makes no difference to the result.

A frame of the search tries every variable of its context, in the order in which the context lists
them.

Making the reduction rules of let declarations from what is written is not part of the library:
elaboration tells where the declarations stand, and `Store::set_rules` gives them their rules.

`app/` holds what surrounds it: the loop that runs the search with its heuristics, which are
computed in floating point, the statistics shared between threads, the refinement server, files,
and the memory of Lean.
