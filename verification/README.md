# ail_contract

Contract checking for AIL programs, verified with Verus.

An AIL program is a graph of nodes (`describe`, `define`, `do`, `check`, …)
whose `do` nodes carry contracts: preconditions (`before`), postconditions
(`after`) and invariants (`always`). This library

- checks contracts statically (references in scope, `old()` placement,
  raised errors declared, template phases present) — `checks`, `scope`;
- encodes contracts as solver terms and verifies every `do` node with the
  Z3 solver, deepest first, passing verified child postconditions up —
  `encode`, `sorts`, `plan`, `formula`, `solve`, `verified`;
- builds the Čech nerve of contract sections and checks each overlap for
  an obstruction, listing the conflicting constraints sorted by their text
  in the contract language — `sheaf`, `obstruction`, `render`, `solve`;
- summarises contracts and reports breaking changes — `summary`;
- holds the decisions of semantic coverage and of the SQLite graph store,
  including which cached context packets a change makes stale —
  `coverage`, `store`, `invalidation`.

Every function under `src/` is verified; calls into Z3, `uuid` and a few
`std` functions go through small trusted wrappers. Each wrapper's doc
comment names the outside function it calls. The Z3 builders state the
formula (`formula`) each solver expression stands for, and a check's
verdict is tied to the satisfiability of the formulas asserted; what is
not stated (the solver's models, unsat cores, and whether it times out) is
said in the wrapper's doc comment.

`app/` holds what the library leaves to ordinary Rust: the SQLite store
(`rusqlite`), the serialized records, and the floating-point arithmetic of
semantic coverage. `tests/` exercises the library, with the real solver.
