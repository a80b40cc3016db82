# hanoi

A STRIPS planner with a goal stack, set up to solve the Towers of Hanoi, with
its logic proved by Verus.

- `src/accion.rs`: facts (`Meta`), the move (`Apilar`), preconditions and effects
  of a move, the moves worth trying for a goal, and `plan_aplicado`, the facts
  after a sequence of moves.
- `src/stackeable.rs`: the entries of a goal stack.
- `src/stripsstate.rs`: a search state (goal stack, facts, moves so far), its
  abstract view, and its key in the set of visited states.
- `src/strips.rs`: the search; every pending state is reachable from the start
  by its moves, and a returned state has an empty goal stack.
- `src/conjunto.rs`: the `hashbrown` sets, behind small trusted wrappers.
- `src/orden.rs`, `src/texto.rs`: ordering of fact keys, decimal text.
- `src/lib.rs`: the Hanoi puzzle with `n` disks and `hanoi`, which runs the
  planner on it. Proved: any state it returns is reached by executable moves,
  one disk gives the single move, two disks give the three moves that solve
  them (whatever order the hash sets are walked in), no disk or a negative
  count gives nothing, and the result is one that the search from the start
  can come to. That the search succeeds for three or more disks is shown by
  the tests, not proved.
- `src/dos_discos.rs`: the search with two disks, followed step by step.
- `app/main.rs`: the command line program, which times and prints the search.
