# puggles

Multi-objective evolutionary optimization (NSGA-II, NSGA-III, island model), with the
decisions of the algorithms verified in Verus.

- `src/` — the verified library: problem validation and constraint evaluation, Pareto
  dominance with constraint handling, non-dominated sorting (single-objective sort,
  efficient non-dominated sort, Best-Order-Sort), tournament selection, order crossover and
  swap mutation on permutations, NSGA-II survival and archiving, the evaluation budget, the
  NSGA-III reference lattice, filling and niching, island merging, and the GPU buffer
  layout. Real values enter the library as order keys (integers that compare as the values
  do), since every decision on them is a comparison.
- `app/` — what stays outside the library: objective functions and real-valued genes, the
  real-valued crossover and mutation operators, crowding distance, metrics, threads,
  checkpoints (serde) and the wgpu evaluator, all calling the library for ranking,
  selection, variation of permutations and survival.
- `tests/` — tests of the library on concrete values.
