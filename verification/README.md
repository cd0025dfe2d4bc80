# persistent_sheaf

Topological data analysis — simplicial complexes, Betti numbers,
Vietoris-Rips complexes, filtrations and persistence, cellular sheaves and
graph Laplacians — with the combinatorial core verified by Verus.

Layout:

- `src/` — the verified library.
  - `simplicial.rs`: `SimplicialComplex`, its well-formedness (no duplicates,
    sorted simplices, closed under faces), insertion, Euler characteristic,
    boundaries, Betti numbers and the Vietoris-Rips construction from a
    proximity matrix.
  - `components.rs`: connected components by union-find with path halving,
    and the proof that its labels are exactly the connectivity classes.
  - `gf2.rs`: Gaussian elimination over Z/2, giving the rank of the
    triangle-edge boundary matrix used for β₁; the basis it builds is proved
    independent and to span every input row.
  - `filtration.rs`: filtrations and persistence as bars over steps (birth
    step, death step or essential), by the elder rule on β₀ and β₁.
  - `persistence.rs`: persistence pairs and diagrams, generic in the type of
    birth and death values.
  - `sheaf.rs`: cellular sheaves (constant and weighted) and their section
    and cohomology dimensions (d·β₀ and E·d − (V − β₀)·d).
  - `laplacian.rs`: the exact integer graph Laplacian, with its symmetry,
    zero row sums, degrees and positive semidefiniteness.
- `app/` — the floating-point layer: distance thresholds, epsilon schedules,
  birth/death arithmetic, bottleneck distance, Betti curves, the sheaf
  Laplacian of real restriction maps and power iteration.
- `tests/` — tests of the library.
