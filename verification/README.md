# graph_homology

Homological invariants of graphs and their clique complexes, written in Verus.
Every function in `src/` carries a contract that Verus proves.

- `src/graph.rs` — `SimplicialGraph`: adjacency sets viewed as a
  `Map<usize, Set<usize>>`, construction (`add_vertex`, `add_edge`, `complete`,
  `cycle`, `path`) and queries (`vertices`, `edges`, `degree`, ...).
- `src/components.rs` — walks, reachability and `connected_components`, whose
  result is proved to list every component once, sorted, ordered by its
  smallest vertex.
- `src/clique.rs` — `CliqueComplex`: the simplices of dimension `k` are the
  cliques of `k + 1` vertices, returned in lexicographic order; the maximum
  dimension is one less than the clique number; Betti numbers and the Euler
  characteristic of a complex.
- `src/chains.rs` — boundary matrices of the clique complex, the rank of a
  matrix modulo a prime (the number of columns that are not combinations of
  the columns before them) and the elimination that computes it; the Betti
  numbers β_k = f_k - r_k - r_(k+1) and `h1` are built on them, and satisfy
  the Euler–Poincaré formula.
- `src/modular.rs` — congruence modulo the prime 65521, its primality and
  inverses.
- `src/homology.rs` — `GraphHomology::h0`, `h1` and
  `EulerCharacteristic::compute`, `count_triangles`.
- `src/laplacian.rs` — the integer Laplacian L = D - A and the multiplicity
  of its eigenvalue 0, the number of components.
- `src/laws.rs` — properties across operations, such as E - V + C >= 0,
  the handshake law, how adding an edge merges components, faces of
  simplices, component indicators in the Laplacian kernel, i32 bounds for
  graphs of at most 31 vertices, edge counts and connectivity of K_n, C_n
  and P_n.
- `src/sorted.rs` — strictly increasing sequences and lexicographic order.

`app/` holds `FloatLaplacian`, the floating-point views of the Laplacian (normalized Laplacian,
eigenvalue estimates, algebraic connectivity) built on the verified integer
Laplacian.
