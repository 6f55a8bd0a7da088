use graph_homology::{CliqueComplex, EulerCharacteristic, GraphHomology, GraphLaplacian, SimplicialGraph};
use graph_homology::chains::{boundary_columns, column_rank};
use graph_homology::modular::MODULUS;
use std::collections::BTreeSet;

fn square() -> SimplicialGraph {
    let mut g = SimplicialGraph::new();
    g.add_edge(0, 1);
    g.add_edge(1, 2);
    g.add_edge(2, 3);
    g.add_edge(3, 0);
    g
}

fn set_of(xs: &[usize]) -> BTreeSet<usize> {
    xs.iter().copied().collect()
}

#[test]
fn readme_square_graph() {
    let g = square();
    assert_eq!(g.vertex_count(), 4);
    assert_eq!(g.edge_count(), 4);
    assert_eq!(g.connected_components(), vec![vec![0, 1, 2, 3]]);
    assert_eq!(GraphHomology::h0(&g), 1);
    assert_eq!(GraphHomology::h1(&g), 1);
    let complex = CliqueComplex::from_graph(g.clone());
    assert_eq!(complex.max_dimension(), 1);
    assert_eq!(complex.simplex_count(2), 0);
    assert_eq!(EulerCharacteristic::compute(&g), 0);
}

#[test]
fn readme_cycle_and_complete_first_betti_numbers() {
    // C6 has one hole; every cycle of K5 is filled by triangles.
    assert_eq!(GraphHomology::h1(&SimplicialGraph::cycle(6)), 1);
    assert_eq!(GraphHomology::h1(&SimplicialGraph::complete(5)), 0);
    assert_eq!(GraphHomology::h1(&SimplicialGraph::complete(2)), 0);
    // A triangle is filled; the octahedron's cycles are all filled too.
    assert_eq!(GraphHomology::h1(&SimplicialGraph::complete(3)), 0);
    assert_eq!(GraphHomology::h1(&octahedron()), 0);
}

#[test]
fn add_edge_is_undirected_and_idempotent() {
    let mut g = SimplicialGraph::new();
    g.add_edge(4, 7);
    assert!(g.has_edge(4, 7));
    assert!(g.has_edge(7, 4));
    assert!(!g.has_edge(4, 4));
    g.add_edge(7, 4);
    g.add_edge(4, 7);
    assert_eq!(g.edge_count(), 1);
    assert_eq!(g.vertex_count(), 2);
    assert_eq!(g.degree(4), 1);
    assert_eq!(g.degree(9), 0);
}

#[test]
fn add_vertex_is_idempotent() {
    let mut g = SimplicialGraph::new();
    g.add_vertex(3);
    g.add_vertex(3);
    assert_eq!(g.vertex_count(), 1);
    assert_eq!(g.vertices(), vec![3]);
    assert!(g.neighbors(3).unwrap().is_empty());
    assert!(g.neighbors(4).is_none());
}

#[test]
fn self_loop_is_no_edge_but_counts_in_degree() {
    let mut g = SimplicialGraph::new();
    g.add_edge(0, 0);
    assert_eq!(g.vertex_count(), 1);
    assert_eq!(g.edge_count(), 0);
    assert!(g.has_edge(0, 0));
    assert_eq!(g.degree(0), 1);
    assert_eq!(GraphLaplacian::zero_eigenvalue_count(&g), 1);
}

#[test]
fn vertices_are_sorted() {
    let mut g = SimplicialGraph::new();
    g.add_edge(5, 1);
    g.add_vertex(3);
    g.add_edge(9, 5);
    assert_eq!(g.vertices(), vec![1, 3, 5, 9]);
}

#[test]
fn edges_are_sorted_pairs_grouped_by_smaller_end() {
    let g = SimplicialGraph::path(4);
    assert_eq!(g.edges(), vec![(0, 1), (1, 2), (2, 3)]);
    let k = SimplicialGraph::complete(4);
    let edges = k.edges();
    assert_eq!(edges.len(), 6);
    for w in edges.windows(2) {
        assert!(w[0].0 <= w[1].0);
    }
    for &(a, b) in &edges {
        assert!(a < b);
    }
}

#[test]
fn neighbors_of_complete_graph() {
    let g = SimplicialGraph::complete(3);
    let ns = g.neighbors(0).unwrap();
    assert_eq!(ns.len(), 2);
    assert!(ns.contains(&1) && ns.contains(&2));
}

#[test]
fn components_are_sorted_and_ordered_by_smallest_vertex() {
    let mut g = SimplicialGraph::new();
    g.add_edge(7, 3);
    g.add_edge(3, 9);
    g.add_edge(1, 5);
    g.add_vertex(4);
    assert_eq!(g.connected_components(), vec![vec![1, 5], vec![3, 7, 9], vec![4]]);
    assert_eq!(GraphHomology::h0(&g), 3);
}

#[test]
fn empty_graph() {
    let g = SimplicialGraph::new();
    assert_eq!(g.vertex_count(), 0);
    assert_eq!(g.edge_count(), 0);
    assert!(g.connected_components().is_empty());
    assert_eq!(GraphHomology::h0(&g), 0);
    assert_eq!(GraphHomology::h1(&g), 0);
    assert_eq!(EulerCharacteristic::compute(&g), 0);
    assert_eq!(GraphLaplacian::zero_eigenvalue_count(&g), 0);
    let c = CliqueComplex::from_graph(g);
    assert_eq!(c.max_dimension(), 0);
    assert_eq!(c.simplex_count(0), 0);
}

#[test]
fn edgeless_graph_counts() {
    let g = SimplicialGraph::with_vertices(5);
    assert_eq!(g.vertex_count(), 5);
    assert_eq!(g.edge_count(), 0);
    assert_eq!(GraphHomology::h0(&g), 5);
    assert_eq!(GraphLaplacian::zero_eigenvalue_count(&g), 5);
}

#[test]
fn family_edge_counts() {
    assert_eq!(SimplicialGraph::complete(5).edge_count(), 10);
    assert_eq!(SimplicialGraph::complete(1).edge_count(), 0);
    assert_eq!(SimplicialGraph::cycle(6).edge_count(), 6);
    assert_eq!(SimplicialGraph::cycle(2).edge_count(), 1);
    assert_eq!(SimplicialGraph::cycle(1).edge_count(), 0);
    assert_eq!(SimplicialGraph::cycle(0).vertex_count(), 0);
    assert_eq!(SimplicialGraph::path(1).edge_count(), 0);
    assert_eq!(SimplicialGraph::path(0).vertex_count(), 0);
    assert_eq!(SimplicialGraph::complete(5).degree(2), 4);
}

#[test]
fn families_are_connected() {
    assert_eq!(GraphHomology::h0(&SimplicialGraph::complete(4)), 1);
    assert_eq!(GraphHomology::h0(&SimplicialGraph::cycle(7)), 1);
    assert_eq!(GraphHomology::h0(&SimplicialGraph::path(5)), 1);
    assert_eq!(GraphHomology::h1(&SimplicialGraph::path(5)), 0);
}

#[test]
fn simplices_in_lexicographic_order() {
    let c = CliqueComplex::from_graph(SimplicialGraph::complete(4));
    assert_eq!(
        c.simplices(1),
        vec![
            set_of(&[0, 1]),
            set_of(&[0, 2]),
            set_of(&[0, 3]),
            set_of(&[1, 2]),
            set_of(&[1, 3]),
            set_of(&[2, 3])
        ]
    );
    assert_eq!(
        c.simplices(2),
        vec![set_of(&[0, 1, 2]), set_of(&[0, 1, 3]), set_of(&[0, 2, 3]), set_of(&[1, 2, 3])]
    );
    assert_eq!(c.simplices(3), vec![set_of(&[0, 1, 2, 3])]);
    assert!(c.simplices(4).is_empty());
    assert_eq!(c.simplices(0), vec![set_of(&[0]), set_of(&[1]), set_of(&[2]), set_of(&[3])]);
}

#[test]
fn simplices_of_a_sparse_graph() {
    let mut g = SimplicialGraph::new();
    g.add_edge(2, 8);
    g.add_edge(8, 5);
    g.add_edge(5, 2);
    g.add_edge(5, 9);
    let c = CliqueComplex::from_graph(g);
    assert_eq!(c.max_dimension(), 2);
    assert_eq!(
        c.simplices(1),
        vec![set_of(&[2, 5]), set_of(&[2, 8]), set_of(&[5, 8]), set_of(&[5, 9])]
    );
    assert_eq!(c.simplices(2), vec![set_of(&[2, 5, 8])]);
}

#[test]
fn simplex_counts_match_vertices_edges_and_triangles() {
    let g = SimplicialGraph::complete(5);
    let c = CliqueComplex::from_graph(g.clone());
    assert_eq!(c.simplex_count(0), g.vertex_count());
    assert_eq!(c.simplex_count(1), g.edge_count());
    assert_eq!(c.simplex_count(2), EulerCharacteristic::count_triangles(&g));
    assert_eq!(c.simplex_count(2), 10);
    assert_eq!(c.max_dimension(), 4);
}

#[test]
fn clique_dimension_of_path() {
    let c = CliqueComplex::from_graph(SimplicialGraph::path(3));
    assert_eq!(c.max_dimension(), 1);
    let single = CliqueComplex::from_graph(SimplicialGraph::with_vertices(1));
    assert_eq!(single.max_dimension(), 0);
}

fn octahedron() -> SimplicialGraph {
    let mut g = SimplicialGraph::with_vertices(6);
    for a in 0..6 {
        for b in (a + 1)..6 {
            if !(a % 2 == 0 && b == a + 1) {
                g.add_edge(a, b);
            }
        }
    }
    g
}

fn alternating(betti: &[usize]) -> i32 {
    betti
        .iter()
        .enumerate()
        .map(|(k, &b)| if k % 2 == 0 { b as i32 } else { -(b as i32) })
        .sum()
}

#[test]
fn betti_numbers_vector() {
    // The filled triangle is contractible.
    let c = CliqueComplex::from_graph(SimplicialGraph::complete(3));
    assert_eq!(GraphHomology::betti_numbers(&c, 3), vec![1, 0, 0, 0]);
    assert_eq!(GraphHomology::betti_numbers(&c, 0), vec![1]);
    let sq = CliqueComplex::from_graph(square());
    assert_eq!(GraphHomology::betti_numbers(&sq, 1), vec![1, 1]);
    assert_eq!(GraphHomology::betti_numbers(&sq, 2), vec![1, 1, 0]);
}

#[test]
fn betti_numbers_of_octahedron_sphere() {
    let g = octahedron();
    assert_eq!(g.edge_count(), 12);
    let c = CliqueComplex::from_graph(g);
    assert_eq!(c.max_dimension(), 2);
    assert_eq!(c.simplex_count(2), 8);
    let betti = GraphHomology::betti_numbers(&c, 2);
    assert_eq!(betti, vec![1, 0, 1]);
    assert_eq!(alternating(&betti), EulerCharacteristic::compute_complex(&c));
    assert_eq!(alternating(&betti), 2);
}

#[test]
fn betti_numbers_of_complete_graphs() {
    let k4 = CliqueComplex::from_graph(SimplicialGraph::complete(4));
    assert_eq!(GraphHomology::betti_numbers(&k4, 3), vec![1, 0, 0, 0]);
    let k5 = CliqueComplex::from_graph(SimplicialGraph::complete(5));
    assert_eq!(GraphHomology::betti_numbers(&k5, 4), vec![1, 0, 0, 0, 0]);
    // β₁ from the vector is `h1`.
    assert_eq!(GraphHomology::h1(k5.graph()), 0);
    let c = CliqueComplex::from_graph(square());
    assert_eq!(GraphHomology::betti_numbers(&c, 1)[1], GraphHomology::h1(c.graph()));
}

#[test]
fn betti_numbers_of_disjoint_pieces() {
    // A filled triangle, a hollow square and an isolated vertex.
    let mut g = SimplicialGraph::complete(3);
    for (u, v) in [(3, 4), (4, 5), (5, 6), (6, 3)] {
        g.add_edge(u, v);
    }
    g.add_vertex(9);
    let c = CliqueComplex::from_graph(g);
    assert_eq!(GraphHomology::betti_numbers(&c, 2), vec![3, 1, 0]);
    // A square with one diagonal is two filled triangles.
    let mut d = square();
    d.add_edge(0, 2);
    let cd = CliqueComplex::from_graph(d);
    assert_eq!(GraphHomology::betti_numbers(&cd, 2), vec![1, 0, 0]);
}

#[test]
fn betti_numbers_satisfy_euler_poincare() {
    let graphs = vec![
        square(),
        octahedron(),
        SimplicialGraph::complete(4),
        SimplicialGraph::complete(6),
        SimplicialGraph::cycle(7),
        SimplicialGraph::path(4),
        SimplicialGraph::with_vertices(3),
        SimplicialGraph::new(),
    ];
    for g in graphs {
        let c = CliqueComplex::from_graph(g);
        let betti = GraphHomology::betti_numbers(&c, c.max_dimension());
        assert_eq!(alternating(&betti), EulerCharacteristic::compute_complex(&c));
    }
}

#[test]
fn euler_characteristic_of_complexes() {
    // K4: 4 - 6 + 4 - 1
    let k4 = CliqueComplex::from_graph(SimplicialGraph::complete(4));
    assert_eq!(EulerCharacteristic::compute_complex(&k4), 1);
    // Without a 4-clique the complex agrees with V - E + T.
    let k3 = SimplicialGraph::complete(3);
    let c3 = CliqueComplex::from_graph(k3.clone());
    assert_eq!(EulerCharacteristic::compute_complex(&c3), EulerCharacteristic::compute(&k3));
    let sq = square();
    let csq = CliqueComplex::from_graph(sq.clone());
    assert_eq!(EulerCharacteristic::compute_complex(&csq), EulerCharacteristic::compute(&sq));
}

#[test]
fn euler_poincare_for_triangle_free_graphs() {
    for g in [square(), SimplicialGraph::path(5), SimplicialGraph::cycle(6), SimplicialGraph::with_vertices(3)] {
        let chi = EulerCharacteristic::compute(&g);
        let b0 = GraphHomology::h0(&g) as i32;
        let b1 = GraphHomology::h1(&g) as i32;
        assert_eq!(chi, b0 - b1);
    }
    // Without a clique of four vertices, χ = V - E + T = β₀ - β₁ + β₂, and
    // K3 has β₂ = 0.
    let k3 = SimplicialGraph::complete(3);
    assert_eq!(EulerCharacteristic::compute(&k3), 1);
    assert_eq!(GraphHomology::h0(&k3) as i32 - GraphHomology::h1(&k3) as i32, 1);
}

#[test]
fn readme_disconnected_paths() {
    let mut g = SimplicialGraph::path(3);
    g.add_edge(3, 4);
    g.add_edge(4, 5);
    assert_eq!(GraphHomology::h0(&g), 2);
    assert_eq!(GraphHomology::h1(&g), 0);
    assert_eq!(EulerCharacteristic::compute(&g), 2);
}

#[test]
fn integer_laplacian_of_path() {
    let g = SimplicialGraph::path(3);
    assert_eq!(
        GraphLaplacian::combinatorial_entries(&g),
        vec![vec![1, -1, 0], vec![-1, 2, -1], vec![0, -1, 1]]
    );
}

#[test]
fn zero_eigenvalues_count_components() {
    let mut pair = SimplicialGraph::new();
    pair.add_edge(0, 1);
    assert_eq!(GraphLaplacian::zero_eigenvalue_count(&pair), 1);
    assert_eq!(GraphLaplacian::zero_eigenvalue_count(&SimplicialGraph::with_vertices(2)), 2);
    assert_eq!(GraphLaplacian::zero_eigenvalue_count(&SimplicialGraph::complete(3)), 1);
    assert_eq!(GraphLaplacian::zero_eigenvalue_count(&SimplicialGraph::path(3)), 1);
    assert_eq!(GraphLaplacian::zero_eigenvalue_count(&SimplicialGraph::cycle(8)), 1);
    let mut g = SimplicialGraph::path(3);
    g.add_vertex(10);
    assert_eq!(GraphLaplacian::zero_eigenvalue_count(&g), 2);
    assert_eq!(GraphLaplacian::zero_eigenvalue_count(&g), GraphHomology::h0(&g));
}

#[test]
fn degrees_add_up_to_twice_the_edges() {
    let graphs = vec![
        square(),
        octahedron(),
        SimplicialGraph::complete(5),
        SimplicialGraph::cycle(7),
        SimplicialGraph::path(6),
        SimplicialGraph::with_vertices(4),
    ];
    for g in graphs {
        let total: usize = g.vertices().iter().map(|&v| g.degree(v)).sum();
        assert_eq!(total, 2 * g.edge_count());
    }
    assert_eq!(SimplicialGraph::complete(5).degree(9), 0);
}

#[test]
fn adding_an_edge_merges_components() {
    let mut g = SimplicialGraph::path(3);
    g.add_edge(3, 4);
    assert_eq!(GraphHomology::h0(&g), 2);
    // Joining the two paths leaves one component.
    g.add_edge(2, 3);
    assert_eq!(GraphHomology::h0(&g), 1);
    // An edge inside a component changes nothing.
    g.add_edge(0, 4);
    assert_eq!(GraphHomology::h0(&g), 1);
    let mut h = SimplicialGraph::with_vertices(4);
    h.add_edge(1, 3);
    assert_eq!(GraphHomology::h0(&h), 3);
}

#[test]
fn component_indicators_are_in_the_laplacian_kernel() {
    let mut g = SimplicialGraph::path(3);
    g.add_edge(5, 6);
    g.add_edge(6, 7);
    g.add_edge(7, 5);
    g.add_vertex(9);
    let lap = GraphLaplacian::combinatorial_entries(&g);
    let vertices = g.vertices();
    for component in g.connected_components() {
        let x: Vec<i64> = vertices.iter().map(|v| if component.contains(v) { 1 } else { 0 }).collect();
        for row in &lap {
            let value: i64 = row.iter().zip(&x).map(|(a, b)| a * b).sum();
            assert_eq!(value, 0);
        }
    }
    assert_eq!(GraphLaplacian::zero_eigenvalue_count(&g), 3);
}

#[test]
fn triangles_are_the_2_simplices() {
    for g in [octahedron(), SimplicialGraph::complete(5), square(), SimplicialGraph::cycle(3)] {
        let vs = g.vertices();
        let mut triples = 0;
        for (i, &a) in vs.iter().enumerate() {
            for (j, &b) in vs.iter().enumerate().skip(i + 1) {
                for &c in vs.iter().skip(j + 1) {
                    if g.has_edge(a, b) && g.has_edge(a, c) && g.has_edge(b, c) {
                        triples += 1;
                    }
                }
            }
        }
        assert_eq!(EulerCharacteristic::count_triangles(&g), triples);
        let complex = CliqueComplex::from_graph(g);
        assert_eq!(complex.simplex_count(2), triples);
    }
}

#[test]
fn faces_of_simplices_are_simplices() {
    let c = CliqueComplex::from_graph(octahedron());
    let triangles = c.simplices(2);
    let edges = c.simplices(1);
    for t in &triangles {
        for v in t {
            let mut face = t.clone();
            face.remove(v);
            assert!(edges.contains(&face));
        }
    }
}

#[test]
fn ranks_modulo_the_prime() {
    assert_eq!(column_rank(&vec![vec![1, 0], vec![0, 1], vec![1, 1]], 2), 2);
    assert_eq!(column_rank(&vec![vec![1, 2], vec![2, 4]], 2), 1);
    assert_eq!(column_rank(&vec![vec![0, 0, 0]], 3), 0);
    assert_eq!(column_rank(&vec![vec![1, MODULUS - 1], vec![MODULUS - 1, 1]], 2), 1);
    assert_eq!(column_rank(&vec![], 4), 0);
}

#[test]
fn boundary_of_a_triangle() {
    let lower = vec![vec![0, 1], vec![0, 2], vec![1, 2]];
    let upper = vec![vec![0, 1, 2]];
    assert_eq!(boundary_columns(&lower, &upper), vec![vec![1, MODULUS - 1, 1]]);
}
