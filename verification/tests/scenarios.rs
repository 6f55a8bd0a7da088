use graph_homology::{CliqueComplex, EulerCharacteristic, GraphHomology, GraphLaplacian, SimplicialGraph};

#[test]
fn test_graph_creation() {
    let mut g = SimplicialGraph::new();
    g.add_edge(0, 1);
    g.add_edge(1, 2);
    assert_eq!(g.vertex_count(), 3);
    assert_eq!(g.edge_count(), 2);
}

#[test]
fn test_complete_graph() {
    let g = SimplicialGraph::complete(4);
    assert_eq!(g.vertex_count(), 4);
    assert_eq!(g.edge_count(), 6); // C(4,2)
}

#[test]
fn test_cycle_graph() {
    let g = SimplicialGraph::cycle(5);
    assert_eq!(g.vertex_count(), 5);
    assert_eq!(g.edge_count(), 5);
}

#[test]
fn test_path_graph() {
    let g = SimplicialGraph::path(4);
    assert_eq!(g.vertex_count(), 4);
    assert_eq!(g.edge_count(), 3);
}

#[test]
fn test_connected_components() {
    let mut g = SimplicialGraph::new();
    g.add_edge(0, 1);
    g.add_edge(2, 3);
    assert_eq!(g.connected_components().len(), 2);
}

#[test]
fn test_h0_connected() {
    let g = SimplicialGraph::complete(3);
    assert_eq!(GraphHomology::h0(&g), 1);
}

#[test]
fn test_h0_disconnected() {
    let mut g = SimplicialGraph::with_vertices(4);
    g.add_edge(0, 1);
    g.add_edge(2, 3);
    assert_eq!(GraphHomology::h0(&g), 2);
}

#[test]
fn test_h1_cycle() {
    let g = SimplicialGraph::cycle(4);
    assert_eq!(GraphHomology::h1(&g), 1); // One cycle
}

#[test]
fn test_h1_tree() {
    let g = SimplicialGraph::path(4);
    assert_eq!(GraphHomology::h1(&g), 0); // No cycles
}

#[test]
fn test_euler_characteristic_tree() {
    let g = SimplicialGraph::path(4);
    // V=4, E=3, F=0 → χ = 1
    assert_eq!(EulerCharacteristic::compute(&g), 1);
}

#[test]
fn test_euler_characteristic_triangle() {
    let g = SimplicialGraph::complete(3);
    // V=3, E=3, F=1 → χ = 1
    assert_eq!(EulerCharacteristic::compute(&g), 1);
}

#[test]
fn test_count_triangles() {
    let g = SimplicialGraph::complete(4);
    assert_eq!(EulerCharacteristic::count_triangles(&g), 4); // C(4,3)
}

#[test]
fn test_clique_complex_k3() {
    let g = SimplicialGraph::complete(3);
    let cc = CliqueComplex::from_graph(g);
    assert_eq!(cc.simplex_count(0), 3); // vertices
    assert_eq!(cc.simplex_count(1), 3); // edges
    assert_eq!(cc.simplex_count(2), 1); // triangle
}

#[test]
fn test_laplacian_complete() {
    let g = SimplicialGraph::complete(3);
    let lap = GraphLaplacian::combinatorial_entries(&g);
    // Diagonal should be 2 (degree), off-diagonal -1
    assert_eq!(lap[0][0] as f64, 2.0);
    assert_eq!(lap[0][1] as f64, -1.0);
}

#[test]
fn test_zero_eigenvalue_count() {
    // Single vertex: Laplacian is [[0]], one zero eigenvalue
    let g = SimplicialGraph::with_vertices(1);
    assert_eq!(GraphLaplacian::zero_eigenvalue_count(&g), 1);
}

#[test]
fn test_degree() {
    let g = SimplicialGraph::complete(4);
    assert_eq!(g.degree(0), 3);
}

#[test]
fn test_clique_complex_dimension() {
    let g = SimplicialGraph::complete(4);
    let cc = CliqueComplex::from_graph(g);
    assert_eq!(cc.max_dimension(), 3); // 4-clique → dimension 3
}
