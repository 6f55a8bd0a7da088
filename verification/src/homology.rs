//! Betti numbers and Euler characteristics of graphs.

use vstd::prelude::*;

use crate::clique::{betti_number, capped_rank, clique_count, second_boundary_rank, clique_tuple_set, is_clique_tuple, lemma_clique_tuples_finite};
use crate::components::component_count;
use crate::graph::{adjacent, edge_set, SimplicialGraph};
use crate::sorted::{lemma_take_below, lemma_take_contains, strictly_increasing};

verus! {

/// The cycle rank E - V + C of a graph, where C counts components;
/// negative values count as 0.
pub open spec fn cycle_rank(m: Map<usize, Set<usize>>) -> nat {
    let r = edge_set(m).len() - m.dom().len() + component_count(m);
    if r > 0 {
        r as nat
    } else {
        0
    }
}

/// V - E + T, with T the number of triangles.
pub open spec fn euler_characteristic(m: Map<usize, Set<usize>>) -> int {
    m.dom().len() - edge_set(m).len() + clique_count(m, 3)
}

/// `q` is a triangle, listed in increasing order, that the count over the
/// vertex list `vs` has reached: its first vertex lies before position `i`;
/// or it is `vs[i]` and the second lies before position `j`; or the first
/// two are `vs[i]` and `vs[j]` and the third lies before position `k`.
spec fn triangle_counted(
    m: Map<usize, Set<usize>>,
    vs: Seq<usize>,
    q: Seq<usize>,
    i: int,
    j: int,
    k: int,
) -> bool {
    &&& is_clique_tuple(m, q, 3)
    &&& {
        ||| vs.take(i).contains(q[0])
        ||| q[0] == vs[i] && vs.take(j).contains(q[1])
        ||| q[0] == vs[i] && q[1] == vs[j] && vs.take(k).contains(q[2])
    }
}

/// Graph homology computation.
pub struct GraphHomology;

/// Euler characteristic computation.
pub struct EulerCharacteristic;

impl GraphHomology {
    /// Compute H_0 (connected components).
    /// H_0 ≅ Z^{number of connected components}.
    pub fn h0(graph: &SimplicialGraph) -> (r: usize)
        requires
            graph.wf(),
        ensures
            r == component_count(graph@),
    {
        graph.connected_components().len()
    }

    /// Compute H_1: the independent cycles of the graph that the triangles
    /// of the clique complex do not fill, β₁ = (E - V + C) - r_2 with r_2
    /// the rank of the boundary map from triangles to edges (see
    /// `capped_rank`). On a triangle-free graph it is the cycle rank.
    pub fn h1(graph: &SimplicialGraph) -> (r: usize)
        requires
            graph.wf(),
        ensures
            r == betti_number(graph@, 1),
            r <= cycle_rank(graph@),
            clique_count(graph@, 3) == 0 ==> r == cycle_rank(graph@),
    {
        let ghost m = graph@;
        let e = graph.edge_count();
        let v = graph.vertex_count();
        let c = graph.connected_components().len();
        proof {
            crate::laws::law_edges_are_1_simplices(m);
            crate::laws::law_cyclomatic_number_nonnegative(m);
        }
        // Cyclomatic number: E - V + C
        let cycles = e - (v - c);
        let rank = second_boundary_rank(graph);
        let filled = if rank < cycles {
            rank
        } else {
            cycles
        };
        proof {
            assert(capped_rank(m, 1) == v - c);
            assert(capped_rank(m, 2) == filled);
        }
        cycles - filled
    }
}

impl EulerCharacteristic {
    /// Compute χ = V - E + F for a graph (V - E + T where T is triangles).
    pub fn compute(graph: &SimplicialGraph) -> (chi: i32)
        requires
            graph.wf(),
            graph@.dom().len() <= i32::MAX,
            edge_set(graph@).len() <= i32::MAX,
            clique_count(graph@, 3) <= i32::MAX,
            euler_characteristic(graph@) <= i32::MAX,
        ensures
            chi == euler_characteristic(graph@),
    {
        let v = graph.vertex_count() as i32;
        let e = graph.edge_count() as i32;
        let f = Self::count_triangles(graph) as i32;
        v - e + f
    }

    /// Count triangles (3-cliques) in the graph.
    pub fn count_triangles(graph: &SimplicialGraph) -> (count: usize)
        requires
            graph.wf(),
            clique_count(graph@, 3) <= usize::MAX,
        ensures
            clique_tuple_set(graph@, 3).finite(),
            count == clique_count(graph@, 3),
    {
        let ghost m = graph@;
        let vertices = graph.vertices();
        let n = vertices.len();
        let mut count: usize = 0;
        let ghost mut found: Set<Seq<usize>> = Set::empty();
        proof {
            lemma_clique_tuples_finite(m, 3);
        }
        for i in 0..n
            invariant
                graph.wf(),
                m == graph@,
                n == vertices@.len(),
                strictly_increasing(vertices@),
                forall|x: usize| #[trigger] vertices@.contains(x) <==> m.contains_key(x),
                clique_tuple_set(m, 3).finite(),
                clique_count(m, 3) <= usize::MAX,
                found.finite(),
                count == found.len(),
                forall|q: Seq<usize>| #[trigger]
                    found.contains(q) <==> triangle_counted(m, vertices@, q, i as int, 0, 0),
        {
            proof {
                assert forall|q: Seq<usize>| #[trigger] found.contains(q) <==> triangle_counted(m, vertices@, q, i as int, i + 1, 0) by {
                    if is_clique_tuple(m, q, 3) && q[0] == vertices@[i as int] && vertices@.take(i + 1).contains(q[1]) {
                        lemma_take_contains(vertices@, i as int, q[1]);
                        if vertices@.take(i as int).contains(q[1]) {
                            lemma_take_below(vertices@, i as int, q[1]);
                        }
                        assert(q[0] < q[1]);
                    }
                }
            }
            for j in (i + 1)..n
                invariant
                    graph.wf(),
                    m == graph@,
                    i < n,
                    n == vertices@.len(),
                    strictly_increasing(vertices@),
                    forall|x: usize| #[trigger] vertices@.contains(x) <==> m.contains_key(x),
                    clique_tuple_set(m, 3).finite(),
                    clique_count(m, 3) <= usize::MAX,
                    found.finite(),
                    count == found.len(),
                    forall|q: Seq<usize>| #[trigger]
                        found.contains(q) <==> triangle_counted(m, vertices@, q, i as int, j as int, 0),
            {
                let vi = vertices[i];
                let vj = vertices[j];
                if graph.has_edge(vi, vj) {
                    proof {
                        assert forall|q: Seq<usize>| #[trigger] found.contains(q) <==> triangle_counted(m, vertices@, q, i as int, j as int, j + 1) by {
                            if is_clique_tuple(m, q, 3) && q[0] == vi && q[1] == vj && vertices@.take(j + 1).contains(q[2]) {
                                lemma_take_contains(vertices@, j as int, q[2]);
                                if vertices@.take(j as int).contains(q[2]) {
                                    lemma_take_below(vertices@, j as int, q[2]);
                                }
                                assert(q[1] < q[2]);
                            }
                        }
                    }
                    for k in (j + 1)..n
                        invariant
                            graph.wf(),
                            m == graph@,
                            i < j < n,
                            vi == vertices@[i as int],
                            vj == vertices@[j as int],
                            adjacent(m, vi, vj),
                            n == vertices@.len(),
                            strictly_increasing(vertices@),
                            forall|x: usize| #[trigger] vertices@.contains(x) <==> m.contains_key(x),
                            clique_tuple_set(m, 3).finite(),
                            clique_count(m, 3) <= usize::MAX,
                            found.finite(),
                            count == found.len(),
                            forall|q: Seq<usize>| #[trigger]
                                found.contains(q) <==> triangle_counted(m, vertices@, q, i as int, j as int, k as int),
                    {
                        let vk = vertices[k];
                        let ghost f0 = found;
                        proof {
                            lemma_take_contains(vertices@, k as int, vk);
                        }
                        if graph.has_edge(vi, vk) && graph.has_edge(vj, vk) {
                            let ghost t = seq![vi, vj, vk];
                            proof {
                                assert(vertices@.contains(vi));
                                assert(vertices@.contains(vj));
                                assert(vertices@.contains(vk));
                                assert(vertices@[i as int] < vertices@[j as int]);
                                assert(vertices@[j as int] < vertices@[k as int]);
                                assert(m[vj].contains(vi));
                                assert(m[vk].contains(vi));
                                assert(m[vk].contains(vj));
                                assert(is_clique_tuple(m, t, 3));
                                lemma_take_below(vertices@, i as int, vi);
                                lemma_take_below(vertices@, j as int, vj);
                                lemma_take_below(vertices@, k as int, vk);
                                assert(!found.contains(t));
                                assert(found.insert(t).subset_of(clique_tuple_set(m, 3)));
                                vstd::set_lib::lemma_len_subset(found.insert(t), clique_tuple_set(m, 3));
                            }
                            count = count + 1;
                            proof {
                                found = found.insert(t);
                                assert forall|q: Seq<usize>| #[trigger] found.contains(q) <==> triangle_counted(m, vertices@, q, i as int, j as int, k + 1) by {
                                    lemma_take_contains(vertices@, k as int, q[2]);
                                    if is_clique_tuple(m, q, 3) && q[0] == vi && q[1] == vj && q[2] == vk {
                                        assert(q =~= t);
                                    }
                                }
                            }
                        } else {
                            proof {
                                assert forall|q: Seq<usize>| #[trigger] found.contains(q) <==> triangle_counted(m, vertices@, q, i as int, j as int, k + 1) by {
                                    lemma_take_contains(vertices@, k as int, q[2]);
                                    if is_clique_tuple(m, q, 3) && q[0] == vi && q[1] == vj && q[2] == vk {
                                        assert(adjacent(m, q[0], q[2]));
                                        assert(adjacent(m, q[1], q[2]));
                                    }
                                }
                            }
                        }
                    }
                    proof {
                        assert(vertices@.take(n as int) =~= vertices@);
                        assert forall|q: Seq<usize>| #[trigger] found.contains(q) <==> triangle_counted(m, vertices@, q, i as int, j + 1, 0) by {
                            lemma_take_contains(vertices@, j as int, q[1]);
                            if is_clique_tuple(m, q, 3) {
                                assert(m.contains_key(q[2]));
                                assert(vertices@.contains(q[2]));
                            }
                        }
                    }
                } else {
                    proof {
                        assert forall|q: Seq<usize>| #[trigger] found.contains(q) <==> triangle_counted(m, vertices@, q, i as int, j + 1, 0) by {
                            lemma_take_contains(vertices@, j as int, q[1]);
                            if is_clique_tuple(m, q, 3) && q[0] == vi && q[1] == vj {
                                assert(adjacent(m, q[0], q[1]));
                            }
                        }
                    }
                }
            }
            proof {
                assert(vertices@.take(n as int) =~= vertices@);
                assert forall|q: Seq<usize>| #[trigger] found.contains(q) <==> triangle_counted(m, vertices@, q, i + 1, 0, 0) by {
                    lemma_take_contains(vertices@, i as int, q[0]);
                    if is_clique_tuple(m, q, 3) {
                        assert(m.contains_key(q[1]));
                        assert(vertices@.contains(q[1]));
                    }
                }
            }
        }
        proof {
            assert(vertices@.take(n as int) =~= vertices@);
            assert forall|q: Seq<usize>| #[trigger] found.contains(q) <==> clique_tuple_set(m, 3).contains(q) by {
                if is_clique_tuple(m, q, 3) {
                    assert(m.contains_key(q[0]));
                    assert(vertices@.contains(q[0]));
                }
            }
            assert(found =~= clique_tuple_set(m, 3));
        }
        count
    }
}

} // verus!
