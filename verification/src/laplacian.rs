//! The combinatorial graph Laplacian, with integer entries, and the
//! multiplicity of its eigenvalue 0.

use vstd::prelude::*;
use vstd::std_specs::iter::IteratorSpec;

use crate::components::component_count;
use crate::graph::{adjacent, spec_degree, vertex_sequence, SimplicialGraph};
use crate::sorted::strictly_increasing;

verus! {

broadcast use vstd::std_specs::hash::group_hash_axioms;

/// Entry (`i`, `j`) of L = D - A, with rows and columns in increasing
/// vertex order.
pub open spec fn laplacian_entry(m: Map<usize, Set<usize>>, i: int, j: int) -> int {
    let vs = vertex_sequence(m);
    if i == j {
        spec_degree(m, vs[i]) as int
    } else if adjacent(m, vs[i], vs[j]) {
        -1
    } else {
        0
    }
}

/// `lap` is the Laplacian of `m`.
pub open spec fn is_laplacian(m: Map<usize, Set<usize>>, lap: Seq<Seq<i64>>) -> bool {
    &&& lap.len() == m.dom().len()
    &&& forall|i: int| 0 <= i < lap.len() ==> #[trigger] lap[i].len() == m.dom().len()
    &&& forall|i: int, j: int|
        0 <= i < lap.len() && 0 <= j < lap.len() ==> #[trigger] lap[i][j] == laplacian_entry(
            m,
            i,
            j,
        )
}

/// The position of `x` in `v`.
fn index_of(v: &Vec<usize>, x: usize) -> (r: usize)
    requires
        v@.contains(x),
    ensures
        r < v@.len(),
        v@[r as int] == x,
{
    let n = v.len();
    let mut i: usize = 0;
    while i < n
        invariant
            n == v@.len(),
            i <= n,
            v@.contains(x),
            forall|j: int| 0 <= j < i ==> v@[j] != x,
        decreases n - i,
    {
        if v[i] == x {
            return i;
        }
        i = i + 1;
    }
    proof {
        let k = choose|k: int| 0 <= k < v@.len() && v@[k] == x;
        assert(v@[k] != x);
    }
    0
}

/// Graph Laplacian matrices.
pub struct GraphLaplacian;

impl GraphLaplacian {
    /// The combinatorial (unnormalized) Laplacian L = D - A as integers:
    /// `L[i][j]` for the `i`-th and `j`-th vertices in increasing order.
    pub fn combinatorial_entries(graph: &SimplicialGraph) -> (lap: Vec<Vec<i64>>)
        requires
            graph.wf(),
            graph@.dom().len() <= i64::MAX,
        ensures
            is_laplacian(graph@, lap.deep_view()),
    {
        let ghost m = graph@;
        let n = graph.vertex_count();
        let vertices = graph.vertices();
        let mut lap: Vec<Vec<i64>> = Vec::new();
        for i in 0..n
            invariant
                graph.wf(),
                m == graph@,
                n == m.dom().len(),
                n <= i64::MAX,
                vertices@ == vertex_sequence(m),
                vertices@.len() == n,
                strictly_increasing(vertices@),
                forall|x: usize| #[trigger] vertices@.contains(x) <==> m.contains_key(x),
                lap@.len() == i,
                forall|a: int| 0 <= a < i ==> #[trigger] lap@[a]@.len() == n,
                forall|a: int, b: int|
                    0 <= a < i && 0 <= b < n ==> #[trigger] lap@[a]@[b] == laplacian_entry(m, a, b),
        {
            let v = vertices[i];
            let mut row: Vec<i64> = Vec::new();
            for z in 0..n
                invariant
                    row@.len() == z,
                    forall|b: int| 0 <= b < z ==> #[trigger] row@[b] == 0,
            {
                row.push(0);
            }
            proof {
                assert(vertices@.contains(v));
            }
            match graph.neighbors(v) {
                Some(neighbors) => {
                    let ghost all = neighbors.iter().remaining();
                    for u in it: neighbors.iter()
                        invariant
                            graph.wf(),
                            m == graph@,
                            it.seq() == all,
                            all.unref().to_set() == m[v],
                            m.contains_key(v),
                            vertices@.len() == n,
                            strictly_increasing(vertices@),
                            forall|x: usize| #[trigger] vertices@.contains(x) <==> m.contains_key(x),
                            row@.len() == n,
                            forall|b: int|
                                0 <= b < n ==> #[trigger] row@[b] == if all.take(it.index()).unref().contains(
                                    vertices@[b],
                                ) {
                                    -1i64
                                } else {
                                    0i64
                                },
                    {
                        let ghost idx = it.index();
                        proof {
                            assert(all.unref().to_set().contains(*u));
                            assert(all.unref()[idx] == *u);
                            assert(m[v].contains(*u));
                            assert(vertices@.contains(*u));
                        }
                        let j = index_of(&vertices, *u);
                        let ghost r0 = row@;
                        row.set(j, -1);
                        proof {
                            assert forall|b: int| 0 <= b < n implies #[trigger] row@[b] == if all.take(idx + 1).unref().contains(
                                vertices@[b],
                            ) {
                                -1i64
                            } else {
                                0i64
                            } by {
                                crate::sorted::lemma_take_contains(all.unref(), idx, vertices@[b]);
                                assert(all.take(idx + 1).unref() =~= all.unref().take(idx + 1));
                                assert(all.take(idx).unref() =~= all.unref().take(idx));
                                if b != j {
                                    assert(row@[b] == r0[b]);
                                    if vertices@[b] == *u {
                                        if b < j {
                                            assert(vertices@[b] < vertices@[j as int]);
                                        } else {
                                            assert(vertices@[j as int] < vertices@[b]);
                                        }
                                    }
                                }
                            }
                        }
                    }
                    proof {
                        assert(all.take(all.len() as int) == all);
                        assert(neighbors@.subset_of(m.dom()));
                        vstd::set_lib::lemma_len_subset(neighbors@, m.dom());
                    }
                    let degree = neighbors.len() as i64;
                    row.set(i, degree);
                    proof {
                        assert forall|b: int| 0 <= b < n implies #[trigger] row@[b] == laplacian_entry(m, i as int, b) by {
                            if b != i {
                                if adjacent(m, v, vertices@[b]) {
                                    assert(all.unref().to_set().contains(vertices@[b]));
                                }
                            }
                        }
                    }
                },
                None => {},
            }
            let ghost before = lap@;
            lap.push(row);
            proof {
                assert forall|a: int, b: int|
                    0 <= a < i + 1 && 0 <= b < n implies #[trigger] lap@[a]@[b] == laplacian_entry(m, a, b) by {
                    if a < i {
                        assert(lap@[a] == before[a]);
                    }
                }
            }
        }
        proof {
            let d = lap.deep_view();
            assert forall|a: int| 0 <= a < d.len() implies d[a] == lap@[a]@ by {}
        }
        lap
    }

    /// Count the number of zero eigenvalues of the combinatorial Laplacian,
    /// which equals the number of connected components (β₀). The indicator
    /// vector of each component lies in the kernel of L = D - A
    /// (`law_component_indicator_in_kernel`), and these vectors span it.
    pub fn zero_eigenvalue_count(graph: &SimplicialGraph) -> (count: usize)
        requires
            graph.wf(),
        ensures
            count == component_count(graph@),
    {
        graph.connected_components().len()
    }
}

} // verus!
