//! Undirected graphs over `usize` vertex ids, held as adjacency sets.

use std::collections::HashMap;
use std::collections::HashSet;
use vstd::prelude::*;
use vstd::std_specs::iter::IteratorSpec;

use crate::sorted::{sort_distinct, strictly_increasing};

verus! {

broadcast use vstd::std_specs::hash::group_hash_axioms;

/// An adjacency map is well formed when it is finite, every neighbour is a
/// vertex, and adjacency is symmetric.
pub open spec fn well_formed_adjacency(m: Map<usize, Set<usize>>) -> bool {
    &&& m.dom().finite()
    &&& forall|u: usize| #[trigger] m.contains_key(u) ==> m[u].finite()
    &&& forall|u: usize, w: usize|
        #![trigger m[u].contains(w)]
        m.contains_key(u) && m[u].contains(w) ==> m.contains_key(w) && m[w].contains(u)
}

/// `w` is a neighbour of `u`.
pub open spec fn adjacent(m: Map<usize, Set<usize>>, u: usize, w: usize) -> bool {
    m.contains_key(u) && m[u].contains(w)
}

/// `m` with vertex `v` added, with no neighbours if it is new.
pub open spec fn vertex_added(m: Map<usize, Set<usize>>, v: usize) -> Map<usize, Set<usize>> {
    if m.contains_key(v) {
        m
    } else {
        m.insert(v, Set::empty())
    }
}

/// `m` with the undirected edge between `u` and `v` added, and both ends
/// added as vertices.
pub open spec fn edge_added(m: Map<usize, Set<usize>>, u: usize, v: usize) -> Map<
    usize,
    Set<usize>,
> {
    Map::new(
        |x: usize| m.contains_key(x) || x == u || x == v,
        |x: usize|
            {
                let base = if m.contains_key(x) {
                    m[x]
                } else {
                    Set::empty()
                };
                let with_v = if x == u {
                    base.insert(v)
                } else {
                    base
                };
                if x == v {
                    with_v.insert(u)
                } else {
                    with_v
                }
            },
    )
}

/// The graph on `0..n` with no edges.
pub open spec fn edgeless(n: nat) -> Map<usize, Set<usize>> {
    Map::new(|x: usize| x < n, |x: usize| Set::empty())
}

/// The number of neighbours of `v`, 0 for a vertex that is absent.
pub open spec fn spec_degree(m: Map<usize, Set<usize>>, v: usize) -> nat {
    if m.contains_key(v) {
        m[v].len()
    } else {
        0
    }
}

/// The edges of `m` as pairs `(a, b)` with `a < b`; self-loops are not
/// among them.
pub open spec fn edge_set(m: Map<usize, Set<usize>>) -> Set<(usize, usize)> {
    Set::new(|p: (usize, usize)| p.0 < p.1 && adjacent(m, p.0, p.1))
}

/// The complete graph on `0..n`: every two distinct vertices are adjacent.
pub open spec fn complete_graph(n: nat) -> Map<usize, Set<usize>> {
    Map::new(|x: usize| x < n, |x: usize| Set::new(|y: usize| y < n && y != x))
}

/// The cycle on `0..n`: `x` and `(x + 1) % n` are adjacent.
pub open spec fn cycle_graph(n: nat) -> Map<usize, Set<usize>> {
    Map::new(
        |x: usize| x < n,
        |x: usize| Set::new(|y: usize| y < n && (y == (x + 1) % (n as int) || x == (y + 1) % (n as int))),
    )
}

/// The path on `0..n`: `x` and `x + 1` are adjacent.
pub open spec fn path_graph(n: nat) -> Map<usize, Set<usize>> {
    Map::new(|x: usize| x < n, |x: usize| Set::new(|y: usize| y < n && (y == x + 1 || x == y + 1)))
}

/// The complete graph after the rows before `i`, and row `i` up to `j`,
/// have been joined.
spec fn complete_prefix(n: nat, i: nat, j: nat) -> Map<usize, Set<usize>> {
    Map::new(
        |x: usize| x < n,
        |x: usize|
            Set::new(
                |y: usize|
                    y < n && y != x && ((x < i || y < i) || (x == i && i < y < j) || (y == i && i
                        < x < j)),
            ),
    )
}

/// The cycle after the edges leaving `0..i` have been added.
spec fn cycle_prefix(n: nat, i: nat) -> Map<usize, Set<usize>> {
    Map::new(
        |x: usize| x < n,
        |x: usize|
            Set::new(
                |y: usize|
                    y < n && ((x < i && y == (x + 1) % (n as int)) || (y < i && x == (y + 1) % (
                    n as int))),
            ),
    )
}

/// The path after the edges leaving `0..i` have been added.
spec fn path_prefix(n: nat, i: nat) -> Map<usize, Set<usize>> {
    Map::new(
        |x: usize| x < n,
        |x: usize| Set::new(|y: usize| y < n && ((x < i && y == x + 1) || (y < i && x == y + 1))),
    )
}

/// The vertices of `m` in increasing order.
pub open spec fn vertex_sequence(m: Map<usize, Set<usize>>) -> Seq<usize> {
    choose|q: Seq<usize>|
        strictly_increasing(q) && forall|x: usize| #[trigger] q.contains(x) <==> m.contains_key(x)
}

/// A graph with finitely many vertices lists them in increasing order.
pub proof fn lemma_vertex_sequence(m: Map<usize, Set<usize>>)
    requires
        m.dom().finite(),
    ensures
        strictly_increasing(vertex_sequence(m)),
        forall|x: usize| #[trigger] vertex_sequence(m).contains(x) <==> m.contains_key(x),
        vertex_sequence(m).len() == m.dom().len(),
{
    let q = crate::sorted::lemma_sorted_enumeration(m.dom());
    assert(strictly_increasing(q) && forall|x: usize| #[trigger] q.contains(x) <==> m.contains_key(x));
    let vs = vertex_sequence(m);
    crate::sorted::lemma_increasing_no_duplicates(vs);
    vs.unique_seq_to_set();
    assert(vs.to_set() =~= m.dom());
}

/// A simple undirected graph.
#[derive(Debug, Clone)]
pub struct SimplicialGraph {
    adjacency: HashMap<usize, HashSet<usize>>,
    num_vertices: usize,
}

impl View for SimplicialGraph {
    type V = Map<usize, Set<usize>>;

    /// Each vertex with its set of neighbours.
    closed spec fn view(&self) -> Map<usize, Set<usize>> {
        Map::new(|k: usize| self.adjacency@.contains_key(k), |k: usize| self.adjacency@[k]@)
    }
}

impl SimplicialGraph {
    /// The stored vertex count.
    pub closed spec fn spec_vertex_count(&self) -> nat {
        self.num_vertices as nat
    }

    /// The adjacency is well formed and the stored count is the number of
    /// vertices.
    pub open spec fn wf(&self) -> bool {
        &&& well_formed_adjacency(self@)
        &&& self.spec_vertex_count() == self@.dom().len()
        &&& self@.dom().len() <= usize::MAX
    }

    /// Create a new empty graph.
    pub fn new() -> (g: Self)
        ensures
            g.wf(),
            g@ == Map::<usize, Set<usize>>::empty(),
    {
        let g = SimplicialGraph { adjacency: HashMap::new(), num_vertices: 0 };
        assert(g@ =~= Map::<usize, Set<usize>>::empty());
        g
    }

    /// Create a graph with n isolated vertices.
    pub fn with_vertices(n: usize) -> (g: Self)
        ensures
            g.wf(),
            g@ == edgeless(n as nat),
    {
        let mut adjacency: HashMap<usize, HashSet<usize>> = HashMap::new();
        for v in 0..n
            invariant
                adjacency@.dom() == Set::new(|x: usize| x < v),
                adjacency@.dom().len() == v,
                forall|x: usize| #[trigger] adjacency@.contains_key(x) ==> adjacency@[x]@ == Set::<
                    usize,
                >::empty(),
        {
            let ghost before = adjacency@.dom();
            adjacency.insert(v, HashSet::new());
            assert(adjacency@.dom() =~= Set::new(|x: usize| x < v + 1));
            assert(adjacency@.dom() =~= before.insert(v));
        }
        let g = SimplicialGraph { adjacency, num_vertices: n };
        assert(g@ =~= edgeless(n as nat));
        g
    }

    /// Add a vertex to the graph.
    pub fn add_vertex(&mut self, v: usize)
        requires
            old(self).wf(),
            !old(self)@.contains_key(v) ==> old(self)@.dom().len() < usize::MAX,
        ensures
            final(self).wf(),
            final(self)@ == vertex_added(old(self)@, v),
            final(self)@.dom() == old(self)@.dom().insert(v),
            forall|x: usize, y: usize|
                #[trigger] adjacent(final(self)@, x, y) <==> adjacent(old(self)@, x, y),
    {
        if !self.adjacency.contains_key(&v) {
            let ghost before = self.adjacency@.dom();
            self.adjacency.insert(v, HashSet::new());
            self.num_vertices = self.num_vertices + 1;
            assert(self.adjacency@.dom() =~= before.insert(v));
        }
        assert(self@ =~= vertex_added(old(self)@, v));
        proof {
            crate::laws::law_add_vertex_keeps_edges(old(self)@, v);
        }
    }

    /// Inserts `x` into the neighbour set of the vertex `at`.
    fn link(&mut self, at: usize, x: usize)
        requires
            old(self)@.contains_key(at),
            old(self)@[at].finite(),
        ensures
            final(self).spec_vertex_count() == old(self).spec_vertex_count(),
            final(self)@ == old(self)@.insert(at, old(self)@[at].insert(x)),
    {
        let ghost before = self.adjacency@;
        match self.adjacency.remove(&at) {
            Some(mut ns) => {
                ns.insert(x);
                self.adjacency.insert(at, ns);
                assert(self.adjacency@.dom() =~= before.dom());
            },
            None => {},
        }
        assert(self@ =~= old(self)@.insert(at, old(self)@[at].insert(x)));
    }

    /// Add an undirected edge between u and v.
    pub fn add_edge(&mut self, u: usize, v: usize)
        requires
            old(self).wf(),
            old(self)@.dom().insert(u).insert(v).len() <= usize::MAX,
        ensures
            final(self).wf(),
            final(self)@ == edge_added(old(self)@, u, v),
            final(self)@.dom() == old(self)@.dom().insert(u).insert(v),
            forall|x: usize, y: usize|
                #[trigger] adjacent(final(self)@, x, y) <==> (adjacent(old(self)@, x, y) || (x == u
                    && y == v) || (x == v && y == u)),
    {
        proof {
            let d = old(self)@.dom();
            if !d.contains(u) {
                assert(d.insert(u).len() == d.len() + 1);
                assert(d.insert(u).insert(v).len() >= d.insert(u).len());
            }
        }
        self.add_vertex(u);
        proof {
            let d = self@.dom();
            assert(d.insert(v) =~= old(self)@.dom().insert(u).insert(v));
        }
        self.add_vertex(v);
        let ghost m1 = self@;
        self.link(u, v);
        self.link(v, u);
        let ghost m = old(self)@;
        assert(self@ =~= edge_added(m, u, v));
        assert forall|a: usize, w: usize|
            #![trigger self@[a].contains(w)]
            self@.contains_key(a) && self@[a].contains(w) implies self@.contains_key(w)
            && self@[w].contains(a) by {
            if m.contains_key(a) && m[a].contains(w) {
            }
        }
        assert(self@.dom() =~= m1.dom());
        assert(self@.dom() =~= m.dom().insert(u).insert(v));
        assert forall|x: usize, y: usize|
            #[trigger] adjacent(self@, x, y) <==> (adjacent(m, x, y) || (x == u && y == v) || (x == v
                && y == u)) by {
            crate::laws::law_add_edge_undirected(m, u, v, x, y);
        }
    }

    /// Get the neighbors of a vertex.
    pub fn neighbors(&self, v: usize) -> (r: Option<&HashSet<usize>>)
        ensures
            match r {
                Some(ns) => self@.contains_key(v) && ns@ == self@[v],
                None => !self@.contains_key(v),
            },
    {
        self.adjacency.get(&v)
    }

    /// Number of vertices.
    pub fn vertex_count(&self) -> (n: usize)
        requires
            self.wf(),
        ensures
            n == self@.dom().len(),
    {
        self.num_vertices
    }

    /// Check if edge (u, v) exists.
    pub fn has_edge(&self, u: usize, v: usize) -> (b: bool)
        ensures
            b == adjacent(self@, u, v),
    {
        match self.adjacency.get(&u) {
            Some(ns) => ns.contains(&v),
            None => false,
        }
    }

    /// Degree of a vertex.
    pub fn degree(&self, v: usize) -> (d: usize)
        requires
            self.wf(),
        ensures
            d == spec_degree(self@, v),
    {
        match self.adjacency.get(&v) {
            Some(ns) => ns.len(),
            None => 0,
        }
    }

    /// Get all vertices, in increasing order.
    pub fn vertices(&self) -> (r: Vec<usize>)
        requires
            self.wf(),
        ensures
            strictly_increasing(r@),
            forall|x: usize| #[trigger] r@.contains(x) <==> self@.contains_key(x),
            r@.len() == self@.dom().len(),
            r@ == vertex_sequence(self@),
    {
        let mut keys: Vec<usize> = Vec::new();
        let ghost all = self.adjacency.keys().remaining();
        for k in it: self.adjacency.keys()
            invariant
                it.seq() == all,
                keys@ == all.take(it.index()).unref(),
        {
            keys.push(*k);
            assert(keys@ =~= it.seq().take(it.index() + 1).unref());
        }
        proof {
            assert(keys@ =~= all.unref());
            assert(keys@.to_set() =~= self@.dom());
        }
        let r = sort_distinct(&keys);
        proof {
            crate::sorted::lemma_increasing_no_duplicates(r@);
            r@.unique_seq_to_set();
            assert(r@.to_set() =~= self@.dom());
            lemma_vertex_sequence(self@);
            crate::sorted::lemma_increasing_unique(r@, vertex_sequence(self@));
        }
        r
    }

    /// Get all edges as sorted pairs, grouped by their smaller end in
    /// increasing order.
    pub fn edges(&self) -> (r: Vec<(usize, usize)>)
        requires
            self.wf(),
        ensures
            r@.no_duplicates(),
            forall|p: (usize, usize)| #[trigger] r@.contains(p) <==> edge_set(self@).contains(p),
            forall|i: int, j: int| 0 <= i < j < r@.len() ==> r@[i].0 <= r@[j].0,
    {
        let mut edges: Vec<(usize, usize)> = Vec::new();
        let verts = self.vertices();
        let nv = verts.len();
        for i in 0..nv
            invariant
                nv == verts@.len(),
                self.wf(),
                strictly_increasing(verts@),
                forall|x: usize| #[trigger] verts@.contains(x) <==> self@.contains_key(x),
                edges@.no_duplicates(),
                forall|p: (usize, usize)| #[trigger]
                    edges@.contains(p) <==> (edge_set(self@).contains(p) && verts@.take(
                        i as int,
                    ).contains(p.0)),
                forall|a: int, b: int| 0 <= a < b < edges@.len() ==> edges@[a].0 <= edges@[b].0,
                forall|a: int| 0 <= a < edges@.len() && i < nv ==> edges@[a].0 < verts@[i as int],
        {
            let v = verts[i];
            let ghost before = edges@;
            proof {
                assert forall|p: (usize, usize)| #[trigger] before.contains(p) implies p.0 < v by {
                    let k = choose|k: int| 0 <= k < i && verts@.take(i as int)[k] == p.0;
                    assert(verts@[k] == p.0);
                }
            }
            match self.adjacency.get(&v) {
                Some(neighbors) => {
                    let ghost all = neighbors.iter().remaining();
                    assert(neighbors@ == self@[v]);
                    for u in it: neighbors.iter()
                        invariant
                            it.seq() == all,
                            all.unref().to_set() == self@[v],
                            all.no_duplicates(),
                            self@.contains_key(v),
                            edges@.no_duplicates(),
                            forall|p: (usize, usize)| #[trigger] before.contains(p) ==> p.0 < v,
                            forall|p: (usize, usize)| #[trigger]
                                edges@.contains(p) <==> (before.contains(p) || (p.0 == v && v
                                    < p.1 && all.take(it.index()).unref().contains(p.1))),
                            forall|a: int, b: int|
                                0 <= a < b < edges@.len() ==> edges@[a].0 <= edges@[b].0,
                            forall|a: int| 0 <= a < edges@.len() ==> edges@[a].0 <= v,
                    {
                        let ghost idx = it.index();
                        let ghost prev = edges@;
                        if *u > v {
                            proof {
                                if prev.contains((v, *u)) {
                                    if !before.contains((v, *u)) {
                                        let t = all.take(idx).unref();
                                        let k = choose|k: int| 0 <= k < t.len() && t[k] == *u;
                                        assert(all[k] == all[idx]);
                                    }
                                }
                            }
                            edges.push((v, *u));
                        }
                        proof {
                            assert forall|p: (usize, usize)| #[trigger] edges@.contains(p) <==> (
                            prev.contains(p) || (*u > v && p == (v, *u))) by {
                                if edges@.contains(p) {
                                    let k = choose|k: int| 0 <= k < edges@.len() && edges@[k] == p;
                                    if k < prev.len() {
                                        assert(prev[k] == p);
                                    }
                                }
                                if prev.contains(p) {
                                    let k = choose|k: int| 0 <= k < prev.len() && prev[k] == p;
                                    assert(edges@[k] == p);
                                }
                                if *u > v && p == (v, *u) {
                                    assert(edges@[prev.len() as int] == p);
                                }
                            }
                            let t0 = all.take(idx).unref();
                            let t1 = all.take(idx + 1).unref();
                            assert forall|y: usize| #[trigger] t1.contains(y) <==> (t0.contains(y)
                                || y == *u) by {
                                if t1.contains(y) {
                                    let k = choose|k: int| 0 <= k < t1.len() && t1[k] == y;
                                    if k < idx {
                                        assert(t0[k] == y);
                                    }
                                }
                                if t0.contains(y) {
                                    let k = choose|k: int| 0 <= k < t0.len() && t0[k] == y;
                                    assert(t1[k] == y);
                                }
                                if y == *u {
                                    assert(t1[idx] == y);
                                }
                            }
                        }
                    }
                    proof {
                        assert(all.take(all.len() as int) == all);
                    }
                },
                None => {},
            }
            proof {
                let t0 = verts@.take(i as int);
                let t1 = verts@.take(i + 1);
                assert forall|y: usize| #[trigger] t1.contains(y) <==> (t0.contains(y) || y == v) by {
                    if t1.contains(y) {
                        let k = choose|k: int| 0 <= k < t1.len() && t1[k] == y;
                        if k < i {
                            assert(t0[k] == y);
                        }
                    }
                    if t0.contains(y) {
                        let k = choose|k: int| 0 <= k < t0.len() && t0[k] == y;
                        assert(t1[k] == y);
                    }
                    if y == v {
                        assert(t1[i as int] == y);
                    }
                }
                assert forall|p: (usize, usize)| #[trigger]
                    edges@.contains(p) <==> (edge_set(self@).contains(p) && t1.contains(p.0)) by {
                    if edges@.contains(p) && !before.contains(p) {
                        assert(self@[v].contains(p.1));
                    }
                    if edge_set(self@).contains(p) && p.0 == v {
                        assert(self@[v].contains(p.1));
                        assert(self@.contains_key(v));
                    }
                }
            }
        }
        proof {
            assert(verts@.take(nv as int) == verts@);
        }
        edges
    }

    /// Number of edges.
    pub fn edge_count(&self) -> (n: usize)
        requires
            self.wf(),
        ensures
            edge_set(self@).finite(),
            n == edge_set(self@).len(),
    {
        let e = self.edges();
        proof {
            e@.unique_seq_to_set();
            assert(e@.to_set() =~= edge_set(self@));
        }
        e.len()
    }

    /// Create a complete graph K_n.
    pub fn complete(n: usize) -> (g: Self)
        ensures
            g.wf(),
            g@ == complete_graph(n as nat),
    {
        let mut g = Self::with_vertices(n);
        assert(g@ =~~= complete_prefix(n as nat, 0, 0));
        for i in 0..n
            invariant
                g.wf(),
                g@ == complete_prefix(n as nat, i as nat, 0),
        {
            assert(g@ =~~= complete_prefix(n as nat, i as nat, (i + 1) as nat));
            for j in (i + 1)..n
                invariant
                    i < n,
                    g.wf(),
                    g@ == complete_prefix(n as nat, i as nat, j as nat),
            {
                let ghost before = g@;
                assert(before.dom().insert(i).insert(j) =~= before.dom());
                g.add_edge(i, j);
                assert(g@ =~~= complete_prefix(n as nat, i as nat, (j + 1) as nat));
            }
            assert(g@ =~~= complete_prefix(n as nat, (i + 1) as nat, 0));
        }
        assert(g@ =~~= complete_graph(n as nat));
        g
    }

    /// Create a cycle graph C_n.
    pub fn cycle(n: usize) -> (g: Self)
        ensures
            g.wf(),
            g@ == cycle_graph(n as nat),
            forall|x: usize| x < n ==> #[trigger] adjacent(g@, x, ((x + 1) % (n as int)) as usize),
            n >= 3 ==> forall|x: usize| x < n ==> #[trigger] spec_degree(g@, x) == 2,
    {
        proof {
            crate::laws::law_cycle_neighbours(n as nat);
        }
        let mut g = Self::with_vertices(n);
        assert(g@ =~~= cycle_prefix(n as nat, 0));
        for i in 0..n
            invariant
                g.wf(),
                g@ == cycle_prefix(n as nat, i as nat),
        {
            let next = (i + 1) % n;
            let ghost before = g@;
            assert(before.dom().insert(i).insert(next) =~= before.dom());
            g.add_edge(i, next);
            assert(g@ =~~= cycle_prefix(n as nat, (i + 1) as nat));
        }
        assert(g@ =~~= cycle_graph(n as nat));
        g
    }

    /// Create a path graph P_n.
    pub fn path(n: usize) -> (g: Self)
        ensures
            g.wf(),
            g@ == path_graph(n as nat),
            forall|x: usize| x + 1 < n ==> #[trigger] adjacent(g@, x, (x + 1) as usize),
            forall|x: usize, y: usize| #[trigger] adjacent(g@, x, y) ==> y == x + 1 || x == y + 1,
            n >= 2 ==> spec_degree(g@, 0) == 1 && spec_degree(g@, (n - 1) as usize) == 1,
            forall|x: usize| 0 < x && x + 1 < n ==> #[trigger] spec_degree(g@, x) == 2,
    {
        proof {
            crate::laws::law_path_neighbours(n as nat);
        }
        let mut g = Self::with_vertices(n);
        assert(g@ =~~= path_prefix(n as nat, 0));
        let last = n.saturating_sub(1);
        for i in 0..last
            invariant
                last == if n == 0 { 0 } else { n - 1 },
                g.wf(),
                g@ == path_prefix(n as nat, i as nat),
        {
            let ghost before = g@;
            assert(before.dom().insert(i).insert((i + 1) as usize) =~= before.dom());
            g.add_edge(i, i + 1);
            assert(g@ =~~= path_prefix(n as nat, (i + 1) as nat));
        }
        assert(g@ =~~= path_graph(n as nat));
        g
    }
}

} // verus!
