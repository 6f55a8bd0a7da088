//! Clique complexes: the simplices of dimension `k` are the cliques of
//! `k + 1` vertices.

use std::collections::BTreeSet;
use vstd::prelude::*;

use crate::chains::{alternating_betti_sum, boundary_matrix, rank_mod};
use crate::components::component_count;
use crate::graph::{adjacent, edge_set, well_formed_adjacency, SimplicialGraph};
use crate::homology::{cycle_rank, EulerCharacteristic, GraphHomology};
use crate::sorted::{
    insert_sorted, lemma_increasing_no_duplicates, lemma_increasing_unique, lemma_lex_asymmetric,
    same_seq, seq_lex_lt, set_lex_lt, strictly_increasing,
};

verus! {

broadcast use vstd::std_specs::btree::group_btree_axioms, vstd::laws_cmp::group_laws_cmp;

/// `s` is a clique of `m`: a finite set of vertices, any two distinct of
/// which are adjacent.
pub open spec fn is_clique(m: Map<usize, Set<usize>>, s: Set<usize>) -> bool {
    &&& s.finite()
    &&& forall|x: usize| #[trigger] s.contains(x) ==> m.contains_key(x)
    &&& forall|x: usize, y: usize|
        #![trigger s.contains(x), s.contains(y)]
        s.contains(x) && s.contains(y) && x != y ==> adjacent(m, x, y)
}

/// `q` lists a clique of `n` vertices in increasing order.
pub open spec fn is_clique_tuple(m: Map<usize, Set<usize>>, q: Seq<usize>, n: nat) -> bool {
    &&& strictly_increasing(q)
    &&& q.len() == n
    &&& forall|i: int| 0 <= i < q.len() ==> #[trigger] m.contains_key(q[i])
    &&& forall|i: int, j: int|
        #![trigger adjacent(m, q[i], q[j])]
        0 <= i < q.len() && 0 <= j < q.len() && i != j ==> adjacent(m, q[i], q[j])
}

/// The increasing tuples of `n` vertices that form cliques.
pub open spec fn clique_tuple_set(m: Map<usize, Set<usize>>, n: nat) -> Set<Seq<usize>> {
    Set::new(|q: Seq<usize>| is_clique_tuple(m, q, n))
}

/// The number of cliques of `n` vertices.
pub open spec fn clique_count(m: Map<usize, Set<usize>>, n: nat) -> nat {
    clique_tuple_set(m, n).len()
}

/// `w` is the clique number of `m`: some clique has `w` vertices and
/// none has more.
pub open spec fn is_clique_number(m: Map<usize, Set<usize>>, w: nat) -> bool {
    &&& exists|s: Set<usize>| #[trigger] is_clique(m, s) && s.len() == w
    &&& forall|s: Set<usize>| #[trigger] is_clique(m, s) ==> s.len() <= w
}

/// The sum over `k <= d` of (-1)^k times the number of cliques of `k + 1`
/// vertices.
pub open spec fn alternating_clique_sum(m: Map<usize, Set<usize>>, d: nat) -> int
    decreases d,
{
    let term = if d % 2 == 0 {
        clique_count(m, d + 1) as int
    } else {
        -(clique_count(m, d + 1) as int)
    };
    if d == 0 {
        term
    } else {
        alternating_clique_sum(m, (d - 1) as nat) + term
    }
}

/// `ts` lists every clique of `n` vertices once, as increasing tuples in
/// lexicographic order.
spec fn tuple_listing(m: Map<usize, Set<usize>>, ts: Seq<Vec<usize>>, n: nat) -> bool {
    &&& forall|a: int| 0 <= a < ts.len() ==> #[trigger] is_clique_tuple(m, ts[a]@, n)
    &&& forall|a: int, b: int| 0 <= a < b < ts.len() ==> seq_lex_lt(ts[a]@, ts[b]@)
    &&& forall|q: Seq<usize>|
        #[trigger] is_clique_tuple(m, q, n) ==> exists|a: int| 0 <= a < ts.len() && ts[a]@ == q
}

/// Dropping the largest vertex of a clique tuple leaves a clique tuple.
pub proof fn lemma_base_tuple(m: Map<usize, Set<usize>>, q: Seq<usize>, n: nat)
    requires
        is_clique_tuple(m, q, n),
        n >= 1,
    ensures
        is_clique_tuple(m, q.drop_last(), (n - 1) as nat),
{
    let b = q.drop_last();
    assert forall|i: int| 0 <= i < b.len() implies #[trigger] m.contains_key(b[i]) by {
        assert(m.contains_key(q[i]));
    }
    assert forall|i: int, j: int|
        0 <= i < b.len() && 0 <= j < b.len() && i != j implies #[trigger] adjacent(
        m,
        b[i],
        b[j],
    ) by {
        assert(adjacent(m, q[i], q[j]));
    }
}

/// Inserting a lower vertex into a tuple yields a tuple whose base comes
/// before the tuple it was inserted into.
proof fn lemma_lower_insert_base(t: Seq<usize>, p: int, v: usize)
    requires
        strictly_increasing(t),
        t.len() >= 1,
        v < t.last(),
        0 <= p <= t.len(),
        strictly_increasing(t.insert(p, v)),
    ensures
        seq_lex_lt(t.insert(p, v).drop_last(), t),
{
    let s = t.insert(p, v);
    if p == t.len() {
        assert(s[p - 1] == t.last());
        assert(s[p - 1] < s[p]);
    }
    assert(s[p] == v);
    assert(s[p + 1] == t[p]);
    assert(s[p] < s[p + 1]);
    let b = s.drop_last();
    assert(b.take(p) =~= t.take(p));
    assert(b[p] < t[p]);
}

/// `q` is listed in `ts`.
spec fn in_list(ts: Seq<Vec<usize>>, q: Seq<usize>) -> bool {
    exists|a: int| 0 <= a < ts.len() && #[trigger] ts[a]@ == q
}

/// The extension step reaches tuple `q` before position (`i`, `j`): its
/// base is an earlier tuple of `prev`, or is `prev[i]` and its last vertex
/// is among the first `j` vertices.
spec fn reached_before(
    prev: Seq<Vec<usize>>,
    verts: Seq<usize>,
    q: Seq<usize>,
    i: int,
    j: int,
) -> bool {
    ||| exists|b: int| 0 <= b < i && #[trigger] prev[b]@ == q.drop_last()
    ||| (0 <= i < prev.len() && q.drop_last() == prev[i]@ && verts.take(j).contains(q.last()))
}

/// Tuples that agree but for a smaller last vertex come first.
proof fn lemma_lex_last(a: Seq<usize>, b: Seq<usize>)
    requires
        a.len() == b.len(),
        a.len() >= 1,
        a.drop_last() == b.drop_last(),
        a.last() < b.last(),
    ensures
        seq_lex_lt(a, b),
{
    let i = a.len() - 1;
    assert(a.take(i) =~= a.drop_last());
    assert(b.take(i) =~= b.drop_last());
}

/// Tuples of equal length are ordered as their bases are.
proof fn lemma_lex_base(a: Seq<usize>, b: Seq<usize>)
    requires
        a.len() == b.len(),
        a.len() >= 1,
        seq_lex_lt(a.drop_last(), b.drop_last()),
    ensures
        seq_lex_lt(a, b),
{
    let a1 = a.drop_last();
    let b1 = b.drop_last();
    let i = choose|i: int|
        0 <= i < a1.len() && i < b1.len() && #[trigger] a1.take(i) == b1.take(i) && a1[i] < b1[i];
    assert(a.take(i) =~= a1.take(i));
    assert(b.take(i) =~= b1.take(i));
}

/// Adding to a clique tuple a vertex adjacent to all of it yields a clique
/// tuple.
proof fn lemma_extend_tuple(m: Map<usize, Set<usize>>, t: Seq<usize>, n: nat, p: int, v: usize)
    requires
        well_formed_adjacency(m),
        is_clique_tuple(m, t, n),
        m.contains_key(v),
        !t.contains(v),
        0 <= p <= t.len(),
        strictly_increasing(t.insert(p, v)),
        forall|i: int| 0 <= i < t.len() ==> #[trigger] adjacent(m, t[i], v),
    ensures
        is_clique_tuple(m, t.insert(p, v), n + 1),
{
    let s = t.insert(p, v);
    assert forall|i: int| 0 <= i < s.len() implies #[trigger] m.contains_key(s[i]) by {
        if i < p {
            assert(s[i] == t[i]);
        } else if i > p {
            assert(s[i] == t[i - 1]);
        }
    }
    assert forall|i: int, j: int|
        0 <= i < s.len() && 0 <= j < s.len() && i != j implies #[trigger] adjacent(
        m,
        s[i],
        s[j],
    ) by {
        let ti = if i < p {
            i
        } else {
            i - 1
        };
        let tj = if j < p {
            j
        } else {
            j - 1
        };
        if i == p {
            assert(s[j] == t[tj]);
            assert(adjacent(m, t[tj], v));
            assert(m[t[tj]].contains(v));
        } else if j == p {
            assert(s[i] == t[ti]);
            assert(adjacent(m, t[ti], v));
        } else {
            assert(s[i] == t[ti]);
            assert(s[j] == t[tj]);
            assert(adjacent(m, t[ti], t[tj]));
        }
    }
}

/// Whether `x` occurs in `v`.
fn vec_contains(v: &Vec<usize>, x: usize) -> (r: bool)
    ensures
        r == v@.contains(x),
{
    let n = v.len();
    for i in 0..n
        invariant
            n == v@.len(),
            forall|j: int| 0 <= j < i ==> v@[j] != x,
    {
        if v[i] == x {
            return true;
        }
    }
    false
}

/// Whether `list` holds a vector equal to `q`.
fn listed(list: &Vec<Vec<usize>>, q: &Vec<usize>) -> (r: bool)
    ensures
        r == exists|a: int| 0 <= a < list@.len() && #[trigger] list@[a]@ == q@,
{
    let n = list.len();
    for i in 0..n
        invariant
            n == list@.len(),
            forall|j: int| 0 <= j < i ==> #[trigger] list@[j]@ != q@,
    {
        if same_seq(&list[i], q) {
            return true;
        }
    }
    false
}

/// Clique complex of a graph.
///
/// The k-simplices of the clique complex are the (k+1)-cliques of the graph.
#[derive(Debug, Clone)]
pub struct CliqueComplex {
    /// The underlying graph.
    pub graph: SimplicialGraph,
    /// Maximum dimension of simplices.
    max_dimension: usize,
}

impl CliqueComplex {
    /// The stored maximum dimension.
    pub closed spec fn spec_max_dimension(&self) -> nat {
        self.max_dimension as nat
    }

    /// The underlying graph.
    pub closed spec fn spec_graph(&self) -> SimplicialGraph {
        self.graph
    }

}

/// Whether every vertex of `simplex` is adjacent to `v`.
fn adjacent_to_all(graph: &SimplicialGraph, simplex: &Vec<usize>, v: usize) -> (r: bool)
    ensures
        r == forall|i: int|
            0 <= i < simplex@.len() ==> #[trigger] adjacent(graph@, simplex@[i], v),
{
    let n = simplex.len();
    for i in 0..n
        invariant
            n == simplex@.len(),
            forall|j: int| 0 <= j < i ==> #[trigger] adjacent(graph@, simplex@[j], v),
    {
        if !graph.has_edge(simplex[i], v) {
            return false;
        }
    }
    true
}

/// All cliques of `k + 1` vertices, as increasing tuples in
/// lexicographic order.
fn clique_tuples(graph: &SimplicialGraph, k: usize) -> (ts: Vec<Vec<usize>>)
    requires
        graph.wf(),
    ensures
        tuple_listing(graph@, ts@, (k + 1) as nat),
    decreases k,
{
    let ghost m = graph@;
    let verts = graph.vertices();
    let nv = verts.len();
    if k == 0 {
        let mut result: Vec<Vec<usize>> = Vec::new();
        for i in 0..nv
            invariant
                nv == verts@.len(),
                result@.len() == i,
                forall|a: int| 0 <= a < i ==> #[trigger] result@[a]@ == seq![verts@[a]],
        {
            let single = vec![verts[i]];
            result.push(single);
            assert(result@[i as int]@ == seq![verts@[i as int]]);
        }
        proof {
            assert forall|a: int| 0 <= a < result@.len() implies #[trigger] is_clique_tuple(
                m,
                result@[a]@,
                1,
            ) by {
                assert(verts@.contains(verts@[a]));
            }
            assert forall|a: int, b: int| 0 <= a < b < result@.len() implies seq_lex_lt(
                result@[a]@,
                result@[b]@,
            ) by {
                assert(result@[a]@.take(0) =~= result@[b]@.take(0));
            }
            assert forall|q: Seq<usize>| #[trigger] is_clique_tuple(m, q, 1) implies exists|
                a: int,
            | 0 <= a < result@.len() && result@[a]@ == q by {
                assert(m.contains_key(q[0]));
                assert(verts@.contains(q[0]));
                let a = choose|a: int| 0 <= a < verts@.len() && verts@[a] == q[0];
                assert(result@[a]@ =~= q);
            }
        }
        return result;
    }
    let prev = clique_tuples(graph, k - 1);
    let ghost n: nat = (k + 1) as nat;
    let mut result: Vec<Vec<usize>> = Vec::new();
    let np = prev.len();
    for i in 0..np
        invariant
            graph.wf(),
            m == graph@,
            k >= 1,
            n == k + 1,
            np == prev@.len(),
            nv == verts@.len(),
            strictly_increasing(verts@),
            forall|x: usize| #[trigger] verts@.contains(x) <==> m.contains_key(x),
            tuple_listing(m, prev@, k as nat),
            forall|a: int| 0 <= a < result@.len() ==> #[trigger] is_clique_tuple(m, result@[a]@, n),
            forall|a: int, b: int| 0 <= a < b < result@.len() ==> seq_lex_lt(result@[a]@, result@[b]@),
            forall|q: Seq<usize>| #[trigger] is_clique_tuple(m, q, n) ==> (in_list(result@, q)
                <==> reached_before(prev@, verts@, q, i as int, 0)),
    {
        let simplex = &prev[i];
        let ghost t = simplex@;
        proof {
            assert(is_clique_tuple(m, prev@[i as int]@, k as nat));
        }
        for j in 0..nv
            invariant
                graph.wf(),
                m == graph@,
                k >= 1,
                n == k + 1,
                np == prev@.len(),
                i < np,
                t == prev@[i as int]@,
                simplex@ == t,
                nv == verts@.len(),
                strictly_increasing(verts@),
                forall|x: usize| #[trigger] verts@.contains(x) <==> m.contains_key(x),
                tuple_listing(m, prev@, k as nat),
                forall|a: int| 0 <= a < result@.len() ==> #[trigger] is_clique_tuple(m, result@[a]@, n),
                forall|a: int, b: int| 0 <= a < b < result@.len() ==> seq_lex_lt(result@[a]@, result@[b]@),
                forall|q: Seq<usize>| #[trigger] is_clique_tuple(m, q, n) ==> (in_list(result@, q)
                    <==> reached_before(prev@, verts@, q, i as int, j as int)),
        {
            let v = verts[j];
            let ghost r0 = result@;
            proof {
                assert(is_clique_tuple(m, t, k as nat));
                assert(verts@.take(j + 1) =~= verts@.take(j as int).push(v));
                assert forall|q: Seq<usize>| #[trigger] is_clique_tuple(m, q, n) implies (
                reached_before(prev@, verts@, q, i as int, j + 1) <==> (reached_before(prev@, verts@, q, i as int, j as int)
                    || (q.drop_last() == t && q.last() == v))) by {
                    let tj = verts@.take(j as int);
                    let tj1 = verts@.take(j + 1);
                    if tj1.contains(q.last()) && q.last() != v {
                        let c = choose|c: int| 0 <= c < tj1.len() && tj1[c] == q.last();
                        assert(tj[c] == q.last());
                    }
                    if tj.contains(q.last()) {
                        let c = choose|c: int| 0 <= c < tj.len() && tj[c] == q.last();
                        assert(tj1[c] == q.last());
                    }
                    if q.last() == v {
                        assert(tj1[j as int] == v);
                    }
                }
            }
            if !vec_contains(simplex, v) {
                if adjacent_to_all(graph, simplex, v) {
                    let mut new_simplex = simplex.clone();
                    assert(new_simplex@ =~= t);
                    insert_sorted(&mut new_simplex, v);
                    let ghost sx = new_simplex@;
                    proof {
                        assert(verts@.contains(v));
                        let p = choose|p: int| 0 <= p <= t.len() && #[trigger] t.insert(p, v) == sx;
                        lemma_extend_tuple(m, t, k as nat, p, v);
                    }
                    if !listed(&result, &new_simplex) {
                        proof {
                            let p = choose|p: int| 0 <= p <= t.len() && #[trigger] t.insert(p, v) == sx;
                            if v < t.last() {
                                lemma_lower_insert_base(t, p, v);
                                lemma_base_tuple(m, sx, n);
                                let base = sx.drop_last();
                                let b = choose|b: int| 0 <= b < prev@.len() && prev@[b]@ == base;
                                if b >= i {
                                    if b > i {
                                        assert(seq_lex_lt(prev@[i as int]@, prev@[b]@));
                                    }
                                    lemma_lex_asymmetric(base, t);
                                }
                                assert(reached_before(prev@, verts@, sx, i as int, j as int));
                                assert(false);
                            }
                            assert(t.contains(t.last()));
                            if p < t.len() {
                                assert(sx[p] == v);
                                assert(sx[p + 1] == t[p]);
                                if p < t.len() - 1 {
                                    assert(t[p] < t.last());
                                }
                                assert(sx[p] < sx[p + 1]);
                            }
                            assert(sx =~= t.push(v));
                            assert(sx.drop_last() =~= t);
                            assert forall|a: int| 0 <= a < result@.len() implies seq_lex_lt(
                                result@[a]@,
                                sx,
                            ) by {
                                let ra = result@[a]@;
                                assert(is_clique_tuple(m, ra, n));
                                assert(in_list(result@, ra));
                                if exists|b: int| 0 <= b < i && #[trigger] prev@[b]@ == ra.drop_last() {
                                    let b = choose|b: int| 0 <= b < i && #[trigger] prev@[b]@ == ra.drop_last();
                                    assert(seq_lex_lt(prev@[b]@, prev@[i as int]@));
                                    lemma_lex_base(ra, sx);
                                } else {
                                    let tj = verts@.take(j as int);
                                    let c = choose|c: int| 0 <= c < tj.len() && tj[c] == ra.last();
                                    assert(verts@[c] < verts@[j as int]);
                                    lemma_lex_last(ra, sx);
                                }
                            }
                        }
                        result.push(new_simplex);
                        proof {
                            assert forall|a: int| 0 <= a < result@.len() implies #[trigger] is_clique_tuple(
                                m,
                                result@[a]@,
                                n,
                            ) by {
                                if a < r0.len() {
                                    assert(result@[a] == r0[a]);
                                }
                            }
                            assert forall|a: int, b: int| 0 <= a < b < result@.len() implies seq_lex_lt(
                                result@[a]@,
                                result@[b]@,
                            ) by {
                                assert(result@[a] == r0[a]);
                                if b < r0.len() {
                                    assert(result@[b] == r0[b]);
                                }
                            }
                            assert forall|q: Seq<usize>| #[trigger] is_clique_tuple(m, q, n) implies (
                            in_list(result@, q) <==> (in_list(r0, q) || q == sx)) by {
                                if in_list(result@, q) {
                                    let a = choose|a: int| 0 <= a < result@.len() && #[trigger] result@[a]@ == q;
                                    if a < r0.len() {
                                        assert(r0[a]@ == q);
                                    }
                                }
                                if in_list(r0, q) {
                                    let a = choose|a: int| 0 <= a < r0.len() && #[trigger] r0[a]@ == q;
                                    assert(result@[a]@ == q);
                                }
                                if q == sx {
                                    assert(result@[r0.len() as int]@ == q);
                                }
                            }
                            assert forall|q: Seq<usize>| #[trigger] is_clique_tuple(m, q, n) implies (
                            (q.drop_last() == t && q.last() == v) <==> q == sx) by {
                                if q.drop_last() == t && q.last() == v {
                                    assert(q =~= t.push(v));
                                }
                            }
                        }
                    } else {
                        proof {
                            assert forall|q: Seq<usize>| #[trigger] is_clique_tuple(m, q, n) && q.drop_last() == t
                                && q.last() == v implies in_list(result@, q) by {
                                assert(q.contains(v));
                                assert forall|y: usize| #[trigger] q.contains(y) <==> sx.contains(y) by {
                                    if q.contains(y) {
                                        let c = choose|c: int| 0 <= c < q.len() && q[c] == y;
                                        if c < q.len() - 1 {
                                            assert(t[c] == y);
                                            assert(t.contains(y));
                                        }
                                    }
                                    if sx.contains(y) && y != v {
                                        assert(t.contains(y));
                                        let c = choose|c: int| 0 <= c < t.len() && t[c] == y;
                                        assert(q[c] == y);
                                    }
                                }
                                lemma_increasing_unique(q, sx);
                            }
                        }
                    }
                } else {
                    proof {
                        assert forall|q: Seq<usize>| #[trigger] is_clique_tuple(m, q, n) implies !(
                        q.drop_last() == t && q.last() == v) by {
                            if q.drop_last() == t && q.last() == v {
                                assert forall|c: int| 0 <= c < t.len() implies #[trigger] adjacent(
                                    m,
                                    t[c],
                                    v,
                                ) by {
                                    assert(adjacent(m, q[c], q[q.len() - 1]));
                                }
                            }
                        }
                    }
                }
            } else {
                proof {
                    assert forall|q: Seq<usize>| #[trigger] is_clique_tuple(m, q, n) implies !(
                    q.drop_last() == t && q.last() == v) by {
                        if q.drop_last() == t && q.last() == v {
                            let c = choose|c: int| 0 <= c < t.len() && t[c] == v;
                            assert(q[c] < q[q.len() - 1]);
                        }
                    }
                }
            }
        }
        proof {
            assert(verts@.take(nv as int) =~= verts@);
            assert forall|q: Seq<usize>| #[trigger] is_clique_tuple(m, q, n) implies (
            reached_before(prev@, verts@, q, i as int, nv as int) <==> reached_before(prev@, verts@, q, i + 1, 0)) by {
                assert(m.contains_key(q[q.len() - 1]));
                assert(verts@.contains(q.last()));
                if q.drop_last() == prev@[i as int]@ {
                    assert(exists|b: int| 0 <= b < i + 1 && #[trigger] prev@[b]@ == q.drop_last());
                }
                if exists|b: int| 0 <= b < i + 1 && #[trigger] prev@[b]@ == q.drop_last() {
                    let b = choose|b: int| 0 <= b < i + 1 && #[trigger] prev@[b]@ == q.drop_last();
                    if b < i {
                        assert(exists|b: int| 0 <= b < i && #[trigger] prev@[b]@ == q.drop_last());
                    }
                }
            }
        }
    }
    proof {
        assert forall|q: Seq<usize>| #[trigger] is_clique_tuple(m, q, n) implies exists|a: int|
            0 <= a < result@.len() && result@[a]@ == q by {
            lemma_base_tuple(m, q, n);
            let b = choose|b: int| 0 <= b < prev@.len() && prev@[b]@ == q.drop_last();
            assert(reached_before(prev@, verts@, q, np as int, 0));
        }
    }
    result
}

/// A listing has as many entries as there are cliques of its size.
proof fn lemma_listing_count(m: Map<usize, Set<usize>>, ts: Seq<Vec<usize>>, n: nat)
    requires
        tuple_listing(m, ts, n),
    ensures
        clique_tuple_set(m, n).finite(),
        clique_count(m, n) == ts.len(),
{
    let qs = ts.map_values(|v: Vec<usize>| v@);
    assert forall|a: int, b: int| 0 <= a < qs.len() && 0 <= b < qs.len() && a != b implies qs[a]
        != qs[b] by {
        if a < b {
            lemma_lex_asymmetric(ts[a]@, ts[b]@);
        } else {
            lemma_lex_asymmetric(ts[b]@, ts[a]@);
        }
    }
    qs.unique_seq_to_set();
    assert forall|q: Seq<usize>| #[trigger] clique_tuple_set(m, n).contains(q) <==> qs.to_set().contains(q) by {
        if clique_tuple_set(m, n).contains(q) {
            assert(is_clique_tuple(m, q, n));
            let a = choose|a: int| 0 <= a < ts.len() && ts[a]@ == q;
            assert(qs[a] == q);
        }
        if qs.to_set().contains(q) {
            let a = choose|a: int| 0 <= a < qs.len() && qs[a] == q;
            assert(is_clique_tuple(m, ts[a]@, n));
        }
    }
    assert(clique_tuple_set(m, n) =~= qs.to_set());
}

/// The vertices of a clique tuple form a clique of the same size.
pub proof fn lemma_tuple_clique(m: Map<usize, Set<usize>>, q: Seq<usize>, n: nat)
    requires
        is_clique_tuple(m, q, n),
    ensures
        is_clique(m, q.to_set()),
        q.to_set().len() == n,
{
    lemma_increasing_no_duplicates(q);
    q.unique_seq_to_set();
    assert forall|x: usize, y: usize|
        #![trigger q.to_set().contains(x), q.to_set().contains(y)]
        q.to_set().contains(x) && q.to_set().contains(y) && x != y implies adjacent(m, x, y) by {
        let i = choose|i: int| 0 <= i < q.len() && q[i] == x;
        let j = choose|j: int| 0 <= j < q.len() && q[j] == y;
        assert(adjacent(m, q[i], q[j]));
    }
    assert forall|x: usize| #[trigger] q.to_set().contains(x) implies m.contains_key(x) by {
        let i = choose|i: int| 0 <= i < q.len() && q[i] == x;
        assert(m.contains_key(q[i]));
    }
}

/// Every clique is listed in increasing order by some clique tuple.
pub proof fn lemma_clique_has_tuple(m: Map<usize, Set<usize>>, verts: Seq<usize>, s: Set<usize>) -> (q: Seq<usize>)
    requires
        is_clique(m, s),
        strictly_increasing(verts),
        forall|x: usize| #[trigger] verts.contains(x) <==> m.contains_key(x),
    ensures
        is_clique_tuple(m, q, s.len()),
        q.to_set() == s,
{
    let q = crate::sorted::lemma_increasing_filter(verts, s);
    assert forall|x: usize| #[trigger] q.to_set().contains(x) <==> s.contains(x) by {
        if s.contains(x) {
            assert(m.contains_key(x));
            assert(verts.contains(x));
        }
    }
    assert(q.to_set() =~= s);
    lemma_increasing_no_duplicates(q);
    q.unique_seq_to_set();
    assert forall|i: int| 0 <= i < q.len() implies #[trigger] m.contains_key(q[i]) by {
        assert(q.contains(q[i]));
    }
    assert forall|i: int, j: int|
        0 <= i < q.len() && 0 <= j < q.len() && i != j implies #[trigger] adjacent(m, q[i], q[j]) by {
        assert(q.contains(q[i]));
        assert(q.contains(q[j]));
        assert(s.contains(q[i]));
        assert(s.contains(q[j]));
    }
    q
}

/// The sequences of length `n` over `d`.
spec fn seqs_over(d: Set<usize>, n: nat) -> Set<Seq<usize>> {
    Set::new(|q: Seq<usize>| q.len() == n && forall|i: int| 0 <= i < q.len() ==> #[trigger] d.contains(q[i]))
}

/// There are finitely many sequences of a given length over a finite set.
proof fn lemma_seqs_over_finite(d: Set<usize>, n: nat)
    requires
        d.finite(),
    ensures
        seqs_over(d, n).finite(),
    decreases n,
{
    if n == 0 {
        assert forall|q: Seq<usize>| #[trigger] seqs_over(d, 0).contains(q) <==> set![Seq::<usize>::empty()].contains(q) by {
            if q.len() == 0 {
                assert(q =~= Seq::<usize>::empty());
            }
        }
        assert(seqs_over(d, 0) =~= set![Seq::<usize>::empty()]);
    } else {
        let prev = seqs_over(d, (n - 1) as nat);
        lemma_seqs_over_finite(d, (n - 1) as nat);
        let f = |v: usize| prev.map(|q: Seq<usize>| q.push(v));
        let fam = d.map(f);
        d.lemma_map_finite(f);
        assert forall|s: Set<Seq<usize>>| fam.contains(s) implies #[trigger] s.finite() by {
            let v = choose|v: usize| d.contains(v) && f(v) == s;
            prev.lemma_map_finite(|q: Seq<usize>| q.push(v));
        }
        fam.lemma_flatten_finite();
        assert forall|q: Seq<usize>| #[trigger] seqs_over(d, n).contains(q) implies fam.flatten().contains(q) by {
            let b = q.drop_last();
            let v = q.last();
            assert(d.contains(q[q.len() - 1]));
            assert forall|i: int| 0 <= i < b.len() implies #[trigger] d.contains(b[i]) by {
                assert(d.contains(q[i]));
            }
            assert(prev.contains(b));
            assert(q =~= b.push(v));
            assert(f(v).contains(q));
            assert(fam.contains(f(v)));
        }
        vstd::set_lib::lemma_set_subset_finite(fam.flatten(), seqs_over(d, n));
    }
}

/// A graph with finitely many vertices has finitely many clique tuples.
pub proof fn lemma_clique_tuples_finite(m: Map<usize, Set<usize>>, n: nat)
    requires
        m.dom().finite(),
    ensures
        clique_tuple_set(m, n).finite(),
{
    lemma_seqs_over_finite(m.dom(), n);
    assert forall|q: Seq<usize>| #[trigger] clique_tuple_set(m, n).contains(q) implies seqs_over(
        m.dom(),
        n,
    ).contains(q) by {
        assert forall|i: int| 0 <= i < q.len() implies #[trigger] m.dom().contains(q[i]) by {
            assert(m.contains_key(q[i]));
        }
    }
    vstd::set_lib::lemma_set_subset_finite(seqs_over(m.dom(), n), clique_tuple_set(m, n));
}

/// Bit `i` of `mask` is set.
pub open spec fn bit_set(mask: u32, i: u32) -> bool {
    (mask >> i) & 1u32 == 1u32
}

/// Adding bit `k` to a number below 2^k sets bit `k` and stays below
/// 2^(k+1).
proof fn lemma_add_top_bit(x: u32, k: u32)
    requires
        k < 31,
        x < (1u32 << k),
    ensures
        x + (1u32 << k) < (1u32 << (k + 1) as u32),
        bit_set((x + (1u32 << k)) as u32, k),
        !bit_set(x, k),
        x < (1u32 << (k + 1) as u32),
{
    assert(x + (1u32 << k) < (1u32 << (k + 1) as u32)) by (bit_vector)
        requires
            k < 31,
            x < (1u32 << k),
    ;
    assert((((x + (1u32 << k)) as u32) >> k) & 1u32 == 1u32) by (bit_vector)
        requires
            k < 31,
            x < (1u32 << k),
    ;
    assert((x >> k) & 1u32 != 1u32) by (bit_vector)
        requires
            k < 31,
            x < (1u32 << k),
    ;
    assert(x < (1u32 << (k + 1) as u32)) by (bit_vector)
        requires
            k < 31,
            x < (1u32 << k),
    ;
}

/// Adding bit `k` to a number below 2^k keeps its lower bits.
proof fn lemma_add_top_bit_low(x: u32, k: u32, i: u32)
    requires
        k < 31,
        x < (1u32 << k),
        i < k,
    ensures
        bit_set((x + (1u32 << k)) as u32, i) == bit_set(x, i),
{
    assert(((((x + (1u32 << k)) as u32) >> i) & 1u32 == 1u32) == ((x >> i) & 1u32 == 1u32)) by (bit_vector)
        requires
            k < 31,
            x < (1u32 << k),
            i < k,
    ;
}

/// The vertices among `vs` whose positions are set in `mask`.
pub open spec fn selected(vs: Seq<usize>, mask: u32) -> Set<usize> {
    Set::new(|x: usize| exists|i: int| 0 <= i < vs.len() && vs[i] == x && #[trigger] bit_set(mask, i as u32))
}

/// The mask whose first `k` bits mark the members of `s` among `vs`.
spec fn mask_of(vs: Seq<usize>, s: Set<usize>, k: nat) -> u32
    decreases k,
{
    if k == 0 {
        0
    } else {
        let prev = mask_of(vs, s, (k - 1) as nat);
        if s.contains(vs[k - 1]) {
            (prev + (1u32 << (k - 1) as u32)) as u32
        } else {
            prev
        }
    }
}

/// The mask of `s` stays below 2^k and marks exactly its members.
proof fn lemma_mask_of(vs: Seq<usize>, s: Set<usize>, k: nat)
    requires
        k <= 31,
        k <= vs.len(),
    ensures
        mask_of(vs, s, k) < (1u32 << k as u32),
        forall|i: int| 0 <= i < k ==> (#[trigger] bit_set(mask_of(vs, s, k), i as u32) <==> s.contains(vs[i])),
    decreases k,
{
    if k == 0 {
        assert(0u32 < (1u32 << 0u32)) by (bit_vector);
    } else {
        let j = (k - 1) as nat;
        lemma_mask_of(vs, s, j);
        let x = mask_of(vs, s, j);
        assert forall|i: int| 0 <= i < j implies (#[trigger] bit_set(mask_of(vs, s, k), i as u32)
            <==> bit_set(x, i as u32)) by {
            lemma_add_top_bit_low(x, j as u32, i as u32);
        }
        assert(j as u32 + 1 == k as u32);
        lemma_add_top_bit(x, j as u32);
        assert forall|i: int| 0 <= i < k implies (#[trigger] bit_set(mask_of(vs, s, k), i as u32)
            <==> s.contains(vs[i])) by {
            if i < j {
                assert(bit_set(x, i as u32) <==> s.contains(vs[i]));
            }
        }
    }
}

/// The vertices of `vertices` whose positions are set in `mask`, in order.
fn select_by_mask(vertices: &Vec<usize>, mask: u32) -> (clique: Vec<usize>)
    requires
        strictly_increasing(vertices@),
        vertices@.len() < 32,
    ensures
        strictly_increasing(clique@),
        forall|x: usize| #[trigger] clique@.contains(x) <==> selected(vertices@, mask).contains(x),
{
    let n = vertices.len();
    let mut clique: Vec<usize> = Vec::new();
    for i in 0..n
        invariant
            n == vertices@.len(),
            n < 32,
            strictly_increasing(vertices@),
            strictly_increasing(clique@),
            forall|a: int| 0 <= a < clique@.len() && i < n ==> #[trigger] clique@[a] < vertices@[i as int],
            forall|x: usize| #[trigger] clique@.contains(x) <==> exists|j: int|
                0 <= j < i && vertices@[j] == x && #[trigger] bit_set(mask, j as u32),
    {
        let ghost c0 = clique@;
        if (mask >> i as u32) & 1 == 1 {
            clique.push(vertices[i]);
        }
        proof {
            assert forall|x: usize| #[trigger] clique@.contains(x) <==> exists|j: int|
                0 <= j < i + 1 && vertices@[j] == x && #[trigger] bit_set(mask, j as u32) by {
                if clique@.contains(x) {
                    let k = choose|k: int| 0 <= k < clique@.len() && clique@[k] == x;
                    if k < c0.len() {
                        assert(c0[k] == x);
                        assert(c0.contains(x));
                    } else {
                        assert(bit_set(mask, i as u32));
                    }
                }
                if exists|j: int| 0 <= j < i + 1 && vertices@[j] == x && #[trigger] bit_set(mask, j as u32) {
                    let j = choose|j: int| 0 <= j < i + 1 && vertices@[j] == x && #[trigger] bit_set(mask, j as u32);
                    if j < i {
                        assert(c0.contains(x));
                        let k = choose|k: int| 0 <= k < c0.len() && c0[k] == x;
                        assert(clique@[k] == x);
                    } else {
                        assert(clique@[c0.len() as int] == x);
                    }
                }
            }
            assert forall|a: int| 0 <= a < clique@.len() && i + 1 < n implies #[trigger] clique@[a] < vertices@[i + 1] by {
                assert(vertices@[i as int] < vertices@[i + 1]);
                if a < c0.len() {
                    assert(clique@[a] == c0[a]);
                }
            }
        }
    }
    proof {
        assert forall|x: usize| #[trigger] clique@.contains(x) <==> selected(vertices@, mask).contains(x) by {}
    }
    clique
}

/// Whether every two distinct entries of `clique` are adjacent.
fn all_adjacent(graph: &SimplicialGraph, clique: &Vec<usize>) -> (b: bool)
    ensures
        b == forall|a: int, c: int|
            0 <= a < clique@.len() && 0 <= c < clique@.len() ==> clique@[a] == clique@[c]
                || #[trigger] adjacent(graph@, clique@[a], clique@[c]),
{
    let n = clique.len();
    for a in 0..n
        invariant
            n == clique@.len(),
            forall|x: int, c: int|
                0 <= x < a && 0 <= c < n ==> clique@[x] == clique@[c] || #[trigger] adjacent(
                    graph@,
                    clique@[x],
                    clique@[c],
                ),
    {
        for c in 0..n
            invariant
                n == clique@.len(),
                a < n,
                forall|x: int, y: int|
                    0 <= x < a && 0 <= y < n ==> clique@[x] == clique@[y] || #[trigger] adjacent(
                        graph@,
                        clique@[x],
                        clique@[y],
                    ),
                forall|y: int|
                    0 <= y < c ==> clique@[a as int] == clique@[y] || #[trigger] adjacent(
                        graph@,
                        clique@[a as int],
                        clique@[y],
                    ),
        {
            let v = clique[a];
            let u = clique[c];
            if !(v == u || graph.has_edge(v, u)) {
                return false;
            }
        }
    }
    true
}

/// The size of a largest clique, and 1 for a graph without vertices,
/// searching every subset of the vertices as a bit mask over their
/// increasing order.
fn find_max_clique_size(graph: &SimplicialGraph) -> (r: usize)
    requires
        graph.wf(),
        graph@.dom().len() < 32,
    ensures
        r >= 1,
        graph@.dom().len() > 0 ==> is_clique_number(graph@, r as nat),
        graph@.dom().len() == 0 ==> r == 1,
{
    let ghost m = graph@;
    let vertices = graph.vertices();
    let mut max_size: usize = 1;

    // Check all subsets of vertices (fine for small graphs)
    let n = vertices.len();
    let limit: u32 = 1u32 << n as u32;
    let mut mask: u32 = 1;
    proof {
        assert(1u32 <= (1u32 << n as u32)) by (bit_vector)
            requires
                n < 32,
        ;
    }
    while mask < limit
        invariant
            graph.wf(),
            m == graph@,
            strictly_increasing(vertices@),
            forall|x: usize| #[trigger] vertices@.contains(x) <==> m.contains_key(x),
            vertices@.len() == m.dom().len(),
            n == vertices@.len(),
            n < 32,
            limit == 1u32 << n as u32,
            1 <= mask <= limit,
            1 <= max_size,
            max_size == 1 || exists|s: Set<usize>| #[trigger] is_clique(m, s) && s.len() == max_size,
            forall|mk: u32|
                1 <= mk < mask && #[trigger] is_clique(m, selected(vertices@, mk)) ==> selected(
                    vertices@,
                    mk,
                ).len() <= max_size,
        decreases limit - mask,
    {
        let clique = select_by_mask(&vertices, mask);
        let ghost sel = selected(vertices@, mask);
        proof {
            lemma_increasing_no_duplicates(clique@);
            clique@.unique_seq_to_set();
            assert(clique@.to_set() =~= sel);
        }
        let ghost old_max = max_size;
        if clique.len() > max_size {
            let complete = all_adjacent(graph, &clique);
            if complete {
                proof {
                    assert forall|i: int| 0 <= i < clique@.len() implies #[trigger] m.contains_key(clique@[i]) by {
                        assert(sel.contains(clique@[i]));
                        let j = choose|j: int| 0 <= j < vertices@.len() && vertices@[j] == clique@[i] && #[trigger] bit_set(mask, j as u32);
                        assert(vertices@.contains(vertices@[j]));
                    }
                    assert forall|i: int, j: int| 0 <= i < clique@.len() && 0 <= j < clique@.len() && i != j
                        implies #[trigger] adjacent(m, clique@[i], clique@[j]) by {
                        if i < j {
                            assert(clique@[i] < clique@[j]);
                        } else {
                            assert(clique@[j] < clique@[i]);
                        }
                    }
                    assert(is_clique_tuple(m, clique@, clique@.len()));
                    lemma_tuple_clique(m, clique@, clique@.len());
                }
                max_size = clique.len();
            } else {
                proof {
                    if is_clique(m, sel) {
                        assert forall|a: int, c: int|
                            0 <= a < clique@.len() && 0 <= c < clique@.len() implies clique@[a] == clique@[c]
                                || #[trigger] adjacent(m, clique@[a], clique@[c]) by {
                            assert(sel.contains(clique@[a]));
                            assert(sel.contains(clique@[c]));
                        }
                    }
                }
            }
        }
        proof {
            assert forall|mk: u32|
                1 <= mk < mask + 1 && #[trigger] is_clique(m, selected(vertices@, mk)) implies selected(
                    vertices@,
                    mk,
                ).len() <= max_size by {
                if mk < mask {
                    assert(selected(vertices@, mk).len() <= old_max);
                }
            }
        }
        mask = mask + 1;
    }
    proof {
        assert forall|s: Set<usize>| #[trigger] is_clique(m, s) implies s.len() <= max_size by {
            if s.len() > 0 {
                let mk = mask_of(vertices@, s, n as nat);
                lemma_mask_of(vertices@, s, n as nat);
                assert forall|x: usize| #[trigger] selected(vertices@, mk).contains(x) <==> s.contains(x) by {
                    if s.contains(x) {
                        assert(m.contains_key(x));
                        assert(vertices@.contains(x));
                        let i = choose|i: int| 0 <= i < vertices@.len() && vertices@[i] == x;
                        assert(bit_set(mk, i as u32));
                    }
                    if selected(vertices@, mk).contains(x) {
                        let i = choose|i: int| 0 <= i < vertices@.len() && vertices@[i] == x && #[trigger] bit_set(mk, i as u32);
                        assert(s.contains(vertices@[i]));
                    }
                }
                assert(selected(vertices@, mk) =~= s);
                let x = s.choose();
                assert(s.contains(x));
                assert(selected(vertices@, mk).contains(x));
                if mk == 0 {
                    let i = choose|i: int| 0 <= i < vertices@.len() && vertices@[i] == x && #[trigger] bit_set(mk, i as u32);
                    let iu = i as u32;
                    assert((0u32 >> iu) & 1u32 != 1u32) by (bit_vector);
                }
            }
        }
        if m.dom().len() > 0 {
            if max_size == 1 {
                let v = vertices@[0];
                assert(vertices@.contains(v));
                assert(is_clique(m, set![v]));
                assert(set![v].len() == 1);
            }
        } else {
            if max_size > 1 {
                let s = choose|s: Set<usize>| #[trigger] is_clique(m, s) && s.len() == max_size;
                assert(s.subset_of(m.dom()));
                vstd::set_lib::lemma_len_subset(s, m.dom());
            }
        }
    }
    max_size
}

impl CliqueComplex {
    /// Build the clique complex of a graph of fewer than 32 vertices.
    pub fn from_graph(graph: SimplicialGraph) -> (c: Self)
        requires
            graph.wf(),
            graph@.dom().len() < 32,
        ensures
            c.spec_graph() == graph,
            graph@.dom().len() > 0 ==> is_clique_number(graph@, c.spec_max_dimension() + 1),
            graph@.dom().len() == 0 ==> c.spec_max_dimension() == 0,
    {
        // Find maximum clique size (and hence dimension)
        let max_dim = find_max_clique_size(&graph).saturating_sub(1);
        CliqueComplex { graph, max_dimension: max_dim }
    }

    /// Get all k-simplices: the cliques of `k + 1` vertices, each once, in
    /// lexicographic order of their increasing enumerations.
    pub fn simplices(&self, k: usize) -> (r: Vec<BTreeSet<usize>>)
        requires
            self.spec_graph().wf(),
        ensures
            forall|a: int|
                0 <= a < r@.len() ==> #[trigger] is_clique(self.spec_graph()@, r@[a]@) && r@[a]@.len()
                    == k + 1,
            forall|a: int, b: int| 0 <= a < b < r@.len() ==> set_lex_lt(r@[a]@, r@[b]@),
            forall|s: Set<usize>|
                #[trigger] is_clique(self.spec_graph()@, s) && s.len() == k + 1 ==> exists|a: int|
                    0 <= a < r@.len() && r@[a]@ == s,
            r@.len() == clique_count(self.spec_graph()@, (k + 1) as nat),
    {
        let ghost m = self.graph@;
        let ts = clique_tuples(&self.graph, k);
        let mut r: Vec<BTreeSet<usize>> = Vec::new();
        let nt = ts.len();
        for a in 0..nt
            invariant
                nt == ts@.len(),
                r@.len() == a,
                forall|b: int| 0 <= b < a ==> #[trigger] r@[b]@ == ts@[b]@.to_set(),
        {
            let t = &ts[a];
            let mut set: BTreeSet<usize> = BTreeSet::new();
            let len = t.len();
            for i in 0..len
                invariant
                    len == t@.len(),
                    set@ == t@.take(i as int).to_set(),
            {
                set.insert(t[i]);
                assert(t@.take(i + 1) =~= t@.take(i as int).push(t@[i as int]));
                proof {
                    crate::sorted::lemma_push_to_set(t@.take(i as int), t@[i as int]);
                }
            }
            assert(t@.take(len as int) =~= t@);
            r.push(set);
        }
        proof {
            let verts = crate::sorted::lemma_sorted_enumeration(m.dom());
            assert forall|a: int| 0 <= a < r@.len() implies #[trigger] is_clique(m, r@[a]@)
                && r@[a]@.len() == k + 1 by {
                lemma_tuple_clique(m, ts@[a]@, (k + 1) as nat);
            }
            assert forall|a: int, b: int| 0 <= a < b < r@.len() implies set_lex_lt(r@[a]@, r@[b]@) by {
                assert(is_clique_tuple(m, ts@[a]@, (k + 1) as nat));
                assert(is_clique_tuple(m, ts@[b]@, (k + 1) as nat));
                crate::sorted::lemma_lex_seq_to_set(ts@[a]@, ts@[b]@);
            }
            assert forall|s: Set<usize>| #[trigger] is_clique(m, s) && s.len() == k + 1 implies exists|a: int|
                0 <= a < r@.len() && r@[a]@ == s by {
                let q = lemma_clique_has_tuple(m, verts, s);
                let a = choose|a: int| 0 <= a < ts@.len() && ts@[a]@ == q;
                assert(r@[a]@ == s);
            }
            lemma_listing_count(m, ts@, (k + 1) as nat);
        }
        r
    }

    /// Number of k-simplices.
    pub fn simplex_count(&self, k: usize) -> (c: usize)
        requires
            self.spec_graph().wf(),
        ensures
            c == clique_count(self.spec_graph()@, (k + 1) as nat),
    {
        self.simplices(k).len()
    }

    /// The underlying graph, as the contracts speak of it.
    pub fn graph(&self) -> (g: &SimplicialGraph)
        ensures
            *g == self.spec_graph(),
    {
        &self.graph
    }

    /// Maximum dimension.
    pub fn max_dimension(&self) -> (d: usize)
        ensures
            d == self.spec_max_dimension(),
    {
        self.max_dimension
    }
}

/// Dropping the last vertex of a clique tuple leaves a clique tuple.
proof fn lemma_drop_last_tuple(m: Map<usize, Set<usize>>, q: Seq<usize>, n: nat)
    requires
        is_clique_tuple(m, q, n + 1),
    ensures
        is_clique_tuple(m, q.drop_last(), n),
{
    let p = q.drop_last();
    assert forall|i: int| 0 <= i < p.len() implies #[trigger] m.contains_key(p[i]) by {
        assert(m.contains_key(q[i]));
    }
    assert forall|i: int, j: int|
        0 <= i < p.len() && 0 <= j < p.len() && i != j implies #[trigger] adjacent(m, p[i], p[j]) by {
        assert(adjacent(m, q[i], q[j]));
    }
}

/// A clique tuple has at most as many entries as the graph has vertices.
proof fn lemma_tuple_len_bound(m: Map<usize, Set<usize>>, q: Seq<usize>, n: nat)
    requires
        well_formed_adjacency(m),
        is_clique_tuple(m, q, n),
    ensures
        n <= m.dom().len(),
{
    lemma_tuple_clique(m, q, n);
    assert(q.to_set().subset_of(m.dom()));
    vstd::set_lib::lemma_len_subset(q.to_set(), m.dom());
}

/// `ts` lists every clique of `n` vertices once, as increasing tuples in
/// lexicographic order.
pub open spec fn is_simplex_listing(m: Map<usize, Set<usize>>, ts: Seq<Seq<usize>>, n: nat) -> bool {
    &&& forall|a: int| 0 <= a < ts.len() ==> #[trigger] is_clique_tuple(m, ts[a], n)
    &&& forall|a: int, b: int| 0 <= a < b < ts.len() ==> seq_lex_lt(ts[a], ts[b])
    &&& forall|q: Seq<usize>| #[trigger] is_clique_tuple(m, q, n) ==> ts.contains(q)
}

/// The cliques of `n` vertices, as increasing tuples in lexicographic order:
/// the simplices of dimension n - 1, in the order that indexes the rows and
/// columns of the boundary maps.
pub open spec fn simplex_listing(m: Map<usize, Set<usize>>, n: nat) -> Seq<Seq<usize>> {
    choose|ts: Seq<Seq<usize>>| is_simplex_listing(m, ts, n)
}

/// The rank modulo `MODULUS` of the boundary map ∂_k, from the k-simplices
/// (cliques of k + 1 vertices) to the (k - 1)-simplices, for k >= 1.
pub open spec fn boundary_rank(m: Map<usize, Set<usize>>, k: nat) -> nat {
    rank_mod(
        boundary_matrix(simplex_listing(m, k), simplex_listing(m, k + 1)),
        clique_count(m, k + 1) as int,
        clique_count(m, k) as int,
    )
}

/// The rank r_k of ∂_k as the Betti numbers use it: r_0 = 0; r_1 = V - C,
/// the rank of ∂_1; and for k >= 2 the rank of ∂_k modulo `MODULUS`, capped
/// at f_(k-1) - r_(k-1), the dimension of the (k - 1)-cycles. As
/// ∂_(k-1) ∂_k = 0, the cap is the largest rank that ∂_k can have.
pub open spec fn capped_rank(m: Map<usize, Set<usize>>, k: nat) -> int
    decreases k,
{
    if k == 0 {
        0
    } else if k == 1 {
        m.dom().len() - component_count(m)
    } else {
        let cap = clique_count(m, k) - capped_rank(m, (k - 1) as nat);
        if boundary_rank(m, k) < cap {
            boundary_rank(m, k) as int
        } else {
            cap
        }
    }
}

/// β_k = f_k - r_k - r_(k+1), the rank of the k-th homology of the clique
/// complex, with f_k the number of k-simplices.
pub open spec fn betti_number(m: Map<usize, Set<usize>>, k: nat) -> int {
    clique_count(m, k + 1) - capped_rank(m, k) - capped_rank(m, k + 1)
}

/// The canonical listing of the cliques of `n` vertices exists, and has one
/// entry per clique.
pub proof fn lemma_simplex_listing(m: Map<usize, Set<usize>>, n: nat)
    requires
        well_formed_adjacency(m),
    ensures
        is_simplex_listing(m, simplex_listing(m, n), n),
        simplex_listing(m, n).len() == clique_count(m, n),
{
    lemma_clique_tuples_finite(m, n);
    let ts = crate::sorted::lemma_lex_listing(clique_tuple_set(m, n), n);
    assert(is_simplex_listing(m, ts, n)) by {
        assert forall|a: int| 0 <= a < ts.len() implies #[trigger] is_clique_tuple(m, ts[a], n) by {
            assert(ts.contains(ts[a]));
        }
        assert forall|q: Seq<usize>| #[trigger] is_clique_tuple(m, q, n) implies ts.contains(q) by {
            assert(clique_tuple_set(m, n).contains(q));
        }
    }
    let c = simplex_listing(m, n);
    assert(is_simplex_listing(m, c, n));
    assert forall|a: int, b: int| 0 <= a < c.len() && 0 <= b < c.len() && a != b implies c[a] != c[b] by {
        if a < b {
            lemma_lex_asymmetric(c[a], c[b]);
        } else {
            lemma_lex_asymmetric(c[b], c[a]);
        }
    }
    c.unique_seq_to_set();
    assert forall|q: Seq<usize>| #[trigger] c.to_set().contains(q) <==> clique_tuple_set(m, n).contains(q) by {
        if c.contains(q) {
            let a = choose|a: int| 0 <= a < c.len() && c[a] == q;
            assert(is_clique_tuple(m, c[a], n));
        }
    }
    assert(c.to_set() =~= clique_tuple_set(m, n));
}

/// Two lexicographically sorted sequences with the same elements are equal.
proof fn lemma_lex_sorted_unique(a: Seq<Seq<usize>>, b: Seq<Seq<usize>>)
    requires
        forall|i: int, j: int| 0 <= i < j < a.len() ==> seq_lex_lt(a[i], a[j]),
        forall|i: int, j: int| 0 <= i < j < b.len() ==> seq_lex_lt(b[i], b[j]),
        forall|q: Seq<usize>| a.contains(q) <==> b.contains(q),
    ensures
        a == b,
    decreases a.len(),
{
    if a.len() == 0 {
        if b.len() > 0 {
            assert(b.contains(b[0]));
        }
        assert(a =~= b);
    } else if b.len() == 0 {
        assert(a.contains(a[0]));
    } else {
        assert(a.contains(a[0]));
        assert(b.contains(b[0]));
        let j = choose|j: int| 0 <= j < b.len() && b[j] == a[0];
        let i = choose|i: int| 0 <= i < a.len() && a[i] == b[0];
        if i > 0 && j > 0 {
            assert(seq_lex_lt(b[0], b[j]));
            assert(seq_lex_lt(a[0], a[i]));
            lemma_lex_asymmetric(a[0], b[0]);
        }
        if i > 0 && j == 0 {
            lemma_lex_asymmetric(a[0], a[i]);
        }
        if j > 0 && i == 0 {
            lemma_lex_asymmetric(b[0], b[j]);
        }
        assert(a[0] == b[0]);
        let a1 = a.drop_first();
        let b1 = b.drop_first();
        assert forall|q: Seq<usize>| a1.contains(q) <==> b1.contains(q) by {
            if a1.contains(q) {
                let t = choose|t: int| 0 <= t < a1.len() && a1[t] == q;
                assert(a[t + 1] == q);
                assert(a.contains(q));
                lemma_lex_asymmetric(a[0], a[t + 1]);
                let u = choose|u: int| 0 <= u < b.len() && b[u] == q;
                assert(u != 0);
                assert(b1[u - 1] == q);
            }
            if b1.contains(q) {
                let t = choose|t: int| 0 <= t < b1.len() && b1[t] == q;
                assert(b[t + 1] == q);
                assert(b.contains(q));
                lemma_lex_asymmetric(b[0], b[t + 1]);
                let u = choose|u: int| 0 <= u < a.len() && a[u] == q;
                assert(u != 0);
                assert(a1[u - 1] == q);
            }
        }
        lemma_lex_sorted_unique(a1, b1);
        assert(a =~= seq![a[0]] + a1);
        assert(b =~= seq![b[0]] + b1);
    }
}

/// A listing computed by `clique_tuples` is the canonical one, and its
/// entries are pairwise different.
proof fn lemma_listing_canonical(m: Map<usize, Set<usize>>, ts: Vec<Vec<usize>>, n: nat)
    requires
        tuple_listing(m, ts@, n),
    ensures
        ts.deep_view() == simplex_listing(m, n),
        forall|a: int, b: int| 0 <= a < b < ts@.len() ==> ts@[a]@ != ts@[b]@,
        forall|a: int| 0 <= a < ts@.len() ==> strictly_increasing(#[trigger] ts@[a]@),
{
    let d = ts.deep_view();
    assert forall|a: int| 0 <= a < d.len() implies #[trigger] d[a] == ts@[a]@ by {}
    assert forall|a: int| 0 <= a < d.len() implies #[trigger] is_clique_tuple(m, d[a], n) by {
        assert(is_clique_tuple(m, ts@[a]@, n));
    }
    assert forall|x: int, y: int| 0 <= x < y < d.len() implies seq_lex_lt(d[x], d[y]) by {
        assert(seq_lex_lt(ts@[x]@, ts@[y]@));
    }
    assert forall|q: Seq<usize>| #[trigger] is_clique_tuple(m, q, n) implies d.contains(q) by {
        let a = choose|a: int| 0 <= a < ts@.len() && ts@[a]@ == q;
        assert(d[a] == q);
    }
    assert(is_simplex_listing(m, d, n));
    let c = simplex_listing(m, n);
    assert(is_simplex_listing(m, c, n));
    assert forall|q: Seq<usize>| d.contains(q) <==> c.contains(q) by {
        if d.contains(q) {
            let a = choose|a: int| 0 <= a < d.len() && d[a] == q;
            assert(is_clique_tuple(m, d[a], n));
        }
        if c.contains(q) {
            let a = choose|a: int| 0 <= a < c.len() && c[a] == q;
            assert(is_clique_tuple(m, c[a], n));
        }
    }
    lemma_lex_sorted_unique(d, c);
    assert forall|a: int, b: int| 0 <= a < b < ts@.len() implies ts@[a]@ != ts@[b]@ by {
        lemma_lex_asymmetric(ts@[a]@, ts@[b]@);
    }
    assert forall|a: int| 0 <= a < ts@.len() implies strictly_increasing(#[trigger] ts@[a]@) by {
        assert(is_clique_tuple(m, ts@[a]@, n));
    }
}

/// The rank of the boundary map from the cliques of `k + 1` vertices to
/// those of `k` vertices, given both listings.
fn listing_boundary_rank(
    graph: &SimplicialGraph,
    lower: &Vec<Vec<usize>>,
    upper: &Vec<Vec<usize>>,
    k: usize,
) -> (r: usize)
    requires
        graph.wf(),
        tuple_listing(graph@, lower@, k as nat),
        tuple_listing(graph@, upper@, (k + 1) as nat),
    ensures
        r == boundary_rank(graph@, k as nat),
        r <= clique_count(graph@, (k + 1) as nat),
{
    proof {
        lemma_listing_canonical(graph@, *lower, k as nat);
        lemma_listing_canonical(graph@, *upper, (k + 1) as nat);
        lemma_listing_count(graph@, lower@, k as nat);
        lemma_listing_count(graph@, upper@, (k + 1) as nat);
    }
    let cols = crate::chains::boundary_columns(lower, upper);
    crate::chains::column_rank(&cols, lower.len())
}

/// The rank of ∂_2, from triangles to edges.
pub(crate) fn second_boundary_rank(graph: &SimplicialGraph) -> (r: usize)
    requires
        graph.wf(),
    ensures
        r == boundary_rank(graph@, 2),
{
    let edges = clique_tuples(graph, 1);
    let triangles = clique_tuples(graph, 2);
    listing_boundary_rank(graph, &edges, &triangles, 2)
}

impl GraphHomology {
    /// Compute all Betti numbers for the clique complex up to dimension d.
    ///
    /// β_k = f_k - r_k - r_(k+1), where f_k counts the k-simplices and r_k
    /// is the rank of the boundary map ∂_k (see `capped_rank`): V - C for
    /// ∂_1, and the rank modulo `MODULUS` of the boundary matrix above.
    /// They satisfy the Euler–Poincaré formula once `max_dim` reaches the
    /// top dimension of the complex.
    pub fn betti_numbers(complex: &CliqueComplex, max_dim: usize) -> (betti: Vec<usize>)
        requires
            complex.spec_graph().wf(),
        ensures
            betti@.len() == max_dim + 1,
            forall|k: int|
                0 <= k < betti@.len() ==> #[trigger] betti@[k] == betti_number(
                    complex.spec_graph()@,
                    k as nat,
                ),
            betti@[0] == component_count(complex.spec_graph()@),
            max_dim >= 1 ==> betti@[1] <= cycle_rank(complex.spec_graph()@),
            max_dim >= 1 && clique_count(complex.spec_graph()@, 3) == 0 ==> betti@[1]
                == cycle_rank(complex.spec_graph()@),
            forall|k: int|
                0 <= k < betti@.len() ==> #[trigger] betti@[k] <= clique_count(
                    complex.spec_graph()@,
                    (k + 1) as nat,
                ),
            clique_count(complex.spec_graph()@, (max_dim + 2) as nat) == 0 ==> alternating_betti_sum(
                betti@,
                max_dim as nat,
            ) == alternating_clique_sum(complex.spec_graph()@, max_dim as nat),
    {
        let graph = &complex.graph;
        let ghost m = graph@;
        let v = graph.vertex_count();
        let c = graph.connected_components().len();
        proof {
            crate::laws::law_vertices_are_0_simplices(m);
            crate::laws::law_edges_are_1_simplices(m);
            crate::laws::law_cyclomatic_number_nonnegative(m);
        }
        let mut cur = clique_tuples(graph, 0);
        let mut r_cur: usize = 0;
        let ghost mut rs: Seq<int> = seq![0int];
        let mut betti: Vec<usize> = Vec::new();
        let mut k: usize = 0;
        proof {
            lemma_listing_count(m, cur@, 1);
        }
        loop
            invariant
                graph.wf(),
                m == graph@,
                m == complex.spec_graph()@,
                v == m.dom().len(),
                c == component_count(m),
                c <= v,
                v - c <= edge_set(m).len(),
                clique_count(m, 1) == m.dom().len(),
                clique_count(m, 2) == edge_set(m).len(),
                cycle_rank(m) == edge_set(m).len() - m.dom().len() + component_count(m),
                k <= max_dim,
                tuple_listing(m, cur@, (k + 1) as nat),
                cur@.len() == clique_count(m, (k + 1) as nat),
                betti@.len() == k,
                rs.len() == k + 1,
                rs[k as int] == r_cur,
                forall|j: int| 0 <= j <= k ==> #[trigger] rs[j] == capped_rank(m, j as nat),
                forall|j: int| 0 <= j <= k ==> 0 <= #[trigger] rs[j] <= clique_count(m, (j + 1) as nat),
                forall|j: int|
                    0 <= j < k ==> #[trigger] betti@[j] == clique_count(m, (j + 1) as nat) - rs[j]
                        - rs[j + 1],
                k > 0 ==> alternating_betti_sum(betti@, (k - 1) as nat) == alternating_clique_sum(
                    m,
                    (k - 1) as nat,
                ) - (if (k - 1) % 2 == 0 {
                    rs[k as int]
                } else {
                    -rs[k as int]
                }),
            decreases max_dim - k,
        {
            let f = cur.len();
            let next: Vec<Vec<usize>>;
            let r_next: usize;
            if f == 0 {
                next = Vec::new();
                r_next = 0;
                proof {
                    assert forall|q: Seq<usize>| #[trigger] is_clique_tuple(m, q, (k + 2) as nat) implies exists|a: int|
                        0 <= a < next@.len() && next@[a]@ == q by {
                        lemma_drop_last_tuple(m, q, (k + 1) as nat);
                        let a = choose|a: int| 0 <= a < cur@.len() && cur@[a]@ == q.drop_last();
                    }
                    if k == 0 {
                        assert(v == 0);
                    }
                    lemma_listing_count(m, next@, (k + 2) as nat);
                    assert(capped_rank(m, (k + 1) as nat) == 0);
                }
            } else {
                proof {
                    assert(is_clique_tuple(m, cur@[0]@, (k + 1) as nat));
                    lemma_tuple_len_bound(m, cur@[0]@, (k + 1) as nat);
                }
                next = clique_tuples(graph, k + 1);
                proof {
                    lemma_listing_count(m, next@, (k + 2) as nat);
                }
                if k == 0 {
                    r_next = v - c;
                } else {
                    let rank = listing_boundary_rank(graph, &cur, &next, k + 1);
                    r_next = if rank < f - r_cur {
                        rank
                    } else {
                        f - r_cur
                    };
                    assert(r_next == capped_rank(m, (k + 1) as nat));
                }
            }
            let b = f - r_cur - r_next;
            let ghost old_betti = betti@;
            betti.push(b);
            proof {
                let rs2 = rs.push(r_next as int);
                if k > 0 {
                    crate::chains::lemma_alternating_prefix(old_betti, betti@, (k - 1) as nat);
                }
                assert(alternating_clique_sum(m, k as nat) == (if k == 0 {
                    0
                } else {
                    alternating_clique_sum(m, (k - 1) as nat)
                }) + (if k % 2 == 0 {
                    clique_count(m, (k + 1) as nat) as int
                } else {
                    -(clique_count(m, (k + 1) as nat) as int)
                }));
                assert(alternating_betti_sum(betti@, k as nat) == (if k == 0 {
                    0
                } else {
                    alternating_betti_sum(betti@, (k - 1) as nat)
                }) + (if k % 2 == 0 {
                    b as int
                } else {
                    -(b as int)
                }));
                rs = rs2;
                assert(rs[k + 1] == r_next && r_next <= clique_count(m, (k + 2) as nat));
                assert forall|j: int| 0 <= j <= k + 1 implies #[trigger] rs[j] == capped_rank(m, j as nat) by {
                    if j <= k {
                        assert(rs[j] == rs2[j]);
                    }
                }
                assert forall|j: int| 0 <= j <= k implies #[trigger] betti@[j] == clique_count(
                    m,
                    (j + 1) as nat,
                ) - rs[j] - rs[j + 1] && betti@[j] <= clique_count(m, (j + 1) as nat) by {
                    assert(0 <= rs[j] && 0 <= rs[j + 1]);
                }
                assert(rs[1] == v - c);
                assert(betti@[0] == c);
                if k >= 1 && clique_count(m, 3) == 0 {
                    assert(betti@[1] == clique_count(m, 2) - rs[1] - rs[2]);
                }
            }
            if k == max_dim {
                proof {
                    assert forall|j: int| 0 <= j < betti@.len() implies #[trigger] betti@[j] == betti_number(m, j as nat) by {
                        assert(rs[j] == capped_rank(m, j as nat));
                        assert(rs[j + 1] == capped_rank(m, (j + 1) as nat));
                    }
                }
                return betti;
            }
            k = k + 1;
            cur = next;
            r_cur = r_next;
        }
    }
}

impl EulerCharacteristic {
    /// Compute Euler characteristic for the clique complex: the alternating
    /// sum of the simplex counts up to the maximum dimension.
    pub fn compute_complex(complex: &CliqueComplex) -> (chi: i32)
        requires
            complex.spec_graph().wf(),
            forall|k: nat| k <= complex.spec_max_dimension() ==> #[trigger] clique_count(
                complex.spec_graph()@,
                k + 1,
            ) <= i32::MAX,
            forall|k: nat|
                k <= complex.spec_max_dimension() ==> i32::MIN <= #[trigger] alternating_clique_sum(
                    complex.spec_graph()@,
                    k,
                ) <= i32::MAX,
        ensures
            chi == alternating_clique_sum(complex.spec_graph()@, complex.spec_max_dimension()),
    {
        let ghost m = complex.spec_graph()@;
        let d = complex.max_dimension();
        let mut chi = 0i32;
        let mut sign = 1i32;
        let mut k: usize = 0;
        loop
            invariant
                complex.spec_graph().wf(),
                m == complex.spec_graph()@,
                d == complex.spec_max_dimension(),
                forall|j: nat| j <= d ==> #[trigger] clique_count(m, j + 1) <= i32::MAX,
                forall|j: nat| j <= d ==> i32::MIN <= #[trigger] alternating_clique_sum(m, j) <= i32::MAX,
                k <= d,
                k == 0 ==> chi == 0,
                k > 0 ==> chi == alternating_clique_sum(m, (k - 1) as nat),
                sign == (if k % 2 == 0 {
                    1i32
                } else {
                    -1i32
                }),
            decreases d - k,
        {
            let count = complex.simplex_count(k);
            proof {
                assert(clique_count(m, (k + 1) as nat) <= i32::MAX);
                assert(i32::MIN <= alternating_clique_sum(m, k as nat) <= i32::MAX);
            }
            chi = chi + sign * count as i32;
            sign = sign * -1;
            if k == d {
                return chi;
            }
            k = k + 1;
        }
    }
}

} // verus!
