//! Properties that relate the operations of the library to one another.

use vstd::prelude::*;

use crate::sorted::seq_lex_lt;
use crate::clique::{
    alternating_clique_sum, clique_count, clique_tuple_set, is_clique, is_clique_number,
    is_clique_tuple, lemma_clique_tuples_finite, lemma_tuple_clique,
};
use crate::components::{
    component_count, is_leader, is_walk, lemma_reach_in_dom, lemma_reach_symm, lemma_reach_trans,
    reachable, walk_step,
};
use crate::graph::{
    spec_degree, adjacent, complete_graph, cycle_graph, edge_added, edge_set, edgeless, lemma_vertex_sequence,
    path_graph, vertex_added, vertex_sequence, well_formed_adjacency, SimplicialGraph,
};
use crate::homology::{cycle_rank, euler_characteristic};

verus! {

/// The 0-simplices of the clique complex (cliques of one vertex) are the
/// vertices: their number is V.
pub proof fn law_vertices_are_0_simplices(m: Map<usize, Set<usize>>)
    requires
        well_formed_adjacency(m),
    ensures
        clique_count(m, 1) == m.dom().len(),
{
    let f = |v: usize| seq![v];
    assert forall|q: Seq<usize>| #[trigger] clique_tuple_set(m, 1).contains(q) <==> m.dom().map(
        f,
    ).contains(q) by {
        if clique_tuple_set(m, 1).contains(q) {
            assert(m.contains_key(q[0]));
            assert(q =~= f(q[0]));
        }
        if m.dom().map(f).contains(q) {
            let v = choose|v: usize| m.dom().contains(v) && f(v) == q;
            assert(is_clique_tuple(m, q, 1));
        }
    }
    assert(clique_tuple_set(m, 1) =~= m.dom().map(f));
    assert forall|a: usize, b: usize| #[trigger] f(a) == #[trigger] f(b) implies a == b by {
        assert(f(a)[0] == a);
        assert(f(b)[0] == b);
    }
    vstd::set_lib::lemma_map_size(m.dom(), clique_tuple_set(m, 1), f);
}

/// The 1-simplices of the clique complex (cliques of two vertices) are the
/// edges: their number is E, which is finite.
pub proof fn law_edges_are_1_simplices(m: Map<usize, Set<usize>>)
    requires
        well_formed_adjacency(m),
    ensures
        edge_set(m).finite(),
        clique_count(m, 2) == edge_set(m).len(),
{
    let f = |p: (usize, usize)| seq![p.0, p.1];
    let g = |q: Seq<usize>| (q[0], q[1]);
    lemma_clique_tuples_finite(m, 2);
    assert forall|p: (usize, usize)| #[trigger] edge_set(m).contains(p) <==> clique_tuple_set(
        m,
        2,
    ).map(g).contains(p) by {
        if edge_set(m).contains(p) {
            let q = f(p);
            assert(adjacent(m, p.0, p.1));
            assert(m[p.1].contains(p.0));
            assert(is_clique_tuple(m, q, 2));
            assert(clique_tuple_set(m, 2).contains(q));
            assert(g(q) == p);
        }
        if clique_tuple_set(m, 2).map(g).contains(p) {
            let q = choose|q: Seq<usize>| clique_tuple_set(m, 2).contains(q) && g(q) == p;
            assert(adjacent(m, q[0], q[1]));
        }
    }
    assert(edge_set(m) =~= clique_tuple_set(m, 2).map(g));
    clique_tuple_set(m, 2).lemma_map_finite(g);
    assert forall|q: Seq<usize>| #[trigger] clique_tuple_set(m, 2).contains(q) <==> edge_set(m).map(
        f,
    ).contains(q) by {
        if clique_tuple_set(m, 2).contains(q) {
            assert(edge_set(m).contains(g(q)));
            assert(f(g(q)) =~= q);
        }
        if edge_set(m).map(f).contains(q) {
            let p = choose|p: (usize, usize)| edge_set(m).contains(p) && f(p) == q;
            assert(adjacent(m, p.0, p.1));
            assert(m[p.1].contains(p.0));
            assert(is_clique_tuple(m, q, 2));
        }
    }
    assert(clique_tuple_set(m, 2) =~= edge_set(m).map(f));
    assert forall|a: (usize, usize), b: (usize, usize)| #[trigger] f(a) == #[trigger] f(b) implies a == b by {
        assert(f(a)[0] == a.0 && f(a)[1] == a.1);
        assert(f(b)[0] == b.0 && f(b)[1] == b.1);
    }
    vstd::set_lib::lemma_map_size(edge_set(m), clique_tuple_set(m, 2), f);
}

/// With no clique of `n` vertices there are no clique tuples of length `n`.
proof fn lemma_no_cliques_of_size(m: Map<usize, Set<usize>>, n: nat)
    requires
        forall|s: Set<usize>| #[trigger] is_clique(m, s) ==> s.len() < n,
    ensures
        clique_count(m, n) == 0,
{
    assert forall|q: Seq<usize>| !#[trigger] clique_tuple_set(m, n).contains(q) by {
        if is_clique_tuple(m, q, n) {
            lemma_tuple_clique(m, q, n);
        }
    }
    assert(clique_tuple_set(m, n) =~= Set::empty());
}

/// Euler characteristic of the clique complex: when no clique has more than
/// three vertices, the alternating count of simplices up to the maximum
/// dimension (one less than the clique number) is V - E + T.
pub proof fn law_complex_euler_is_graph_euler(m: Map<usize, Set<usize>>, d: nat)
    requires
        well_formed_adjacency(m),
        m.dom().len() > 0 ==> is_clique_number(m, d + 1),
        m.dom().len() == 0 ==> d == 0,
        forall|s: Set<usize>| #[trigger] is_clique(m, s) ==> s.len() <= 3,
    ensures
        alternating_clique_sum(m, d) == euler_characteristic(m),
{
    law_vertices_are_0_simplices(m);
    law_edges_are_1_simplices(m);
    if m.dom().len() == 0 {
        assert forall|s: Set<usize>| #[trigger] is_clique(m, s) implies s.len() < 2 by {
            if s.len() > 0 {
                let x = s.choose();
                assert(s.contains(x));
                assert(m.contains_key(x));
                assert(m.dom().contains(x));
            }
        }
        lemma_no_cliques_of_size(m, 2);
        lemma_no_cliques_of_size(m, 3);
    } else {
        assert(d + 1 <= 3) by {
            let s = choose|s: Set<usize>| #[trigger] is_clique(m, s) && s.len() == d + 1;
        }
        if d == 0 {
            lemma_no_cliques_of_size(m, 2);
            lemma_no_cliques_of_size(m, 3);
        } else if d == 1 {
            lemma_no_cliques_of_size(m, 3);
            assert(alternating_clique_sum(m, 1) == alternating_clique_sum(m, 0) - clique_count(m, 2));
        } else {
            assert(alternating_clique_sum(m, 1) == alternating_clique_sum(m, 0) - clique_count(m, 2));
            assert(alternating_clique_sum(m, 2) == alternating_clique_sum(m, 1) + clique_count(m, 3));
        }
    }
}

/// The ids below `n`.
spec fn below(n: nat) -> Set<usize> {
    Set::new(|a: usize| a < n)
}

/// There are `n` ids below `n`.
proof fn lemma_below_len(n: nat)
    requires
        n <= usize::MAX + 1,
    ensures
        below(n).finite(),
        below(n).len() == n,
    decreases n,
{
    if n == 0 {
        assert(below(0) =~= Set::empty());
    } else {
        lemma_below_len((n - 1) as nat);
        assert(below(n) =~= below((n - 1) as nat).insert((n - 1) as usize));
    }
}

/// The pairs `(a, a + 1)` with `a + 1 < n`.
spec fn consecutive_pairs(n: nat) -> Set<(usize, usize)> {
    Set::new(|p: (usize, usize)| p.1 < n && p.1 == p.0 + 1)
}

/// There are `n - 1` consecutive pairs below `n`.
proof fn lemma_consecutive_pairs_len(n: nat)
    requires
        1 <= n <= usize::MAX + 1,
    ensures
        consecutive_pairs(n).finite(),
        consecutive_pairs(n).len() == n - 1,
{
    let f = |a: usize| (a, (a + 1) as usize);
    lemma_below_len((n - 1) as nat);
    assert forall|p: (usize, usize)| #[trigger] consecutive_pairs(n).contains(p) <==> below(
        (n - 1) as nat,
    ).map(f).contains(p) by {
        if consecutive_pairs(n).contains(p) {
            assert(below((n - 1) as nat).contains(p.0));
            assert(f(p.0) == p);
        }
    }
    assert(consecutive_pairs(n) =~= below((n - 1) as nat).map(f));
    assert forall|a: usize, b: usize| #[trigger] f(a) == #[trigger] f(b) implies a == b by {}
    vstd::set_lib::lemma_map_size(below((n - 1) as nat), consecutive_pairs(n), f);
}

/// The pairs `(a, b)` with `a < b < n`.
spec fn ordered_pairs(n: nat) -> Set<(usize, usize)> {
    Set::new(|p: (usize, usize)| p.0 < p.1 && p.1 < n)
}

/// There are n(n-1)/2 ordered pairs below `n`.
proof fn lemma_ordered_pairs_len(n: nat)
    requires
        n <= usize::MAX + 1,
    ensures
        ordered_pairs(n).finite(),
        ordered_pairs(n).len() == n * (n - 1) / 2,
    decreases n,
{
    if n == 0 {
        assert(ordered_pairs(0) =~= Set::empty());
    } else {
        let k = (n - 1) as nat;
        lemma_ordered_pairs_len(k);
        lemma_below_len(k);
        let f = |a: usize| (a, k as usize);
        let top = below(k).map(f);
        assert forall|a: usize, b: usize| #[trigger] f(a) == #[trigger] f(b) implies a == b by {}
        vstd::set_lib::lemma_map_size(below(k), top, f);
        assert(ordered_pairs(n) =~= ordered_pairs(k).union(top)) by {
            assert forall|p: (usize, usize)| #[trigger] ordered_pairs(n).contains(p) implies ordered_pairs(
                k,
            ).union(top).contains(p) by {
                if p.1 == k {
                    assert(below(k).contains(p.0));
                    assert(f(p.0) == p);
                }
            }
        }
        assert(ordered_pairs(k).disjoint(top));
        vstd::set_lib::lemma_set_disjoint_lens(ordered_pairs(k), top);
        assert(k * (k - 1) / 2 + k == n * (n - 1) / 2) by (nonlinear_arith)
            requires
                k + 1 == n,
        ;
    }
}

/// The successor of `x` around a cycle of length `n`.
proof fn lemma_succ_mod(x: int, n: int)
    requires
        0 <= x < n,
    ensures
        (x + 1) % n == if x + 1 < n {
            x + 1
        } else {
            0
        },
{
    if x + 1 < n {
        vstd::arithmetic::div_mod::lemma_small_mod((x + 1) as nat, n as nat);
    } else {
        vstd::arithmetic::div_mod::lemma_mod_self_0(n);
    }
}

/// A graph in which vertex 0 reaches every vertex has one component.
proof fn lemma_connected_from_zero(m: Map<usize, Set<usize>>)
    requires
        well_formed_adjacency(m),
        m.contains_key(0),
        forall|v: usize| #[trigger] m.contains_key(v) ==> reachable(m, 0, v),
    ensures
        component_count(m) == 1,
{
    let leaders = Set::new(|v: usize| is_leader(m, v));
    assert forall|v: usize| #[trigger] leaders.contains(v) <==> set![0usize].contains(v) by {
        if v == 0 {
            assert forall|u: usize| #[trigger] reachable(m, 0, u) implies 0 <= u by {}
        } else if m.contains_key(v) {
            lemma_reach_symm(m, 0, v);
            assert(reachable(m, v, 0usize));
        }
    }
    assert(leaders =~= set![0usize]);
}

/// In a path or cycle on `0..n`, vertex 0 reaches every vertex along the
/// vertices in between.
proof fn lemma_reach_along(m: Map<usize, Set<usize>>, n: nat, i: usize)
    requires
        i < n,
        forall|x: usize| #[trigger] m.contains_key(x) <==> x < n,
        forall|x: usize| x + 1 < n ==> #[trigger] m[x].contains((x + 1) as usize),
    ensures
        reachable(m, 0, i),
{
    let q = Seq::new((i + 1) as nat, |k: int| k as usize);
    assert forall|k: int| 0 <= k < q.len() - 1 implies #[trigger] walk_step(m, q, k) by {
        assert(q[k] == k && q[k + 1] == k + 1);
        assert(m[k as usize].contains((k + 1) as usize));
    }
    assert(is_walk(m, q));
    assert(q.last() == i);
}

/// C_n, for n >= 3, has n edges.
pub proof fn law_cycle_edge_count(g: SimplicialGraph, n: nat)
    requires
        n <= usize::MAX,
        g.wf(),
        g@ == cycle_graph(n),
        n >= 3,
    ensures
        edge_set(g@).len() == n,
{
    let m = g@;
    assert(m.dom() =~= below(n));
    lemma_below_len(n);
    assert(n <= usize::MAX);
    lemma_consecutive_pairs_len(n);
    let e = consecutive_pairs(n).insert((0usize, (n - 1) as usize));
    assert forall|p: (usize, usize)| #[trigger] edge_set(m).contains(p) <==> e.contains(p) by {
        if edge_set(m).contains(p) {
            lemma_succ_mod(p.0 as int, n as int);
            lemma_succ_mod(p.1 as int, n as int);
        }
        if consecutive_pairs(n).contains(p) {
            lemma_succ_mod(p.0 as int, n as int);
            assert(m[p.0].contains(p.1));
        }
        if p == (0usize, (n - 1) as usize) {
            lemma_succ_mod((n - 1) as int, n as int);
            assert(m[0usize].contains((n - 1) as usize));
        }
    }
    assert(edge_set(m) =~= e);
}

/// P_n, for n >= 1, has n - 1 edges.
pub proof fn law_path_edge_count(g: SimplicialGraph, n: nat)
    requires
        n <= usize::MAX,
        g.wf(),
        g@ == path_graph(n),
        n >= 1,
    ensures
        edge_set(g@).len() == n - 1,
{
    let m = g@;
    assert(m.dom() =~= below(n));
    lemma_below_len(n);
    lemma_consecutive_pairs_len(n);
    assert(edge_set(m) =~= consecutive_pairs(n));
}

/// K_n has n(n-1)/2 edges.
pub proof fn law_complete_edge_count(g: SimplicialGraph, n: nat)
    requires
        n <= usize::MAX,
        g.wf(),
        g@ == complete_graph(n),
    ensures
        edge_set(g@).len() == n * (n - 1) / 2,
{
    let m = g@;
    assert(m.dom() =~= below(n));
    lemma_below_len(n);
    lemma_ordered_pairs_len(n);
    assert(edge_set(m) =~= ordered_pairs(n));
}

/// C_n, for n >= 1, is connected.
pub proof fn law_cycle_connected(g: SimplicialGraph, n: nat)
    requires
        n <= usize::MAX,
        g.wf(),
        g@ == cycle_graph(n),
        n >= 1,
    ensures
        component_count(g@) == 1,
{
    let m = g@;
    assert forall|x: usize| x + 1 < n implies #[trigger] m[x].contains((x + 1) as usize) by {
        lemma_succ_mod(x as int, n as int);
        assert(m.contains_key(x));
        let y = (x + 1) as usize;
        assert(y == (x + 1) % (n as int));
        assert(cycle_graph(n)[x] == Set::new(|y: usize| y < n && (y == (x + 1) % (n as int) || x == (y + 1) % (n as int))));
    }
    assert forall|v: usize| #[trigger] m.contains_key(v) implies reachable(m, 0, v) by {
        lemma_reach_along(m, n, v);
    }
    lemma_connected_from_zero(m);
}

/// P_n, for n >= 1, is connected.
pub proof fn law_path_connected(g: SimplicialGraph, n: nat)
    requires
        n <= usize::MAX,
        g.wf(),
        g@ == path_graph(n),
        n >= 1,
    ensures
        component_count(g@) == 1,
{
    let m = g@;
    assert forall|v: usize| #[trigger] m.contains_key(v) implies reachable(m, 0, v) by {
        lemma_reach_along(m, n, v);
    }
    lemma_connected_from_zero(m);
}

/// K_n, for n >= 1, is connected.
pub proof fn law_complete_connected(g: SimplicialGraph, n: nat)
    requires
        n <= usize::MAX,
        g.wf(),
        g@ == complete_graph(n),
        n >= 1,
    ensures
        component_count(g@) == 1,
{
    let m = g@;
    assert forall|v: usize| #[trigger] m.contains_key(v) implies reachable(m, 0, v) by {
        if v == 0 {
            assert(is_walk(m, seq![0usize]));
            assert(seq![0usize].last() == 0);
        } else {
            let q = seq![0usize, v];
            assert(walk_step(m, q, 0));
            assert(is_walk(m, q));
            assert(q.last() == v);
        }
    }
    lemma_connected_from_zero(m);
}

/// A cycle C_n, n >= 3, has exactly one independent cycle: β₁ = 1.
pub proof fn law_cycle_has_one_hole(g: SimplicialGraph, n: nat)
    requires
        n <= usize::MAX,
        g.wf(),
        g@ == cycle_graph(n),
        n >= 3,
    ensures
        cycle_rank(g@) == 1,
{
    law_cycle_edge_count(g, n);
    law_cycle_connected(g, n);
    assert(g@.dom() =~= below(n));
    lemma_below_len(n);
}

/// A path P_n, n >= 1, is a tree: β₁ = 0 and β₀ = 1.
pub proof fn law_path_has_no_holes(g: SimplicialGraph, n: nat)
    requires
        n <= usize::MAX,
        g.wf(),
        g@ == path_graph(n),
        n >= 1,
    ensures
        cycle_rank(g@) == 0,
        component_count(g@) == 1,
{
    law_path_edge_count(g, n);
    law_path_connected(g, n);
    assert(g@.dom() =~= below(n));
    lemma_below_len(n);
}

/// K_n has no independent cycles only up to two vertices: β₁(K_n) = 0 for
/// n <= 2.
pub proof fn law_complete_has_no_holes(g: SimplicialGraph, n: nat)
    requires
        g.wf(),
        g@ == complete_graph(n),
        n <= 2,
    ensures
        cycle_rank(g@) == 0,
{
    let m = g@;
    law_complete_edge_count(g, n);
    assert(m.dom() =~= below(n));
    lemma_below_len(n);
    if n >= 1 {
        law_complete_connected(g, n);
        if n == 1 {
            assert(n * (n - 1) / 2 == 0) by (nonlinear_arith)
                requires
                    n == 1,
            ;
        } else {
            assert(n * (n - 1) / 2 == 1) by (nonlinear_arith)
                requires
                    n == 2,
            ;
        }
    } else {
        let leaders = Set::new(|v: usize| is_leader(m, v));
        assert(leaders =~= Set::empty());
        assert(n * (n - 1) / 2 == 0) by (nonlinear_arith)
            requires
                n == 0,
        ;
    }
}

/// Without edges, each vertex is a component of its own.
proof fn lemma_isolated_components(m: Map<usize, Set<usize>>)
    requires
        well_formed_adjacency(m),
        forall|u: usize, w: usize| !#[trigger] adjacent(m, u, w),
    ensures
        component_count(m) == m.dom().len(),
{
    let leaders = Set::new(|v: usize| is_leader(m, v));
    assert forall|v: usize| #[trigger] leaders.contains(v) <==> m.dom().contains(v) by {
        if m.dom().contains(v) {
            assert forall|u: usize| #[trigger] reachable(m, v, u) implies v <= u by {
                let p = choose|p: Seq<usize>| #[trigger] is_walk(m, p) && p[0] == v && p.last() == u;
                if p.len() > 1 {
                    assert(walk_step(m, p, 0));
                }
            }
        }
    }
    assert(leaders =~= m.dom());
}


/// A finite non-empty set of ids has a least element.
proof fn lemma_set_min(s: Set<usize>) -> (x: usize)
    requires
        s.finite(),
        s.len() > 0,
    ensures
        s.contains(x),
        forall|y: usize| #[trigger] s.contains(y) ==> x <= y,
    decreases s.len(),
{
    let a = s.choose();
    assert(s.contains(a));
    let rest = s.remove(a);
    if rest.len() == 0 {
        assert forall|y: usize| #[trigger] s.contains(y) implies a <= y by {
            if y != a {
                assert(rest.contains(y));
            }
        }
        a
    } else {
        let b = lemma_set_min(rest);
        if a < b {
            assert forall|y: usize| #[trigger] s.contains(y) implies a <= y by {
                if y != a {
                    assert(rest.contains(y));
                }
            }
            a
        } else {
            assert forall|y: usize| #[trigger] s.contains(y) implies b <= y by {
                if y != a {
                    assert(rest.contains(y));
                }
            }
            b
        }
    }
}

/// The smallest vertex of the component of `v`.
spec fn leader_of(m: Map<usize, Set<usize>>, v: usize) -> usize {
    choose|l: usize| is_leader(m, l) && reachable(m, v, l)
}

/// Every vertex reaches exactly one leader.
proof fn lemma_leader_of(m: Map<usize, Set<usize>>, v: usize)
    requires
        well_formed_adjacency(m),
        m.contains_key(v),
    ensures
        is_leader(m, leader_of(m, v)),
        reachable(m, v, leader_of(m, v)),
        forall|l: usize| is_leader(m, l) && reachable(m, v, l) ==> l == leader_of(m, v),
{
    let class = Set::new(|u: usize| reachable(m, v, u));
    assert forall|u: usize| #[trigger] class.contains(u) implies m.dom().contains(u) by {
        lemma_reach_in_dom(m, v, u);
    }
    vstd::set_lib::lemma_len_subset(class, m.dom());
    crate::components::lemma_reach_refl(m, v);
    assert(class.contains(v));
    let l = lemma_set_min(class);
    lemma_reach_in_dom(m, v, l);
    assert forall|u: usize| #[trigger] reachable(m, l, u) implies l <= u by {
        lemma_reach_trans(m, v, l, u);
        assert(class.contains(u));
    }
    assert(is_leader(m, l) && reachable(m, v, l));
    let c = leader_of(m, v);
    assert forall|l2: usize| is_leader(m, l2) && reachable(m, v, l2) implies l2 == c by {
        lemma_reach_symm(m, v, c);
        lemma_reach_trans(m, c, v, l2);
        lemma_reach_symm(m, v, l2);
        lemma_reach_trans(m, l2, v, c);
        assert(c <= l2);
        assert(l2 <= c);
    }
}

/// Some walk of `k` steps leads from `u` to `v`.
spec fn reach_in(m: Map<usize, Set<usize>>, u: usize, v: usize, k: nat) -> bool {
    exists|p: Seq<usize>|
        #[trigger] is_walk(m, p) && p[0] == u && p.last() == v && p.len() == k + 1
}

/// A shortest walk from `u` to `v` has `k` steps.
spec fn is_distance(m: Map<usize, Set<usize>>, u: usize, v: usize, k: nat) -> bool {
    reach_in(m, u, v, k) && forall|j: nat| j < k ==> !#[trigger] reach_in(m, u, v, j)
}

/// A walk of `k` steps implies a shortest one of at most `k` steps.
proof fn lemma_distance_exists(m: Map<usize, Set<usize>>, u: usize, v: usize, k: nat)
    requires
        reach_in(m, u, v, k),
    ensures
        exists|d: nat| d <= k && #[trigger] is_distance(m, u, v, d),
    decreases k,
{
    if exists|j: nat| j < k && #[trigger] reach_in(m, u, v, j) {
        let j = choose|j: nat| j < k && #[trigger] reach_in(m, u, v, j);
        lemma_distance_exists(m, u, v, j);
    } else {
        assert(is_distance(m, u, v, k));
    }
}

/// The number of steps from `v` to its leader.
spec fn dist(m: Map<usize, Set<usize>>, v: usize) -> nat {
    choose|d: nat| is_distance(m, v, leader_of(m, v), d)
}

/// A shortest walk from `v` to its leader.
spec fn shortest_walk(m: Map<usize, Set<usize>>, v: usize) -> Seq<usize> {
    choose|p: Seq<usize>|
        #[trigger] is_walk(m, p) && p[0] == v && p.last() == leader_of(m, v) && p.len() == dist(m, v)
            + 1
}

/// The distance to the leader is defined, and witnessed by a walk.
proof fn lemma_dist(m: Map<usize, Set<usize>>, v: usize)
    requires
        well_formed_adjacency(m),
        m.contains_key(v),
    ensures
        is_distance(m, v, leader_of(m, v), dist(m, v)),
        is_walk(m, shortest_walk(m, v)),
        shortest_walk(m, v)[0] == v,
        shortest_walk(m, v).last() == leader_of(m, v),
        shortest_walk(m, v).len() == dist(m, v) + 1,
{
    lemma_leader_of(m, v);
    let l = leader_of(m, v);
    let p = choose|p: Seq<usize>| #[trigger] is_walk(m, p) && p[0] == v && p.last() == l;
    assert(reach_in(m, v, l, (p.len() - 1) as nat));
    lemma_distance_exists(m, v, l, (p.len() - 1) as nat);
}

/// The vertex after `v` on a shortest walk to its leader.
spec fn next_toward_leader(m: Map<usize, Set<usize>>, v: usize) -> usize {
    shortest_walk(m, v)[1]
}

/// A vertex that is not a leader has a neighbour strictly closer to their
/// common leader.
proof fn lemma_next_toward_leader(m: Map<usize, Set<usize>>, v: usize)
    requires
        well_formed_adjacency(m),
        m.contains_key(v),
        !is_leader(m, v),
    ensures
        adjacent(m, v, next_toward_leader(m, v)),
        m.contains_key(next_toward_leader(m, v)),
        dist(m, next_toward_leader(m, v)) < dist(m, v),
{
    lemma_dist(m, v);
    lemma_leader_of(m, v);
    let l = leader_of(m, v);
    let p = shortest_walk(m, v);
    if p.len() == 1 {
        assert(v == l);
    }
    let w = p[1];
    assert(walk_step(m, p, 0));
    let q = p.drop_first();
    assert forall|i: int| 0 <= i < q.len() - 1 implies #[trigger] walk_step(m, q, i) by {
        assert(walk_step(m, p, i + 1));
    }
    assert(is_walk(m, q));
    assert(reach_in(m, w, l, (dist(m, v) - 1) as nat));
    assert(reachable(m, w, l));
    lemma_leader_of(m, w);
    assert(leader_of(m, w) == l);
    lemma_dist(m, w);
    if dist(m, w) >= dist(m, v) {
        assert(!reach_in(m, w, l, (dist(m, v) - 1) as nat));
    }
}

/// The cyclomatic number E - V + C is never negative: a graph has at least
/// V - C edges, one leading each vertex but the smallest of its component
/// toward that smallest vertex.
pub proof fn law_cyclomatic_number_nonnegative(m: Map<usize, Set<usize>>)
    requires
        well_formed_adjacency(m),
    ensures
        edge_set(m).len() - m.dom().len() + component_count(m) >= 0,
        cycle_rank(m) == edge_set(m).len() - m.dom().len() + component_count(m),
{
    let leaders = Set::new(|v: usize| is_leader(m, v));
    let others = m.dom().difference(leaders);
    assert(leaders.subset_of(m.dom()));
    vstd::set_lib::lemma_len_subset(leaders, m.dom());
    vstd::set_lib::lemma_len_difference(m.dom(), leaders);
    assert(others.len() == m.dom().len() - leaders.len()) by {
        assert(m.dom() =~= others.union(leaders));
        assert(others.disjoint(leaders));
        vstd::set_lib::lemma_set_disjoint_lens(others, leaders);
    }
    let f = |v: usize|
        {
            let w = next_toward_leader(m, v);
            if v < w {
                (v, w)
            } else {
                (w, v)
            }
        };
    assert forall|a: usize, b: usize|
        others.contains(a) && others.contains(b) && #[trigger] f(a) == #[trigger] f(b) implies a
        == b by {
        lemma_next_toward_leader(m, a);
        lemma_next_toward_leader(m, b);
        if a != b {
            assert(a == next_toward_leader(m, b));
            assert(b == next_toward_leader(m, a));
        }
    }
    let image = others.map(f);
    vstd::set_lib::lemma_map_size(others, image, f);
    assert forall|e: (usize, usize)| #[trigger] image.contains(e) implies edge_set(m).contains(e) by {
        let v = choose|v: usize| others.contains(v) && f(v) == e;
        lemma_next_toward_leader(m, v);
        let w = next_toward_leader(m, v);
        lemma_dist(m, v);
        lemma_dist(m, w);
        assert(v != w);
        assert(m[w].contains(v));
    }
    law_edges_are_1_simplices(m);
    vstd::set_lib::lemma_len_subset(image, edge_set(m));
}

/// For a triangle-free graph, χ = V - E is the number of components minus
/// the cycle rank (h0 - h1).
pub proof fn law_euler_poincare(m: Map<usize, Set<usize>>)
    requires
        well_formed_adjacency(m),
        clique_count(m, 3) == 0,
    ensures
        euler_characteristic(m) == component_count(m) - cycle_rank(m),
{
    law_cyclomatic_number_nonnegative(m);
}

/// Adding a vertex that is already there changes nothing.
pub proof fn law_add_vertex_idempotent(m: Map<usize, Set<usize>>, v: usize)
    ensures
        vertex_added(vertex_added(m, v), v) == vertex_added(m, v),
        vertex_added(m, v).contains_key(v),
{
}

/// Adding an edge joins both ends in both directions, keeps every other
/// adjacency, and adding it again changes nothing.
pub proof fn law_add_edge_undirected(m: Map<usize, Set<usize>>, u: usize, v: usize, x: usize, y: usize)
    ensures
        adjacent(edge_added(m, u, v), u, v),
        adjacent(edge_added(m, u, v), v, u),
        adjacent(edge_added(m, u, v), x, y) <==> (adjacent(m, x, y) || (x == u && y == v) || (
        x == v && y == u)),
        edge_added(edge_added(m, u, v), u, v) == edge_added(m, u, v),
{
    let m1 = edge_added(m, u, v);
    let m2 = edge_added(m1, u, v);
    assert(m2 =~~= m1);
}

/// `with_vertices(n)` has n vertices, no edges, and n components.
pub proof fn law_edgeless_counts(g: SimplicialGraph, n: nat)
    requires
        n <= usize::MAX,
        g.wf(),
        g@ == edgeless(n),
    ensures
        g@.dom().len() == n,
        edge_set(g@).len() == 0,
        component_count(g@) == n,
{
    assert(g@.dom() =~= below(n));
    lemma_below_len(n);
    assert(edge_set(g@) =~= Set::empty());
    lemma_isolated_components(g@);
}

/// K_n, C_n and P_n each have n vertices.
pub proof fn law_family_vertex_count(n: nat)
    requires
        n <= usize::MAX,
    ensures
        complete_graph(n).dom().len() == n,
        cycle_graph(n).dom().len() == n,
        path_graph(n).dom().len() == n,
{
    assert(complete_graph(n).dom() =~= below(n));
    assert(cycle_graph(n).dom() =~= below(n));
    assert(path_graph(n).dom() =~= below(n));
    lemma_below_len(n);
}

/// Every vertex of K_n has degree n - 1.
pub proof fn law_complete_degree(n: nat, v: usize)
    requires
        n <= usize::MAX,
        v < n,
    ensures
        crate::graph::spec_degree(complete_graph(n), v) == n - 1,
{
    lemma_below_len(n);
    assert(complete_graph(n)[v] =~= below(n).remove(v));
}

/// The clique complex has no simplex above its maximum dimension, and has
/// one in that dimension when the graph has a vertex.
pub proof fn law_simplices_end_at_max_dimension(m: Map<usize, Set<usize>>, d: nat, k: nat)
    requires
        well_formed_adjacency(m),
        m.dom().len() > 0,
        is_clique_number(m, d + 1),
    ensures
        k > d ==> clique_count(m, k + 1) == 0,
        clique_count(m, d + 1) > 0,
{
    if k > d {
        lemma_no_cliques_of_size(m, k + 1);
    }
    let s = choose|s: Set<usize>| #[trigger] is_clique(m, s) && s.len() == d + 1;
    let vs = crate::sorted::lemma_sorted_enumeration(m.dom());
    let q = crate::clique::lemma_clique_has_tuple(m, vs, s);
    lemma_clique_tuples_finite(m, d + 1);
    assert(clique_tuple_set(m, d + 1).contains(q));
}


/// The sum of the degrees of the vertices listed in `vs`.
pub open spec fn degree_sum(m: Map<usize, Set<usize>>, vs: Seq<usize>) -> int
    decreases vs.len(),
{
    if vs.len() == 0 {
        0
    } else {
        degree_sum(m, vs.drop_last()) + crate::graph::spec_degree(m, vs.last())
    }
}

/// The ordered pairs (u, w) with w a neighbour of u and u listed in `vs`.
spec fn arcs_from(m: Map<usize, Set<usize>>, vs: Seq<usize>) -> Set<(usize, usize)> {
    Set::new(|p: (usize, usize)| adjacent(m, p.0, p.1) && vs.contains(p.0))
}

/// Counting the arcs leaving the listed vertices gives their degree sum.
proof fn lemma_arcs_from(m: Map<usize, Set<usize>>, vs: Seq<usize>)
    requires
        well_formed_adjacency(m),
        vs.no_duplicates(),
        forall|i: int| 0 <= i < vs.len() ==> #[trigger] m.contains_key(vs[i]),
    ensures
        arcs_from(m, vs).finite(),
        arcs_from(m, vs).len() == degree_sum(m, vs),
    decreases vs.len(),
{
    if vs.len() == 0 {
        assert(arcs_from(m, vs) =~= Set::empty());
    } else {
        let rest = vs.drop_last();
        let x = vs.last();
        assert forall|i: int| 0 <= i < rest.len() implies #[trigger] m.contains_key(rest[i]) by {
            assert(m.contains_key(vs[i]));
        }
        lemma_arcs_from(m, rest);
        assert(m.contains_key(vs[vs.len() - 1]));
        let f = |w: usize| (x, w);
        let out = m[x].map(f);
        assert forall|a: usize, b: usize| #[trigger] f(a) == #[trigger] f(b) implies a == b by {}
        m[x].lemma_map_finite(f);
        vstd::set_lib::lemma_map_size(m[x], out, f);
        assert(!rest.contains(x)) by {
            if rest.contains(x) {
                let i = choose|i: int| 0 <= i < rest.len() && rest[i] == x;
                assert(vs[i] == vs[vs.len() - 1]);
            }
        }
        assert forall|p: (usize, usize)| #[trigger] arcs_from(m, vs).contains(p) <==> arcs_from(
            m,
            rest,
        ).union(out).contains(p) by {
            if arcs_from(m, vs).contains(p) {
                let i = choose|i: int| 0 <= i < vs.len() && vs[i] == p.0;
                if i < vs.len() - 1 {
                    assert(rest[i] == p.0);
                } else {
                    assert(m[x].contains(p.1));
                    assert(f(p.1) == p);
                }
            }
            if out.contains(p) {
                let w = choose|w: usize| m[x].contains(w) && f(w) == p;
                assert(vs[vs.len() - 1] == x);
            }
            if arcs_from(m, rest).contains(p) {
                let i = choose|i: int| 0 <= i < rest.len() && rest[i] == p.0;
                assert(vs[i] == p.0);
            }
        }
        assert(arcs_from(m, vs) =~= arcs_from(m, rest).union(out));
        assert(arcs_from(m, rest).disjoint(out));
        vstd::set_lib::lemma_set_disjoint_lens(arcs_from(m, rest), out);
    }
}

/// Handshake: without self-loops, the degrees of all vertices add up to
/// twice the number of edges, since each edge is counted at both ends.
pub proof fn law_handshake(m: Map<usize, Set<usize>>)
    requires
        well_formed_adjacency(m),
        forall|u: usize| !#[trigger] adjacent(m, u, u),
    ensures
        degree_sum(m, vertex_sequence(m)) == 2 * edge_set(m).len(),
{
    let vs = vertex_sequence(m);
    lemma_vertex_sequence(m);
    crate::sorted::lemma_increasing_no_duplicates(vs);
    assert forall|i: int| 0 <= i < vs.len() implies #[trigger] m.contains_key(vs[i]) by {
        assert(vs.contains(vs[i]));
    }
    lemma_arcs_from(m, vs);
    law_edges_are_1_simplices(m);
    let e = edge_set(m);
    let swap = |p: (usize, usize)| (p.1, p.0);
    let back = e.map(swap);
    assert forall|a: (usize, usize), b: (usize, usize)| #[trigger] swap(a) == #[trigger] swap(b) implies a == b by {}
    e.lemma_map_finite(swap);
    vstd::set_lib::lemma_map_size(e, back, swap);
    assert forall|p: (usize, usize)| #[trigger] arcs_from(m, vs).contains(p) <==> e.union(back).contains(p) by {
        if arcs_from(m, vs).contains(p) {
            assert(p.0 != p.1);
            assert(m[p.0].contains(p.1));
            if p.1 < p.0 {
                assert(m[p.1].contains(p.0));
                assert(e.contains(swap(p)));
                assert(swap(swap(p)) == p);
            }
        }
        if back.contains(p) {
            let q = choose|q: (usize, usize)| e.contains(q) && swap(q) == p;
            assert(m[q.0].contains(q.1));
            assert(vs.contains(p.0));
        }
        if e.contains(p) {
            assert(vs.contains(p.0));
        }
    }
    assert(arcs_from(m, vs) =~= e.union(back));
    assert(e.disjoint(back));
    vstd::set_lib::lemma_set_disjoint_lens(e, back);
}


/// Where a walk of `m` with the edge between `u` and `v` added can lead from
/// `x`: where `m` leads, or through the new edge in either direction.
spec fn reach_via_edge(m: Map<usize, Set<usize>>, u: usize, v: usize, x: usize, z: usize) -> bool {
    ||| reachable(m, x, z)
    ||| reachable(m, x, u) && reachable(m, v, z)
    ||| reachable(m, x, v) && reachable(m, u, z)
}

/// Every vertex of a walk of the graph with the new edge is reached from
/// its start as `reach_via_edge` says.
proof fn lemma_walk_via_edge(m: Map<usize, Set<usize>>, u: usize, v: usize, p: Seq<usize>, i: int)
    requires
        well_formed_adjacency(m),
        m.contains_key(u),
        m.contains_key(v),
        is_walk(edge_added(m, u, v), p),
        0 <= i < p.len(),
    ensures
        reach_via_edge(m, u, v, p[0], p[i]),
    decreases i,
{
    let x = p[0];
    if i == 0 {
        crate::components::lemma_reach_refl(m, x);
    } else {
        lemma_walk_via_edge(m, u, v, p, i - 1);
        assert(walk_step(edge_added(m, u, v), p, i - 1));
        let a = p[i - 1];
        let b = p[i];
        law_add_edge_undirected(m, u, v, a, b);
        crate::components::lemma_reach_refl(m, u);
        crate::components::lemma_reach_refl(m, v);
        if adjacent(m, a, b) {
            if reachable(m, x, a) {
                crate::components::lemma_reach_step(m, x, a, b);
            }
            if reachable(m, v, a) {
                crate::components::lemma_reach_step(m, v, a, b);
            }
            if reachable(m, u, a) {
                crate::components::lemma_reach_step(m, u, a, b);
            }
        } else if a == u && b == v {
            if reachable(m, x, a) {
            } else if reachable(m, x, u) && reachable(m, v, a) {
            } else {
                assert(reachable(m, x, v));
            }
        } else {
            assert(a == v && b == u);
            if reachable(m, x, a) {
            } else if reachable(m, x, v) && reachable(m, u, a) {
            } else {
                assert(reachable(m, x, u));
            }
        }
    }
}

/// A walk of `m` is a walk of `m` with an edge added.
proof fn lemma_reach_grows(m: Map<usize, Set<usize>>, u: usize, v: usize, x: usize, y: usize)
    requires
        reachable(m, x, y),
    ensures
        reachable(edge_added(m, u, v), x, y),
{
    let p = choose|p: Seq<usize>| #[trigger] is_walk(m, p) && p[0] == x && p.last() == y;
    let m2 = edge_added(m, u, v);
    assert forall|i: int| 0 <= i < p.len() - 1 implies #[trigger] walk_step(m2, p, i) by {
        assert(walk_step(m, p, i));
        law_add_edge_undirected(m, u, v, p[i], p[i + 1]);
    }
    assert(is_walk(m2, p));
}

/// Two leaders of one component are the same vertex.
proof fn lemma_one_leader(m: Map<usize, Set<usize>>, a: usize, b: usize)
    requires
        well_formed_adjacency(m),
        is_leader(m, a),
        is_leader(m, b),
        reachable(m, a, b),
    ensures
        a == b,
{
    lemma_reach_symm(m, a, b);
}

/// Adding an edge between two vertices merges their components: the number
/// of components (β₀) drops by one when they were apart, and stays when
/// they were already connected.
pub proof fn law_add_edge_components(m: Map<usize, Set<usize>>, u: usize, v: usize)
    requires
        well_formed_adjacency(m),
        m.contains_key(u),
        m.contains_key(v),
    ensures
        component_count(edge_added(m, u, v)) == component_count(m) - (if reachable(m, u, v) {
            0int
        } else {
            1int
        }),
{
    let m2 = edge_added(m, u, v);
    let leaders = Set::new(|x: usize| is_leader(m, x));
    let leaders2 = Set::new(|x: usize| is_leader(m2, x));
    assert(m2.dom() =~= m.dom());
    assert(leaders.subset_of(m.dom()));
    vstd::set_lib::lemma_len_subset(leaders, m.dom());
    assert forall|x: usize, y: usize| #[trigger] reachable(m2, x, y) implies reach_via_edge(m, u, v, x, y) by {
        let p = choose|p: Seq<usize>| #[trigger] is_walk(m2, p) && p[0] == x && p.last() == y;
        lemma_walk_via_edge(m, u, v, p, p.len() - 1);
    }
    if reachable(m, u, v) {
        lemma_reach_symm(m, u, v);
        assert forall|x: usize| #[trigger] leaders2.contains(x) <==> leaders.contains(x) by {
            if is_leader(m, x) {
                assert forall|y: usize| #[trigger] reachable(m2, x, y) implies x <= y by {
                    if reachable(m, x, u) && reachable(m, v, y) {
                        lemma_reach_trans(m, x, u, v);
                        lemma_reach_trans(m, x, v, y);
                    } else if reachable(m, x, v) && reachable(m, u, y) {
                        lemma_reach_trans(m, x, v, u);
                        lemma_reach_trans(m, x, u, y);
                    }
                }
            }
            if is_leader(m2, x) {
                assert forall|y: usize| #[trigger] reachable(m, x, y) implies x <= y by {
                    lemma_reach_grows(m, u, v, x, y);
                }
            }
        }
        assert(leaders2 =~= leaders);
    } else {
        lemma_leader_of(m, u);
        lemma_leader_of(m, v);
        let a = leader_of(m, u);
        let b = leader_of(m, v);
        lemma_reach_symm(m, u, a);
        lemma_reach_symm(m, v, b);
        if a == b {
            lemma_reach_trans(m, u, a, v);
        }
        let hi = if a < b {
            b
        } else {
            a
        };
        let lo = if a < b {
            a
        } else {
            b
        };
        // In `m2` the larger leader reaches the smaller one.
        lemma_reach_grows(m, u, v, a, u);
        lemma_reach_grows(m, u, v, v, b);
        lemma_reach_grows(m, u, v, b, v);
        lemma_reach_grows(m, u, v, u, a);
        law_add_edge_undirected(m, u, v, u, v);
        crate::components::lemma_reach_step(m2, a, u, v);
        lemma_reach_trans(m2, a, v, b);
        crate::components::lemma_reach_step(m2, b, v, u);
        lemma_reach_trans(m2, b, u, a);
        assert forall|x: usize| #[trigger] leaders2.contains(x) <==> leaders.remove(hi).contains(x) by {
            if is_leader(m2, x) {
                assert forall|y: usize| #[trigger] reachable(m, x, y) implies x <= y by {
                    lemma_reach_grows(m, u, v, x, y);
                }
                assert(x != hi);
            }
            if is_leader(m, x) && x != hi {
                assert forall|y: usize| #[trigger] reachable(m2, x, y) implies x <= y by {
                    if reachable(m, x, u) && reachable(m, v, y) {
                        lemma_reach_trans(m, x, u, a);
                        lemma_one_leader(m, x, a);
                        lemma_reach_trans(m, b, v, y);
                    } else if reachable(m, x, v) && reachable(m, u, y) {
                        lemma_reach_trans(m, x, v, b);
                        lemma_one_leader(m, x, b);
                        lemma_reach_trans(m, a, u, y);
                    }
                }
            }
        }
        assert(leaders2 =~= leaders.remove(hi));
    }
}


/// A graph with a vertex has at least one component, and never more
/// components than vertices.
pub proof fn law_component_count_bounds(m: Map<usize, Set<usize>>)
    requires
        well_formed_adjacency(m),
    ensures
        m.dom().len() > 0 ==> component_count(m) >= 1,
        component_count(m) <= m.dom().len(),
{
    let leaders = Set::new(|x: usize| is_leader(m, x));
    assert(leaders.subset_of(m.dom()));
    vstd::set_lib::lemma_len_subset(leaders, m.dom());
    if m.dom().len() > 0 {
        let v = m.dom().choose();
        lemma_leader_of(m, v);
        assert(leaders.contains(leader_of(m, v)));
    }
}


/// Every face of a simplex is a simplex: removing a vertex from a clique of
/// k + 1 vertices leaves a clique of k vertices.
pub proof fn law_faces_are_simplices(m: Map<usize, Set<usize>>, s: Set<usize>, v: usize)
    requires
        is_clique(m, s),
        s.contains(v),
    ensures
        is_clique(m, s.remove(v)),
        s.remove(v).len() == s.len() - 1,
{
}

/// The ordered triples a < b < c of pairwise adjacent vertices.
pub open spec fn triangle_set(m: Map<usize, Set<usize>>) -> Set<(usize, usize, usize)> {
    Set::new(
        |t: (usize, usize, usize)|
            t.0 < t.1 && t.1 < t.2 && adjacent(m, t.0, t.1) && adjacent(m, t.0, t.2) && adjacent(
                m,
                t.1,
                t.2,
            ),
    )
}

/// The 2-simplices are the triangles: the cliques of three vertices are as
/// many as the triples a < b < c of pairwise adjacent vertices.
pub proof fn law_triangles_are_2_simplices(m: Map<usize, Set<usize>>)
    requires
        well_formed_adjacency(m),
    ensures
        triangle_set(m).finite(),
        clique_count(m, 3) == triangle_set(m).len(),
{
    let f = |t: (usize, usize, usize)| seq![t.0, t.1, t.2];
    let g = |q: Seq<usize>| (q[0], q[1], q[2]);
    lemma_clique_tuples_finite(m, 3);
    assert forall|q: Seq<usize>| #[trigger] clique_tuple_set(m, 3).contains(q) <==> triangle_set(m).map(f).contains(q) by {
        if clique_tuple_set(m, 3).contains(q) {
            assert(adjacent(m, q[0], q[1]));
            assert(adjacent(m, q[0], q[2]));
            assert(adjacent(m, q[1], q[2]));
            assert(triangle_set(m).contains(g(q)));
            assert(f(g(q)) =~= q);
        }
        if triangle_set(m).map(f).contains(q) {
            let t = choose|t: (usize, usize, usize)| triangle_set(m).contains(t) && f(t) == q;
            assert(m[t.1].contains(t.0));
            assert(m[t.2].contains(t.0));
            assert(m[t.2].contains(t.1));
            assert(is_clique_tuple(m, q, 3));
        }
    }
    assert(clique_tuple_set(m, 3) =~= triangle_set(m).map(f));
    assert forall|t: (usize, usize, usize)| #[trigger] triangle_set(m).contains(t) <==> clique_tuple_set(m, 3).map(g).contains(t) by {
        if triangle_set(m).contains(t) {
            assert(triangle_set(m).map(f).contains(f(t)));
            assert(g(f(t)) == t);
        }
        if clique_tuple_set(m, 3).map(g).contains(t) {
            let q = choose|q: Seq<usize>| clique_tuple_set(m, 3).contains(q) && g(q) == t;
            assert(adjacent(m, q[0], q[1]));
            assert(adjacent(m, q[0], q[2]));
            assert(adjacent(m, q[1], q[2]));
        }
    }
    assert(triangle_set(m) =~= clique_tuple_set(m, 3).map(g));
    clique_tuple_set(m, 3).lemma_map_finite(g);
    assert forall|a: (usize, usize, usize), b: (usize, usize, usize)| #[trigger] f(a) == #[trigger] f(b) implies a == b by {
        assert(f(a)[0] == a.0 && f(a)[1] == a.1 && f(a)[2] == a.2);
        assert(f(b)[0] == b.0 && f(b)[1] == b.1 && f(b)[2] == b.2);
    }
    vstd::set_lib::lemma_map_size(triangle_set(m), clique_tuple_set(m, 3), f);
}


/// The first `n` terms of row `i` of the Laplacian applied to the vector
/// that is 1 on the component of `u` and 0 elsewhere.
pub open spec fn laplacian_row_on_component(m: Map<usize, Set<usize>>, u: usize, i: int, n: int) -> int
    decreases n,
{
    if n <= 0 {
        0
    } else {
        let x = if reachable(m, u, vertex_sequence(m)[n - 1]) {
            1int
        } else {
            0int
        };
        laplacian_row_on_component(m, u, i, n - 1) + crate::laplacian::laplacian_entry(m, i, n - 1) * x
    }
}

/// Row `i` restricted to the first `n` columns, when the vertex of row `i`
/// lies in the component of `u`: its degree (once column `i` is reached)
/// minus the neighbours among the first `n` vertices.
proof fn lemma_row_in_component(m: Map<usize, Set<usize>>, u: usize, i: int, n: int)
    requires
        well_formed_adjacency(m),
        forall|w: usize| !#[trigger] adjacent(m, w, w),
        0 <= i < m.dom().len(),
        0 <= n <= m.dom().len(),
        reachable(m, u, vertex_sequence(m)[i]),
    ensures
        m[vertex_sequence(m)[i]].intersect(vertex_sequence(m).take(n).to_set()).finite(),
        laplacian_row_on_component(m, u, i, n) == (if i < n {
            m[vertex_sequence(m)[i]].len() as int
        } else {
            0int
        }) - m[vertex_sequence(m)[i]].intersect(vertex_sequence(m).take(n).to_set()).len(),
    decreases n,
{
    let vs = vertex_sequence(m);
    lemma_vertex_sequence(m);
    let vi = vs[i];
    assert(vs.contains(vi));
    let nb = m[vi];
    if n == 0 {
        assert(nb.intersect(vs.take(0).to_set()) =~= Set::empty());
    } else {
        lemma_row_in_component(m, u, i, n - 1);
        let vn = vs[n - 1];
        let before = nb.intersect(vs.take(n - 1).to_set());
        let after = nb.intersect(vs.take(n).to_set());
        assert(vs.take(n) =~= vs.take(n - 1).push(vn));
        crate::sorted::lemma_increasing_no_duplicates(vs);
        assert(!vs.take(n - 1).to_set().contains(vn)) by {
            if vs.take(n - 1).contains(vn) {
                let j = choose|j: int| 0 <= j < n - 1 && #[trigger] vs.take(n - 1)[j] == vn;
                assert(vs[j] == vs[n - 1]);
            }
        }
        crate::sorted::lemma_push_to_set(vs.take(n - 1), vn);
        if nb.contains(vn) {
            assert(after =~= before.insert(vn));
            assert(adjacent(m, vi, vn));
            assert(n - 1 != i) by {
                if n - 1 == i {
                    assert(adjacent(m, vi, vi));
                }
            }
            crate::components::lemma_reach_step(m, u, vi, vn);
        } else {
            assert(after =~= before);
            if n - 1 != i {
                assert(!adjacent(m, vi, vn));
            }
        }
    }
}

/// Row `i` restricted to the first `n` columns is 0 when the vertex of row
/// `i` lies outside the component of `u`.
proof fn lemma_row_outside_component(m: Map<usize, Set<usize>>, u: usize, i: int, n: int)
    requires
        well_formed_adjacency(m),
        0 <= i < m.dom().len(),
        0 <= n <= m.dom().len(),
        !reachable(m, u, vertex_sequence(m)[i]),
    ensures
        laplacian_row_on_component(m, u, i, n) == 0,
    decreases n,
{
    if n > 0 {
        lemma_row_outside_component(m, u, i, n - 1);
        let vs = vertex_sequence(m);
        lemma_vertex_sequence(m);
        let vn = vs[n - 1];
        let vi = vs[i];
        if reachable(m, u, vn) && n - 1 != i && adjacent(m, vi, vn) {
            assert(m[vi].contains(vn));
            assert(m[vn].contains(vi));
            crate::components::lemma_reach_step(m, u, vn, vi);
        }
    }
}

/// The indicator of a component is an eigenvector of L = D - A for the
/// eigenvalue 0: for a graph without self-loops, every row of the Laplacian
/// applied to the vector that is 1 on the component of `u` and 0 elsewhere
/// gives 0. On a connected graph this is the constant vector, so λ₁ = 0.
pub proof fn law_component_indicator_in_kernel(m: Map<usize, Set<usize>>, u: usize, i: int)
    requires
        well_formed_adjacency(m),
        forall|w: usize| !#[trigger] adjacent(m, w, w),
        0 <= i < m.dom().len(),
    ensures
        laplacian_row_on_component(m, u, i, m.dom().len() as int) == 0,
{
    let vs = vertex_sequence(m);
    lemma_vertex_sequence(m);
    let n = m.dom().len() as int;
    if reachable(m, u, vs[i]) {
        lemma_row_in_component(m, u, i, n);
        let vi = vs[i];
        assert(vs.contains(vi));
        assert(vs.take(n) =~= vs);
        assert forall|x: usize| #[trigger] m[vi].contains(x) implies vs.to_set().contains(x) by {
            assert(m.contains_key(x));
            assert(vs.contains(x));
        }
        assert(m[vi].intersect(vs.to_set()) =~= m[vi]);
    } else {
        lemma_row_outside_component(m, u, i, n);
    }
}


/// 2 to the power `n`.
pub open spec fn two_to(n: nat) -> nat
    decreases n,
{
    if n == 0 {
        1
    } else {
        2 * two_to((n - 1) as nat)
    }
}

/// The subsets of `s`.
spec fn subsets(s: Set<usize>) -> Set<Set<usize>> {
    Set::new(|t: Set<usize>| t.subset_of(s))
}

/// A finite set of `n` elements has 2^n subsets.
proof fn lemma_subsets_len(s: Set<usize>)
    requires
        s.finite(),
    ensures
        subsets(s).finite(),
        subsets(s).len() == two_to(s.len()),
    decreases s.len(),
{
    if s.len() == 0 {
        assert(s =~= Set::empty());
        assert forall|t: Set<usize>| #[trigger] subsets(s).contains(t) <==> set![Set::<usize>::empty()].contains(t) by {
            if subsets(s).contains(t) {
                assert(t =~= Set::<usize>::empty());
            }
        }
        assert(subsets(s) =~= set![Set::<usize>::empty()]);
    } else {
        let x = s.choose();
        let r = s.remove(x);
        lemma_subsets_len(r);
        let with_elem = |t: Set<usize>| t.insert(x);
        let with_x = subsets(r).map(with_elem);
        assert forall|a: Set<usize>, b: Set<usize>|
            subsets(r).contains(a) && subsets(r).contains(b) && #[trigger] with_elem(a) == #[trigger] with_elem(b) implies a == b by {
            assert forall|y: usize| a.contains(y) <==> b.contains(y) by {
                if y != x {
                    assert(with_elem(a).contains(y) == a.contains(y));
                    assert(with_elem(b).contains(y) == b.contains(y));
                }
            }
            assert(a =~= b);
        }
        subsets(r).lemma_map_finite(with_elem);
        vstd::set_lib::lemma_map_size(subsets(r), with_x, with_elem);
        assert forall|t: Set<usize>| #[trigger] subsets(s).contains(t) <==> subsets(r).union(with_x).contains(t) by {
            if subsets(s).contains(t) && t.contains(x) {
                let t1 = t.remove(x);
                assert(subsets(r).contains(t1));
                assert(with_elem(t1) =~= t);
            }
        }
        assert(subsets(s) =~= subsets(r).union(with_x));
        assert forall|t: Set<usize>| !(subsets(r).contains(t) && with_x.contains(t)) by {
            if with_x.contains(t) {
                let t1 = choose|t1: Set<usize>| subsets(r).contains(t1) && with_elem(t1) == t;
                assert(t.contains(x));
            }
        }
        assert(subsets(r).disjoint(with_x));
        vstd::set_lib::lemma_set_disjoint_lens(subsets(r), with_x);
    }
}

/// The cliques of `n` vertices, as sets.
spec fn cliques_of_size(m: Map<usize, Set<usize>>, n: nat) -> Set<Set<usize>> {
    Set::new(|s: Set<usize>| is_clique(m, s) && s.len() == n)
}

/// The cliques of 1 to `d + 1` vertices.
spec fn cliques_up_to(m: Map<usize, Set<usize>>, d: nat) -> Set<Set<usize>> {
    Set::new(|s: Set<usize>| is_clique(m, s) && 1 <= s.len() <= d + 1)
}

/// The number of cliques of 1 to `d + 1` vertices, counted by size.
spec fn clique_total(m: Map<usize, Set<usize>>, d: nat) -> nat
    decreases d,
{
    if d == 0 {
        clique_count(m, 1)
    } else {
        clique_total(m, (d - 1) as nat) + clique_count(m, d + 1)
    }
}

/// Cliques of `n` vertices as sets are as many as their increasing tuples.
proof fn lemma_cliques_of_size(m: Map<usize, Set<usize>>, n: nat)
    requires
        well_formed_adjacency(m),
    ensures
        cliques_of_size(m, n).finite(),
        cliques_of_size(m, n).len() == clique_count(m, n),
{
    let to_set = |q: Seq<usize>| q.to_set();
    lemma_clique_tuples_finite(m, n);
    let vs = crate::sorted::lemma_sorted_enumeration(m.dom());
    assert forall|t: Set<usize>| #[trigger] cliques_of_size(m, n).contains(t) <==> clique_tuple_set(m, n).map(to_set).contains(t) by {
        if cliques_of_size(m, n).contains(t) {
            let q = crate::clique::lemma_clique_has_tuple(m, vs, t);
            assert(clique_tuple_set(m, n).contains(q));
            assert(to_set(q) == t);
        }
        if clique_tuple_set(m, n).map(to_set).contains(t) {
            let q = choose|q: Seq<usize>| clique_tuple_set(m, n).contains(q) && to_set(q) == t;
            lemma_tuple_clique(m, q, n);
        }
    }
    assert(cliques_of_size(m, n) =~= clique_tuple_set(m, n).map(to_set));
    clique_tuple_set(m, n).lemma_map_finite(to_set);
    assert forall|a: Seq<usize>, b: Seq<usize>|
        clique_tuple_set(m, n).contains(a) && clique_tuple_set(m, n).contains(b) && #[trigger] to_set(a)
            == #[trigger] to_set(b) implies a == b by {
        assert forall|y: usize| #[trigger] a.contains(y) <==> b.contains(y) by {
            assert(a.to_set().contains(y) == a.contains(y));
            assert(b.to_set().contains(y) == b.contains(y));
        }
        crate::sorted::lemma_increasing_unique(a, b);
    }
    vstd::set_lib::lemma_map_size(clique_tuple_set(m, n), cliques_of_size(m, n), to_set);
}

/// Counting by size counts every clique of 1 to `d + 1` vertices once.
proof fn lemma_clique_total(m: Map<usize, Set<usize>>, d: nat)
    requires
        well_formed_adjacency(m),
    ensures
        cliques_up_to(m, d).finite(),
        cliques_up_to(m, d).len() == clique_total(m, d),
    decreases d,
{
    lemma_cliques_of_size(m, d + 1);
    if d == 0 {
        assert(cliques_up_to(m, 0) =~= cliques_of_size(m, 1));
    } else {
        lemma_clique_total(m, (d - 1) as nat);
        assert(cliques_up_to(m, d) =~= cliques_up_to(m, (d - 1) as nat).union(cliques_of_size(m, d + 1)));
        assert(cliques_up_to(m, (d - 1) as nat).disjoint(cliques_of_size(m, d + 1)));
        vstd::set_lib::lemma_set_disjoint_lens(cliques_up_to(m, (d - 1) as nat), cliques_of_size(m, d + 1));
    }
}

/// 2^n is at most 2^31 for n <= 31.
proof fn lemma_two_to_bound(n: nat)
    requires
        n <= 31,
    ensures
        two_to(n) <= 2147483648,
    decreases 31 - n,
{
    if n < 31 {
        lemma_two_to_bound(n + 1);
    } else {
        reveal_with_fuel(two_to, 32);
    }
}

/// A graph of at most 31 vertices has fewer than 2^31 nonempty cliques, so
/// the simplex counts and the alternating sums that `compute_complex`
/// adds up, and the V, E, T and V - E + T of `compute`, all fit in an i32.
pub proof fn law_small_graphs_fit_i32(m: Map<usize, Set<usize>>, d: nat)
    requires
        well_formed_adjacency(m),
        m.dom().len() <= 31,
    ensures
        forall|k: nat| k <= d ==> #[trigger] clique_count(m, k + 1) <= i32::MAX,
        forall|k: nat| k <= d ==> i32::MIN <= #[trigger] alternating_clique_sum(m, k) <= i32::MAX,
        edge_set(m).len() <= i32::MAX,
        clique_count(m, 3) <= i32::MAX,
        crate::homology::euler_characteristic(m) <= i32::MAX,
{
    let top = if d >= 2 { d } else { 2 };
    lemma_subsets_len(m.dom());
    lemma_two_to_bound(m.dom().len());
    lemma_clique_total(m, top);
    assert(cliques_up_to(m, top).subset_of(subsets(m.dom()).remove(Set::empty()))) by {
        assert forall|s: Set<usize>| #[trigger] cliques_up_to(m, top).contains(s) implies subsets(m.dom()).remove(Set::empty()).contains(s) by {
            assert(s.len() >= 1);
            if s == Set::<usize>::empty() {
                assert(s.len() == 0);
            }
        }
    }
    assert(subsets(m.dom()).contains(Set::empty()));
    vstd::set_lib::lemma_len_subset(cliques_up_to(m, top), subsets(m.dom()).remove(Set::empty()));
    assert(clique_total(m, top) <= i32::MAX);
    lemma_total_bounds(m, top, top);
    law_edges_are_1_simplices(m);
    assert(clique_total(m, top) >= clique_count(m, 1) + clique_count(m, 2) + clique_count(m, 3)) by {
        lemma_total_bounds(m, top, 2);
    }
    law_vertices_are_0_simplices(m);
}

/// Each count and each alternating sum up to `j` is bounded by the total.
proof fn lemma_total_bounds(m: Map<usize, Set<usize>>, top: nat, j: nat)
    requires
        j <= top,
    ensures
        forall|k: nat| k <= j ==> #[trigger] clique_count(m, k + 1) <= clique_total(m, top),
        forall|k: nat|
            k <= j ==> -(clique_total(m, k) as int) <= #[trigger] alternating_clique_sum(m, k)
                <= clique_total(m, k),
        forall|k: nat| k <= j ==> #[trigger] clique_total(m, k) <= clique_total(m, top),
        j >= 2 ==> clique_total(m, j) == clique_count(m, 1) + clique_count(m, 2) + clique_count(m, 3) + (
        if j > 2 {
            clique_total(m, j) - clique_total(m, 2)
        } else {
            0
        }),
    decreases top - j,
{
    lemma_total_prefix(m, j);
    lemma_total_monotone(m, j, top);
    assert forall|k: nat| k <= j implies #[trigger] clique_count(m, k + 1) <= clique_total(m, top) by {
        lemma_total_monotone(m, k, top);
    }
    assert forall|k: nat| k <= j implies #[trigger] clique_total(m, k) <= clique_total(m, top) by {
        lemma_total_monotone(m, k, top);
    }
    if j >= 2 {
        reveal_with_fuel(clique_total, 3);
    }
}

/// The alternating sum up to `j` is bounded by the total up to `j`.
proof fn lemma_total_prefix(m: Map<usize, Set<usize>>, j: nat)
    ensures
        forall|k: nat|
            k <= j ==> -(clique_total(m, k) as int) <= #[trigger] alternating_clique_sum(m, k)
                <= clique_total(m, k),
    decreases j,
{
    if j > 0 {
        lemma_total_prefix(m, (j - 1) as nat);
        let p = (j - 1) as nat;
        assert(-(clique_total(m, p) as int) <= alternating_clique_sum(m, p) <= clique_total(m, p));
    }
    assert(-(clique_total(m, j) as int) <= alternating_clique_sum(m, j) <= clique_total(m, j));
}

/// The totals grow with `k`, and each count is part of them.
proof fn lemma_total_monotone(m: Map<usize, Set<usize>>, k: nat, top: nat)
    requires
        k <= top,
    ensures
        clique_total(m, k) <= clique_total(m, top),
        clique_count(m, k + 1) <= clique_total(m, top),
    decreases top - k,
{
    if k < top {
        lemma_total_monotone(m, k + 1, top);
    }
}


/// Adding a vertex adds it to the vertex set and changes no adjacency:
/// a new vertex comes without neighbours, and adding a vertex that is
/// already there changes nothing.
pub proof fn law_add_vertex_keeps_edges(m: Map<usize, Set<usize>>, v: usize)
    ensures
        vertex_added(m, v).dom() == m.dom().insert(v),
        forall|x: usize, y: usize| #[trigger] adjacent(vertex_added(m, v), x, y) <==> adjacent(m, x, y),
        m.contains_key(v) ==> vertex_added(m, v) == m,
        !m.contains_key(v) ==> vertex_added(m, v)[v] == Set::<usize>::empty(),
{
    if m.contains_key(v) {
        assert(m.dom().insert(v) =~= m.dom());
    } else {
        assert(vertex_added(m, v).dom() =~= m.dom().insert(v));
    }
}

/// In the cycle on `0..n`, every vertex is adjacent to the next one around
/// the cycle, `(x + 1) % n`, and from three vertices on every vertex has
/// exactly two neighbours.
pub proof fn law_cycle_neighbours(n: nat)
    requires
        n <= usize::MAX,
    ensures
        forall|x: usize|
            x < n ==> #[trigger] adjacent(cycle_graph(n), x, ((x + 1) % (n as int)) as usize),
        n >= 3 ==> forall|x: usize| x < n ==> #[trigger] spec_degree(cycle_graph(n), x) == 2,
{
    let m = cycle_graph(n);
    assert forall|x: usize| x < n implies #[trigger] adjacent(m, x, ((x + 1) % (n as int)) as usize) by {
        lemma_succ_mod(x as int, n as int);
        let y = ((x + 1) % (n as int)) as usize;
        assert(m.contains_key(x));
        assert(m[x].contains(y));
    }
    if n >= 3 {
        assert forall|x: usize| x < n implies #[trigger] spec_degree(m, x) == 2 by {
            lemma_succ_mod(x as int, n as int);
            let s = ((x + 1) % (n as int)) as usize;
            let p: usize = if x == 0 { (n - 1) as usize } else { (x - 1) as usize };
            assert forall|y: usize| #[trigger] m[x].contains(y) <==> set![s, p].contains(y) by {
                if y < n {
                    lemma_succ_mod(y as int, n as int);
                }
            }
            assert(m[x] =~= set![s, p]);
            assert(s != p);
        }
    }
}

/// In the path on `0..n`, every vertex but the last is adjacent to the next
/// one, and to nothing but its neighbours on the line: the two ends have one
/// neighbour each and every inner vertex has two.
pub proof fn law_path_neighbours(n: nat)
    requires
        n <= usize::MAX,
    ensures
        forall|x: usize| x + 1 < n ==> #[trigger] adjacent(path_graph(n), x, (x + 1) as usize),
        forall|x: usize, y: usize| #[trigger] adjacent(path_graph(n), x, y) ==> y == x + 1 || x == y + 1,
        n >= 2 ==> spec_degree(path_graph(n), 0) == 1,
        n >= 2 ==> spec_degree(path_graph(n), (n - 1) as usize) == 1,
        forall|x: usize| 0 < x && x + 1 < n ==> #[trigger] spec_degree(path_graph(n), x) == 2,
{
    let m = path_graph(n);
    assert forall|x: usize| x + 1 < n implies #[trigger] adjacent(m, x, (x + 1) as usize) by {
        assert(m.contains_key(x));
        assert(m[x].contains((x + 1) as usize));
    }
    if n >= 2 {
        assert(m[0usize] =~= set![1usize]);
        let l = (n - 1) as usize;
        assert(m[l] =~= set![(l - 1) as usize]);
    }
    assert forall|x: usize| 0 < x && x + 1 < n implies #[trigger] spec_degree(m, x) == 2 by {
        assert(m[x] =~= set![(x - 1) as usize, (x + 1) as usize]);
    }
}


/// The rank used for ∂_k is the rank modulo `MODULUS` of the signed boundary
/// matrix between the lexicographic listings of the cliques of k and k + 1
/// vertices, which exist and have one entry per clique.
pub proof fn law_boundary_rank_is_matrix_rank(m: Map<usize, Set<usize>>, k: nat)
    requires
        well_formed_adjacency(m),
    ensures
        crate::clique::is_simplex_listing(m, crate::clique::simplex_listing(m, k), k),
        crate::clique::is_simplex_listing(m, crate::clique::simplex_listing(m, k + 1), k + 1),
        crate::clique::boundary_rank(m, k) == crate::chains::rank_mod(
            crate::chains::boundary_matrix(
                crate::clique::simplex_listing(m, k),
                crate::clique::simplex_listing(m, k + 1),
            ),
            crate::clique::simplex_listing(m, k + 1).len() as int,
            crate::clique::simplex_listing(m, k).len() as int,
        ),
{
    crate::clique::lemma_simplex_listing(m, k);
    crate::clique::lemma_simplex_listing(m, k + 1);
}

/// The increasing triple of three pairwise adjacent vertices is a triangle.
proof fn lemma_triangle_tuple(m: Map<usize, Set<usize>>, x: usize, y: usize, z: usize)
    requires
        well_formed_adjacency(m),
        x < y < z,
        adjacent(m, x, y),
        adjacent(m, x, z),
        adjacent(m, y, z),
    ensures
        is_clique_tuple(m, seq![x, y, z], 3),
{
    let q = seq![x, y, z];
    assert(m[y].contains(x));
    assert(m[z].contains(x));
    assert(m[z].contains(y));
    assert forall|i: int| 0 <= i < q.len() implies #[trigger] m.contains_key(q[i]) by {}
    assert forall|i: int, j: int|
        0 <= i < q.len() && 0 <= j < q.len() && i != j implies #[trigger] adjacent(m, q[i], q[j]) by {}
}

/// The entry of the edge (e0, e1) in the boundary column of the triangle
/// x < y < z, as an integer.
spec fn triangle_entry(x: int, y: int, z: int, e0: int, e1: int) -> int {
    if e0 == y && e1 == z {
        1
    } else if e0 == x && e1 == z {
        65520
    } else if e0 == x && e1 == y {
        1
    } else {
        0
    }
}

/// ∂∂ = 0 on a tetrahedron a < b < c < d: in every edge row, the boundary
/// of bcd is the boundary of abc - abd + acd.
proof fn lemma_tetrahedron_row(a: int, b: int, c: int, d: int, e0: int, e1: int)
    requires
        a < b < c < d,
    ensures
        crate::modular::congruent(
            1 * triangle_entry(a, b, c, e0, e1) + (-1) * triangle_entry(a, b, d, e0, e1) + 1
                * triangle_entry(a, c, d, e0, e1),
            triangle_entry(b, c, d, e0, e1),
        ),
{
}

/// The boundaries of the four triangles of a tetrahedron are dependent: a
/// graph with four pairwise adjacent vertices has a boundary map ∂_2 of
/// rank less than its number of triangles, so not every triangle fills an
/// independent cycle.
pub proof fn law_tetrahedron_boundaries_dependent(
    m: Map<usize, Set<usize>>,
    a: usize,
    b: usize,
    c: usize,
    d: usize,
)
    requires
        well_formed_adjacency(m),
        a < b < c < d,
        adjacent(m, a, b),
        adjacent(m, a, c),
        adjacent(m, a, d),
        adjacent(m, b, c),
        adjacent(m, b, d),
        adjacent(m, c, d),
    ensures
        crate::clique::boundary_rank(m, 2) < clique_count(m, 3),
{
    crate::clique::lemma_simplex_listing(m, 2);
    crate::clique::lemma_simplex_listing(m, 3);
    let l2 = crate::clique::simplex_listing(m, 2);
    let l3 = crate::clique::simplex_listing(m, 3);
    let mat = crate::chains::boundary_matrix(l2, l3);
    let t1 = seq![a, b, c];
    let t2 = seq![a, b, d];
    let t3 = seq![a, c, d];
    let t4 = seq![b, c, d];
    lemma_triangle_tuple(m, a, b, c);
    lemma_triangle_tuple(m, a, b, d);
    lemma_triangle_tuple(m, a, c, d);
    lemma_triangle_tuple(m, b, c, d);
    assert(l3.contains(t1) && l3.contains(t2) && l3.contains(t3) && l3.contains(t4));
    let j1 = choose|j: int| 0 <= j < l3.len() && l3[j] == t1;
    let j2 = choose|j: int| 0 <= j < l3.len() && l3[j] == t2;
    let j3 = choose|j: int| 0 <= j < l3.len() && l3[j] == t3;
    let j4 = choose|j: int| 0 <= j < l3.len() && l3[j] == t4;
    assert(crate::sorted::lex_sorted(l3));
    assert(t1.take(0) =~= t4.take(0));
    assert(t2.take(0) =~= t4.take(0));
    assert(t3.take(0) =~= t4.take(0));
    assert(seq_lex_lt(t1, t4) && seq_lex_lt(t2, t4) && seq_lex_lt(t3, t4));
    crate::sorted::lemma_lex_index_order(l3, j1, j4);
    crate::sorted::lemma_lex_index_order(l3, j2, j4);
    crate::sorted::lemma_lex_index_order(l3, j3, j4);
    assert(t1[2] != t2[2] && t1[1] != t3[1] && t2[1] != t3[1]);
    let f = |j: int| if j == j1 { 1int } else if j == j2 { -1int } else if j == j3 { 1int } else { 0int };
    let len = l2.len() as int;
    assert forall|r: int| 0 <= r < len implies #[trigger] crate::modular::congruent(
        crate::chains::comb(mat, f, j4, r),
        mat[j4][r] as int,
    ) by {
        let e = l2[r];
        assert(is_clique_tuple(m, e, 2));
        crate::chains::lemma_comb_three(mat, f, j4, r, j1, j2, j3);
        crate::chains::lemma_triangle_entry(a, b, c, e);
        crate::chains::lemma_triangle_entry(a, b, d, e);
        crate::chains::lemma_triangle_entry(a, c, d, e);
        crate::chains::lemma_triangle_entry(b, c, d, e);
        assert(mat[j1][r] as int == triangle_entry(a as int, b as int, c as int, e[0] as int, e[1] as int));
        assert(mat[j2][r] as int == triangle_entry(a as int, b as int, d as int, e[0] as int, e[1] as int));
        assert(mat[j3][r] as int == triangle_entry(a as int, c as int, d as int, e[0] as int, e[1] as int));
        assert(mat[j4][r] as int == triangle_entry(b as int, c as int, d as int, e[0] as int, e[1] as int));
        lemma_tetrahedron_row(a as int, b as int, c as int, d as int, e[0] as int, e[1] as int);
    }
    assert(mat[j4].len() == len);
    assert(crate::chains::combines_to(mat, f, j4, mat[j4], len));
    crate::chains::lemma_rank_drop(mat, l3.len() as int, len, j4);
}

} // verus!
