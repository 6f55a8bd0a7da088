//! Walks, reachability and connected components.

use std::collections::HashSet;
use vstd::prelude::*;
use vstd::std_specs::iter::IteratorSpec;

use crate::graph::{adjacent, well_formed_adjacency, SimplicialGraph};
use crate::sorted::{sort_distinct, strictly_increasing};

verus! {

broadcast use vstd::std_specs::hash::group_hash_axioms;

/// The step from position `i` to `i + 1` of `p` follows an edge.
pub open spec fn walk_step(m: Map<usize, Set<usize>>, p: Seq<usize>, i: int) -> bool {
    adjacent(m, p[i], p[i + 1])
}

/// `p` is a non-empty walk of `m`: it starts at a vertex and each step
/// follows an edge.
pub open spec fn is_walk(m: Map<usize, Set<usize>>, p: Seq<usize>) -> bool {
    &&& p.len() > 0
    &&& m.contains_key(p[0])
    &&& forall|i: int| 0 <= i < p.len() - 1 ==> #[trigger] walk_step(m, p, i)
}

/// Some walk leads from `u` to `v`.
pub open spec fn reachable(m: Map<usize, Set<usize>>, u: usize, v: usize) -> bool {
    exists|p: Seq<usize>| #[trigger] is_walk(m, p) && p[0] == u && p.last() == v
}

/// No edge leaves `s`.
pub open spec fn closed_under_adjacency(m: Map<usize, Set<usize>>, s: Set<usize>) -> bool {
    forall|x: usize, w: usize| #[trigger] adjacent(m, x, w) && s.contains(x) ==> s.contains(w)
}

/// `c` is the component of its first element, listed in increasing order.
pub open spec fn is_component(m: Map<usize, Set<usize>>, c: Seq<usize>) -> bool {
    &&& c.len() > 0
    &&& strictly_increasing(c)
    &&& forall|x: usize| #[trigger] c.contains(x) <==> reachable(m, c[0], x)
}

/// `cs` lists every component of `m` once, ordered by smallest vertex.
pub open spec fn is_component_list(m: Map<usize, Set<usize>>, cs: Seq<Seq<usize>>) -> bool {
    &&& forall|k: int| 0 <= k < cs.len() ==> #[trigger] is_component(m, cs[k])
    &&& forall|k1: int, k2: int| 0 <= k1 < k2 < cs.len() ==> cs[k1][0] < cs[k2][0]
    &&& forall|x: usize|
        m.contains_key(x) ==> exists|k: int| 0 <= k < cs.len() && #[trigger] cs[k].contains(x)
}

/// `v` is the smallest vertex of its component.
pub open spec fn is_leader(m: Map<usize, Set<usize>>, v: usize) -> bool {
    m.contains_key(v) && forall|u: usize| #[trigger] reachable(m, v, u) ==> v <= u
}

/// The number of connected components: one smallest vertex each.
pub open spec fn component_count(m: Map<usize, Set<usize>>) -> nat {
    Set::new(|v: usize| is_leader(m, v)).len()
}

/// Every vertex reaches itself.
pub proof fn lemma_reach_refl(m: Map<usize, Set<usize>>, v: usize)
    requires
        m.contains_key(v),
    ensures
        reachable(m, v, v),
{
    let p = seq![v];
    assert(is_walk(m, p));
}

/// A walk ends at a vertex.
pub proof fn lemma_reach_in_dom(m: Map<usize, Set<usize>>, u: usize, v: usize)
    requires
        well_formed_adjacency(m),
        reachable(m, u, v),
    ensures
        m.contains_key(u),
        m.contains_key(v),
{
    let p = choose|p: Seq<usize>| #[trigger] is_walk(m, p) && p[0] == u && p.last() == v;
    if p.len() > 1 {
        assert(walk_step(m, p, p.len() - 2));
    }
}

/// A walk can be extended by one edge.
pub proof fn lemma_reach_step(m: Map<usize, Set<usize>>, u: usize, x: usize, w: usize)
    requires
        reachable(m, u, x),
        adjacent(m, x, w),
    ensures
        reachable(m, u, w),
{
    let p = choose|p: Seq<usize>| #[trigger] is_walk(m, p) && p[0] == u && p.last() == x;
    let q = p.push(w);
    assert forall|i: int| 0 <= i < q.len() - 1 implies #[trigger] walk_step(m, q, i) by {
        if i < p.len() - 1 {
            assert(walk_step(m, p, i));
        }
    }
    assert(is_walk(m, q));
}

/// Reachability is symmetric in a well-formed graph.
pub proof fn lemma_reach_symm(m: Map<usize, Set<usize>>, u: usize, v: usize)
    requires
        well_formed_adjacency(m),
        reachable(m, u, v),
    ensures
        reachable(m, v, u),
{
    lemma_reach_in_dom(m, u, v);
    let p = choose|p: Seq<usize>| #[trigger] is_walk(m, p) && p[0] == u && p.last() == v;
    let n = p.len();
    let q = Seq::new(n, |i: int| p[n - 1 - i]);
    assert forall|i: int| 0 <= i < q.len() - 1 implies #[trigger] walk_step(m, q, i) by {
        assert(walk_step(m, p, n - 2 - i));
    }
    assert(is_walk(m, q));
}

/// Reachability is transitive.
pub proof fn lemma_reach_trans(m: Map<usize, Set<usize>>, u: usize, v: usize, w: usize)
    requires
        reachable(m, u, v),
        reachable(m, v, w),
    ensures
        reachable(m, u, w),
{
    let p = choose|p: Seq<usize>| #[trigger] is_walk(m, p) && p[0] == u && p.last() == v;
    let q = choose|q: Seq<usize>| #[trigger] is_walk(m, q) && q[0] == v && q.last() == w;
    let r = p + q.drop_first();
    assert forall|i: int| 0 <= i < r.len() - 1 implies #[trigger] walk_step(m, r, i) by {
        if i < p.len() - 1 {
            assert(walk_step(m, p, i));
        } else if i == p.len() - 1 {
            assert(walk_step(m, q, 0));
        } else {
            assert(walk_step(m, q, i - p.len() + 1));
        }
    }
    assert(is_walk(m, r));
}

/// A set that no edge leaves holds everything reachable from its members.
pub proof fn lemma_closed_holds_reachable(
    m: Map<usize, Set<usize>>,
    s: Set<usize>,
    u: usize,
    v: usize,
)
    requires
        closed_under_adjacency(m, s),
        s.contains(u),
        reachable(m, u, v),
    ensures
        s.contains(v),
{
    let p = choose|p: Seq<usize>| #[trigger] is_walk(m, p) && p[0] == u && p.last() == v;
    lemma_walk_stays(m, s, p, p.len() - 1);
}

/// Each vertex of a walk that starts in a closed set lies in that set.
proof fn lemma_walk_stays(m: Map<usize, Set<usize>>, s: Set<usize>, p: Seq<usize>, k: int)
    requires
        closed_under_adjacency(m, s),
        is_walk(m, p),
        s.contains(p[0]),
        0 <= k < p.len(),
    ensures
        s.contains(p[k]),
    decreases k,
{
    if k > 0 {
        lemma_walk_stays(m, s, p, k - 1);
        assert(walk_step(m, p, k - 1));
    }
}

/// A list of all components has one entry per component leader.
pub proof fn lemma_component_list_count(m: Map<usize, Set<usize>>, cs: Seq<Seq<usize>>)
    requires
        well_formed_adjacency(m),
        is_component_list(m, cs),
    ensures
        Set::new(|v: usize| is_leader(m, v)).finite(),
        component_count(m) == cs.len(),
        component_count(m) <= m.dom().len(),
{
    let leaders = Set::new(|v: usize| is_leader(m, v));
    let firsts = Seq::new(cs.len(), |k: int| cs[k][0]);
    assert forall|k: int| 0 <= k < cs.len() implies #[trigger] is_leader(m, firsts[k]) by {
        let c = cs[k];
        assert(is_component(m, c));
        assert(c.contains(c[0]));
        lemma_reach_in_dom(m, c[0], c[0]);
        assert forall|u: usize| #[trigger] reachable(m, c[0], u) implies c[0] <= u by {
            assert(c.contains(u));
            let j = choose|j: int| 0 <= j < c.len() && c[j] == u;
            if j > 0 {
                assert(c[0] < c[j]);
            }
        }
    }
    assert forall|v: usize| #[trigger] leaders.contains(v) <==> firsts.to_set().contains(v) by {
        if leaders.contains(v) {
            let k = choose|k: int| 0 <= k < cs.len() && #[trigger] cs[k].contains(v);
            let c = cs[k];
            assert(is_component(m, c));
            assert(reachable(m, c[0], v));
            lemma_reach_symm(m, c[0], v);
            let j = choose|j: int| 0 <= j < c.len() && c[j] == v;
            if j > 0 {
                assert(c[0] < c[j]);
            }
            assert(firsts[k] == v);
        }
        if firsts.to_set().contains(v) {
            let k = choose|k: int| 0 <= k < firsts.len() && firsts[k] == v;
            assert(is_leader(m, firsts[k]));
        }
    }
    assert(leaders =~= firsts.to_set());
    assert forall|i: int, j: int| 0 <= i < firsts.len() && 0 <= j < firsts.len() && i != j implies firsts[i] != firsts[j] by {
        if i < j {
            assert(cs[i][0] < cs[j][0]);
        } else {
            assert(cs[j][0] < cs[i][0]);
        }
    }
    firsts.unique_seq_to_set();
    assert(leaders.subset_of(m.dom()));
    vstd::set_lib::lemma_len_subset(leaders, m.dom());
}

impl SimplicialGraph {
    /// Depth-first search from `root` over the vertices not yet in
    /// `visited`; returns the vertices it reached, in visiting order.
    fn explore(&self, root: usize, visited: &mut HashSet<usize>) -> (comp: Vec<usize>)
        requires
            self.wf(),
            self@.contains_key(root),
            !old(visited)@.contains(root),
            old(visited)@.subset_of(self@.dom()),
            closed_under_adjacency(self@, old(visited)@),
        ensures
            comp@.no_duplicates(),
            forall|x: usize| #[trigger] comp@.contains(x) <==> reachable(self@, root, x),
            forall|x: usize| #[trigger]
                final(visited)@.contains(x) <==> (old(visited)@.contains(x) || reachable(
                    self@,
                    root,
                    x,
                )),
            final(visited)@.subset_of(self@.dom()),
            closed_under_adjacency(self@, final(visited)@),
    {
        let ghost m = self@;
        let ghost v0 = visited@;
        let mut component: Vec<usize> = Vec::new();
        let mut stack: Vec<usize> = Vec::new();
        stack.push(root);
        proof {
            lemma_reach_refl(m, root);
            vstd::set_lib::lemma_len_subset(visited@, m.dom());
            assert(stack@[0] == root);
        }
        while stack.len() > 0
            invariant
                self.wf(),
                m == self@,
                m.contains_key(root),
                !v0.contains(root),
                v0.subset_of(m.dom()),
                closed_under_adjacency(m, v0),
                visited@.subset_of(m.dom()),
                visited@.finite(),
                forall|x: usize| #[trigger]
                    visited@.contains(x) <==> (v0.contains(x) || component@.contains(x)),
                forall|x: usize| #[trigger]
                    component@.contains(x) ==> !v0.contains(x) && reachable(m, root, x),
                component@.no_duplicates(),
                forall|y: usize| #[trigger] stack@.contains(y) ==> reachable(m, root, y),
                component@.contains(root) || stack@.contains(root),
                forall|x: usize, w: usize|
                    #![trigger adjacent(m, x, w), component@.contains(x)]
                    component@.contains(x) && adjacent(m, x, w) ==> visited@.contains(w)
                        || stack@.contains(w),
            decreases m.dom().len() - visited@.len(), stack@.len(),
        {
            let ghost s0 = stack@;
            let ghost vis0 = visited@;
            let ghost c0 = component@;
            match stack.pop() {
                Some(u) => {
                    assert(s0.contains(u));
                    assert forall|y: usize| #[trigger] s0.contains(y) implies stack@.contains(y)
                        || y == u by {
                        let k = choose|k: int| 0 <= k < s0.len() && s0[k] == y;
                        if k < s0.len() - 1 {
                            assert(stack@[k] == y);
                        }
                    }
                    assert forall|y: usize| #[trigger] stack@.contains(y) implies s0.contains(
                        y,
                    ) by {
                        let k = choose|k: int| 0 <= k < stack@.len() && stack@[k] == y;
                        assert(s0[k] == y);
                    }
                    if !visited.contains(&u) {
                        proof {
                            lemma_reach_in_dom(m, root, u);
                            vstd::set_lib::lemma_len_subset(vis0.insert(u), m.dom());
                        }
                        visited.insert(u);
                        component.push(u);
                        proof {
                            assert forall|x: usize| #[trigger] component@.contains(x) <==> (
                            c0.contains(x) || x == u) by {
                                if component@.contains(x) {
                                    let k = choose|k: int|
                                        0 <= k < component@.len() && component@[k] == x;
                                    if k < c0.len() {
                                        assert(c0[k] == x);
                                    }
                                }
                                if c0.contains(x) {
                                    let k = choose|k: int| 0 <= k < c0.len() && c0[k] == x;
                                    assert(component@[k] == x);
                                }
                                if x == u {
                                    assert(component@[c0.len() as int] == x);
                                }
                            }
                            assert forall|i: int, j: int|
                                0 <= i < component@.len() && 0 <= j < component@.len() && i
                                    != j implies component@[i] != component@[j] by {
                                if i < c0.len() && j < c0.len() {
                                    assert(c0[i] != c0[j]);
                                } else if i < c0.len() {
                                    assert(c0.contains(component@[i]));
                                } else if j < c0.len() {
                                    assert(c0.contains(component@[j]));
                                }
                            }
                        }
                        match self.neighbors(u) {
                            Some(ns) => {
                                let ghost all = ns.iter().remaining();
                                let ghost s1 = stack@;
                                for w in it: ns.iter()
                                    invariant
                                        it.seq() == all,
                                        all.unref().to_set() == m[u],
                                        m == self@,
                                        m.contains_key(u),
                                        reachable(m, root, u),
                                        forall|y: usize| #[trigger]
                                            s1.contains(y) ==> stack@.contains(y),
                                        forall|y: usize| #[trigger]
                                            stack@.contains(y) ==> reachable(m, root, y),
                                        forall|y: usize| #[trigger]
                                            all.take(it.index()).unref().contains(y)
                                                ==> visited@.contains(y) || stack@.contains(y),
                                {
                                    let ghost idx = it.index();
                                    let ghost st = stack@;
                                    proof {
                                        assert(all.unref().to_set().contains(*w));
                                        assert(all.unref()[idx] == *w);
                                        lemma_reach_step(m, root, u, *w);
                                    }
                                    if !visited.contains(w) {
                                        stack.push(*w);
                                    }
                                    proof {
                                        assert forall|y: usize| #[trigger] st.contains(y)
                                            implies stack@.contains(y) by {
                                            let k = choose|k: int| 0 <= k < st.len() && st[k] == y;
                                            assert(stack@[k] == y);
                                        }
                                        assert forall|y: usize| #[trigger] stack@.contains(y)
                                            implies reachable(m, root, y) by {
                                            let k = choose|k: int|
                                                0 <= k < stack@.len() && stack@[k] == y;
                                            if k < st.len() {
                                                assert(st[k] == y);
                                                assert(st.contains(y));
                                            } else {
                                                assert(stack@ == st.push(*w));
                                                assert(y == *w);
                                                assert(reachable(m, root, *w));
                                            }
                                        }
                                        if !visited@.contains(*w) {
                                            assert(stack@[st.len() as int] == *w);
                                        }
                                        let t0 = all.take(idx).unref();
                                        let t1 = all.take(idx + 1).unref();
                                        assert forall|y: usize| #[trigger] t1.contains(y) implies (
                                        t0.contains(y) || y == *w) by {
                                            let k = choose|k: int| 0 <= k < t1.len() && t1[k] == y;
                                            if k < idx {
                                                assert(t0[k] == y);
                                            }
                                        }
                                    }
                                }
                                proof {
                                    assert(all.take(all.len() as int) == all);
                                    assert forall|w: usize| #[trigger] adjacent(m, u, w) implies (
                                    visited@.contains(w) || stack@.contains(w)) by {
                                        assert(all.unref().to_set().contains(w));
                                    }
                                }
                            },
                            None => {},
                        }
                    }
                    proof {
                        assert forall|x: usize, w: usize|
                            #![trigger adjacent(m, x, w), component@.contains(x)]
                            component@.contains(x) && adjacent(
                                m,
                                x,
                                w,
                            ) implies visited@.contains(w) || stack@.contains(w) by {
                            if x != u {
                                assert(c0.contains(x));
                                if s0.contains(w) && !stack@.contains(w) {
                                    assert(w == u);
                                }
                            }
                        }
                    }
                },
                None => {},
            }
        }
        proof {
            assert forall|x: usize, w: usize| #[trigger]
                adjacent(m, x, w) && component@.contains(x) implies component@.contains(w) by {
                if v0.contains(w) {
                    assert(adjacent(m, w, x));
                }
            }
            assert forall|x: usize| reachable(m, root, x) implies #[trigger] component@.contains(
                x,
            ) by {
                lemma_closed_holds_reachable(m, component@.to_set(), root, x);
            }
            assert forall|x: usize, w: usize| #[trigger]
                adjacent(m, x, w) && visited@.contains(x) implies visited@.contains(w) by {
                if component@.contains(x) {
                    assert(component@.contains(w));
                }
            }
        }
        component
    }

    /// Find connected components using DFS.
    pub fn connected_components(&self) -> (r: Vec<Vec<usize>>)
        requires
            self.wf(),
        ensures
            is_component_list(self@, r.deep_view()),
            r@.len() == component_count(self@),
            component_count(self@) <= self@.dom().len(),
    {
        let ghost m = self@;
        let mut visited: HashSet<usize> = HashSet::new();
        let mut components: Vec<Vec<usize>> = Vec::new();
        let verts = self.vertices();
        let nv = verts.len();
        for i in 0..nv
            invariant
                self.wf(),
                m == self@,
                nv == verts@.len(),
                strictly_increasing(verts@),
                forall|x: usize| #[trigger] verts@.contains(x) <==> m.contains_key(x),
                visited@.subset_of(m.dom()),
                closed_under_adjacency(m, visited@),
                forall|j: int| 0 <= j < i ==> #[trigger] visited@.contains(verts@[j]),
                forall|x: usize|
                    #[trigger] visited@.contains(x) <==> exists|k: int|
                        0 <= k < components@.len() && #[trigger] components@[k]@.contains(x),
                forall|k: int|
                    0 <= k < components@.len() ==> #[trigger] is_component(m, components@[k]@),
                forall|k1: int, k2: int|
                    0 <= k1 < k2 < components@.len() ==> components@[k1]@[0]
                        < components@[k2]@[0],
                forall|k: int|
                    0 <= k < components@.len() && i < nv ==> #[trigger] components@[k]@[0]
                        < verts@[i as int],
        {
            let v = verts[i];
            proof {
                assert(verts@.contains(v));
            }
            if !visited.contains(&v) {
                let ghost vis0 = visited@;
                let ghost cs0 = components@;
                let found = self.explore(v, &mut visited);
                let component = sort_distinct(&found);
                proof {
                    lemma_reach_refl(m, v);
                    assert(component@.contains(v));
                    let t = choose|t: int| 0 <= t < component@.len() && component@[t] == v;
                    assert forall|x: usize| #[trigger] component@.contains(x) implies v <= x by {
                        if x < v {
                            lemma_reach_in_dom(m, v, x);
                            assert(verts@.contains(x));
                            let j = choose|j: int| 0 <= j < verts@.len() && verts@[j] == x;
                            if j >= i {
                                if j > i {
                                    assert(verts@[i as int] < verts@[j]);
                                }
                            }
                            assert(vis0.contains(verts@[j]));
                            lemma_reach_symm(m, v, x);
                            lemma_closed_holds_reachable(m, vis0, x, v);
                        }
                    }
                    if t > 0 {
                        assert(component@[0] < component@[t]);
                        assert(component@.contains(component@[0]));
                    }
                    assert(component@[0] == v);
                    assert(is_component(m, component@));
                }
                components.push(component);
                proof {
                    assert(components@[cs0.len() as int]@ == component@);
                    assert forall|k: int|
                        0 <= k < components@.len() implies #[trigger] is_component(
                        m,
                        components@[k]@,
                    ) by {
                        if k < cs0.len() {
                            assert(components@[k] == cs0[k]);
                        }
                    }
                    assert forall|x: usize| #[trigger] visited@.contains(x) <==> exists|k: int|
                        0 <= k < components@.len() && #[trigger] components@[k]@.contains(x) by {
                        if visited@.contains(x) {
                            if vis0.contains(x) {
                                let k = choose|k: int|
                                    0 <= k < cs0.len() && #[trigger] cs0[k]@.contains(x);
                                assert(components@[k] == cs0[k]);
                            } else {
                                assert(components@[cs0.len() as int]@.contains(x));
                            }
                        }
                        if exists|k: int|
                            0 <= k < components@.len() && #[trigger] components@[k]@.contains(x) {
                            let k = choose|k: int|
                                0 <= k < components@.len() && #[trigger] components@[k]@.contains(
                                    x,
                                );
                            if k < cs0.len() {
                                assert(components@[k] == cs0[k]);
                                assert(cs0[k]@.contains(x));
                            }
                        }
                    }
                    assert forall|k1: int, k2: int|
                        0 <= k1 < k2 < components@.len() implies components@[k1]@[0]
                        < components@[k2]@[0] by {
                        assert(components@[k1] == cs0[k1]);
                        if k2 < cs0.len() {
                            assert(components@[k2] == cs0[k2]);
                        }
                    }
                }
            }
            proof {
                assert(visited@.contains(verts@[i as int]));
                assert forall|k: int|
                    0 <= k < components@.len() && i + 1 < nv implies #[trigger] components@[k]@[0]
                    < verts@[i + 1] by {
                    assert(verts@[i as int] < verts@[i + 1]);
                }
            }
        }
        proof {
            let cs = components.deep_view();
            assert forall|k: int| 0 <= k < cs.len() implies cs[k] == components@[k]@ by {}
            assert forall|x: usize| m.contains_key(x) implies exists|k: int|
                0 <= k < cs.len() && #[trigger] cs[k].contains(x) by {
                assert(verts@.contains(x));
                let j = choose|j: int| 0 <= j < verts@.len() && verts@[j] == x;
                assert(visited@.contains(verts@[j]));
                let k = choose|k: int|
                    0 <= k < components@.len() && #[trigger] components@[k]@.contains(x);
                assert(cs[k] == components@[k]@);
            }
            lemma_component_list_count(m, cs);
        }
        components
    }
}

} // verus!
