//! Strictly increasing sequences of vertex ids.

use vstd::prelude::*;

verus! {

/// Every element is smaller than every later one.
pub open spec fn strictly_increasing(s: Seq<usize>) -> bool {
    forall|i: int, j: int| 0 <= i < j < s.len() ==> s[i] < s[j]
}

/// A strictly increasing sequence has no repeated element.
pub proof fn lemma_increasing_no_duplicates(s: Seq<usize>)
    requires
        strictly_increasing(s),
    ensures
        s.no_duplicates(),
{
    assert forall|i: int, j: int| 0 <= i < s.len() && 0 <= j < s.len() && i != j implies s[i]
        != s[j] by {
        if i < j {
        } else {
        }
    }
}

/// Inserts `x` in its place in a strictly increasing vector, unless it is
/// there already.
pub fn insert_sorted(v: &mut Vec<usize>, x: usize)
    requires
        strictly_increasing(old(v)@),
    ensures
        strictly_increasing(final(v)@),
        forall|y: usize| #[trigger] final(v)@.contains(y) <==> (old(v)@.contains(y) || y == x),
        old(v)@.contains(x) ==> final(v)@ == old(v)@,
        !old(v)@.contains(x) ==> exists|p: int|
            0 <= p <= old(v)@.len() && #[trigger] old(v)@.insert(p, x) == final(v)@,
{
    let n = v.len();
    let mut p: usize = 0;
    while p < n && v[p] < x
        invariant
            n == v.len(),
            p <= n,
            forall|i: int| 0 <= i < p ==> v@[i] < x,
        decreases n - p,
    {
        p = p + 1;
    }
    if p < n && v[p] == x {
        return;
    }
    proof {
        if v@.contains(x) {
            let k = choose|k: int| 0 <= k < v@.len() && v@[k] == x;
            if k > p {
                assert(v@[p as int] < v@[k]);
            }
        }
    }
    let ghost old_v = v@;
    v.insert(p, x);
    assert(v@ == old_v.insert(p as int, x));
    assert(forall|i: int, j: int| 0 <= i < j < v@.len() ==> v@[i] < v@[j]) by {
        assert forall|i: int, j: int| 0 <= i < j < v@.len() implies v@[i] < v@[j] by {
            if j < p {
            } else if j == p {
                assert(v@[i] == old_v[i]);
            } else if i < p {
                assert(v@[j] == old_v[j - 1]);
            } else if i == p {
                assert(v@[j] == old_v[j - 1]);
                if j - 1 > p {
                    assert(old_v[p as int] < old_v[j - 1]);
                }
            } else {
                assert(v@[i] == old_v[i - 1]);
            }
        }
    }
    assert forall|y: usize| #[trigger] v@.contains(y) <==> (old_v.contains(y) || y == x) by {
        if v@.contains(y) {
            let k = choose|k: int| 0 <= k < v@.len() && v@[k] == y;
            if k < p {
                assert(old_v[k] == y);
            } else if k > p {
                assert(old_v[k - 1] == y);
            }
        }
        if old_v.contains(y) {
            let k = choose|k: int| 0 <= k < old_v.len() && old_v[k] == y;
            if k < p {
                assert(v@[k] == y);
            } else {
                assert(v@[k + 1] == y);
            }
        }
        if y == x {
            assert(v@[p as int] == x);
        }
    }
}

/// The distinct elements of `v`, in increasing order.
pub fn sort_distinct(v: &Vec<usize>) -> (r: Vec<usize>)
    ensures
        strictly_increasing(r@),
        forall|y: usize| #[trigger] r@.contains(y) <==> v@.contains(y),
{
    let mut r: Vec<usize> = Vec::new();
    let n = v.len();
    for i in 0..n
        invariant
            n == v.len(),
            strictly_increasing(r@),
            forall|y: usize| #[trigger] r@.contains(y) <==> v@.take(i as int).contains(y),
    {
        insert_sorted(&mut r, v[i]);
        let ghost t0 = v@.take(i as int);
        let ghost t1 = v@.take(i + 1);
        assert forall|y: usize| #[trigger] t1.contains(y) <==> (t0.contains(y) || y == v@[i as int]) by {
            if t1.contains(y) {
                let k = choose|k: int| 0 <= k < t1.len() && t1[k] == y;
                if k < i {
                    assert(t0[k] == y);
                }
            }
            if t0.contains(y) {
                let k = choose|k: int| 0 <= k < t0.len() && t0[k] == y;
                assert(t1[k] == y);
            }
            if y == v@[i as int] {
                assert(t1[i as int] == y);
            }
        }
    }
    assert(v@.take(n as int) == v@);
    r
}

/// `a` comes before `b` in lexicographic order: they agree up to some
/// position, where `a` holds the smaller element.
pub open spec fn seq_lex_lt(a: Seq<usize>, b: Seq<usize>) -> bool {
    exists|i: int|
        0 <= i < a.len() && i < b.len() && #[trigger] a.take(i) == b.take(i) && a[i] < b[i]
}

/// `s` comes before `t` in the lexicographic order of their increasing
/// enumerations: the smallest element in which they differ lies in `s`.
pub open spec fn set_lex_lt(s: Set<usize>, t: Set<usize>) -> bool {
    exists|x: usize|
        #![trigger s.contains(x), t.contains(x)]
        s.contains(x) && !t.contains(x) && forall|y: usize|
            y < x ==> (#[trigger] s.contains(y) <==> t.contains(y))
}

/// Two strictly increasing sequences with the same elements are equal.
pub proof fn lemma_increasing_unique(a: Seq<usize>, b: Seq<usize>)
    requires
        strictly_increasing(a),
        strictly_increasing(b),
        forall|y: usize| #[trigger] a.contains(y) <==> b.contains(y),
    ensures
        a == b,
    decreases a.len(),
{
    if a.len() == 0 {
        if b.len() > 0 {
            assert(b.contains(b[0]));
            assert(a.contains(b[0]));
        }
        assert(a =~= b);
    } else if b.len() == 0 {
        assert(a.contains(a[0]));
        assert(b.contains(a[0]));
    } else {
        assert(a.contains(a.last()));
        assert(b.contains(b.last()));
        assert(a.contains(b.last()));
        assert(b.contains(a.last()));
        let ka = choose|k: int| 0 <= k < a.len() && a[k] == b.last();
        let kb = choose|k: int| 0 <= k < b.len() && b[k] == a.last();
        if ka < a.len() - 1 {
            assert(a[ka] < a.last());
        }
        if kb < b.len() - 1 {
            assert(b[kb] < b.last());
        }
        assert(a.last() == b.last());
        let a1 = a.drop_last();
        let b1 = b.drop_last();
        assert forall|y: usize| #[trigger] a1.contains(y) <==> b1.contains(y) by {
            if a1.contains(y) {
                let k = choose|k: int| 0 <= k < a1.len() && a1[k] == y;
                assert(a[k] == y);
                assert(a.contains(y));
                assert(b.contains(y));
                let j = choose|j: int| 0 <= j < b.len() && b[j] == y;
                if j == b.len() - 1 {
                    assert(a[k] < a.last());
                }
                assert(b1[j] == y);
            }
            if b1.contains(y) {
                let k = choose|k: int| 0 <= k < b1.len() && b1[k] == y;
                assert(b[k] == y);
                assert(b.contains(y));
                assert(a.contains(y));
                let j = choose|j: int| 0 <= j < a.len() && a[j] == y;
                if j == a.len() - 1 {
                    assert(b[k] < b.last());
                }
                assert(a1[j] == y);
            }
        }
        lemma_increasing_unique(a1, b1);
        assert(a =~= a1.push(a.last()));
        assert(b =~= b1.push(b.last()));
    }
}

/// Lexicographic order is asymmetric.
pub proof fn lemma_lex_asymmetric(a: Seq<usize>, b: Seq<usize>)
    requires
        seq_lex_lt(a, b),
    ensures
        !seq_lex_lt(b, a),
        a != b,
{
    let i = choose|i: int|
        0 <= i < a.len() && i < b.len() && #[trigger] a.take(i) == b.take(i) && a[i] < b[i];
    if seq_lex_lt(b, a) {
        let j = choose|j: int|
            0 <= j < a.len() && j < b.len() && #[trigger] b.take(j) == a.take(j) && b[j] < a[j];
        if i < j {
            assert(b.take(j)[i] == a.take(j)[i]);
        } else if j < i {
            assert(b.take(i)[j] == a.take(i)[j]);
        }
    }
}

/// For increasing sequences, lexicographic order of the sequences is the
/// lexicographic order of their sets.
pub proof fn lemma_lex_seq_to_set(a: Seq<usize>, b: Seq<usize>)
    requires
        strictly_increasing(a),
        strictly_increasing(b),
        seq_lex_lt(a, b),
    ensures
        set_lex_lt(a.to_set(), b.to_set()),
{
    let i = choose|i: int|
        0 <= i < a.len() && i < b.len() && #[trigger] a.take(i) == b.take(i) && a[i] < b[i];
    let x = a[i];
    assert(a.to_set().contains(x));
    assert(!b.to_set().contains(x)) by {
        if b.contains(x) {
            let k = choose|k: int| 0 <= k < b.len() && b[k] == x;
            if k < i {
                assert(a.take(i)[k] == b.take(i)[k]);
                assert(a[k] < a[i]);
            } else if k > i {
                assert(b[i] < b[k]);
            }
        }
    }
    assert forall|y: usize| y < x implies (#[trigger] a.to_set().contains(y) <==> b.to_set().contains(
        y,
    )) by {
        if a.contains(y) {
            let k = choose|k: int| 0 <= k < a.len() && a[k] == y;
            if k >= i {
                if k > i {
                    assert(a[i] < a[k]);
                }
            }
            assert(a.take(i)[k] == b.take(i)[k]);
            assert(b[k] == y);
        }
        if b.contains(y) {
            let k = choose|k: int| 0 <= k < b.len() && b[k] == y;
            if k >= i {
                if k > i {
                    assert(b[i] < b[k]);
                }
            }
            assert(a.take(i)[k] == b.take(i)[k]);
            assert(a[k] == y);
        }
    }
}

/// The elements of an increasing sequence that lie in `s`, in the same
/// order.
pub proof fn lemma_increasing_filter(q: Seq<usize>, s: Set<usize>) -> (r: Seq<usize>)
    requires
        strictly_increasing(q),
    ensures
        strictly_increasing(r),
        forall|x: usize| #[trigger] r.contains(x) <==> (q.contains(x) && s.contains(x)),
    decreases q.len(),
{
    if q.len() == 0 {
        Seq::empty()
    } else {
        let q1 = q.drop_last();
        let r1 = lemma_increasing_filter(q1, s);
        let last = q.last();
        let r = if s.contains(last) {
            r1.push(last)
        } else {
            r1
        };
        assert forall|x: usize| #[trigger] r.contains(x) <==> (q.contains(x) && s.contains(x)) by {
            if r.contains(x) {
                let k = choose|k: int| 0 <= k < r.len() && r[k] == x;
                if k < r1.len() {
                    assert(r1.contains(x));
                    let j = choose|j: int| 0 <= j < q1.len() && q1[j] == x;
                    assert(q[j] == x);
                } else {
                    assert(q[q.len() - 1] == x);
                }
            }
            if q.contains(x) && s.contains(x) {
                let k = choose|k: int| 0 <= k < q.len() && q[k] == x;
                if k < q.len() - 1 {
                    assert(q1[k] == x);
                    assert(r1.contains(x));
                    let j = choose|j: int| 0 <= j < r1.len() && r1[j] == x;
                    assert(r[j] == x);
                } else {
                    assert(r[r.len() - 1] == x);
                }
            }
        }
        if s.contains(last) {
            assert forall|i: int, j: int| 0 <= i < j < r.len() implies r[i] < r[j] by {
                if j == r.len() - 1 {
                    assert(r1.contains(r[i]));
                    let k = choose|k: int| 0 <= k < q1.len() && q1[k] == r[i];
                    assert(q[k] < q[q.len() - 1]);
                }
            }
        }
        r
    }
}

/// Every finite set of ids has an increasing enumeration.
pub proof fn lemma_sorted_enumeration(s: Set<usize>) -> (q: Seq<usize>)
    requires
        s.finite(),
    ensures
        strictly_increasing(q),
        forall|x: usize| #[trigger] q.contains(x) <==> s.contains(x),
    decreases s.len(),
{
    if s.len() == 0 {
        assert forall|x: usize| #[trigger] Seq::<usize>::empty().contains(x) <==> s.contains(x) by {
            if s.contains(x) {
                assert(s.remove(x).len() < s.len());
            }
        }
        Seq::empty()
    } else {
        let x = s.choose();
        assert(s.contains(x));
        let rest = lemma_sorted_enumeration(s.remove(x));
        let lo = lemma_increasing_filter(rest, Set::new(|y: usize| y < x));
        let hi = lemma_increasing_filter(rest, Set::new(|y: usize| y > x));
        let q = lo.push(x) + hi;
        assert forall|i: int, j: int| 0 <= i < j < q.len() implies q[i] < q[j] by {
            if j < lo.len() {
                assert(q[i] == lo[i] && q[j] == lo[j]);
            } else if j == lo.len() {
                assert(lo.contains(q[i]));
            } else if i < lo.len() {
                assert(lo.contains(q[i]));
                assert(hi.contains(q[j]));
            } else if i == lo.len() {
                assert(hi.contains(q[j]));
            } else {
                assert(q[i] == hi[i - lo.len() - 1] && q[j] == hi[j - lo.len() - 1]);
            }
        }
        assert forall|y: usize| #[trigger] q.contains(y) <==> s.contains(y) by {
            if q.contains(y) {
                let k = choose|k: int| 0 <= k < q.len() && q[k] == y;
                if k < lo.len() {
                    assert(lo.contains(y));
                } else if k > lo.len() {
                    assert(hi[k - lo.len() - 1] == y);
                    assert(hi.contains(y));
                }
            }
            if s.contains(y) {
                if y < x {
                    assert(rest.contains(y));
                    assert(lo.contains(y));
                    let k = choose|k: int| 0 <= k < lo.len() && lo[k] == y;
                    assert(q[k] == y);
                } else if y > x {
                    assert(rest.contains(y));
                    assert(hi.contains(y));
                    let k = choose|k: int| 0 <= k < hi.len() && hi[k] == y;
                    assert(q[lo.len() + 1 + k] == y);
                } else {
                    assert(q[lo.len() as int] == y);
                }
            }
        }
        q
    }
}

/// Pushing an element adds it to the set of elements.
pub proof fn lemma_push_to_set(s: Seq<usize>, x: usize)
    ensures
        s.push(x).to_set() == s.to_set().insert(x),
{
    let t = s.push(x);
    assert forall|y: usize| #[trigger] t.to_set().contains(y) <==> s.to_set().insert(x).contains(y) by {
        if t.contains(y) {
            let k = choose|k: int| 0 <= k < t.len() && t[k] == y;
            if k < s.len() {
                assert(s[k] == y);
            }
        }
        if s.contains(y) {
            let k = choose|k: int| 0 <= k < s.len() && s[k] == y;
            assert(t[k] == y);
        }
        if y == x {
            assert(t[s.len() as int] == y);
        }
    }
    assert(t.to_set() =~= s.to_set().insert(x));
}

/// A prefix one longer holds one more element.
pub proof fn lemma_take_contains(s: Seq<usize>, j: int, x: usize)
    requires
        0 <= j < s.len(),
    ensures
        s.take(j + 1).contains(x) <==> (s.take(j).contains(x) || x == s[j]),
{
    assert(s.take(j + 1) =~= s.take(j).push(s[j]));
    lemma_push_to_set(s.take(j), s[j]);
    assert(s.take(j + 1).to_set().contains(x) == s.take(j + 1).contains(x));
    assert(s.take(j).to_set().contains(x) == s.take(j).contains(x));
}

/// In an increasing sequence, the elements before position `j` are the
/// elements smaller than the one at `j`.
pub proof fn lemma_take_below(s: Seq<usize>, j: int, x: usize)
    requires
        strictly_increasing(s),
        0 <= j < s.len(),
    ensures
        s.take(j).contains(x) <==> (s.contains(x) && x < s[j]),
{
    if s.take(j).contains(x) {
        let k = choose|k: int| 0 <= k < s.take(j).len() && s.take(j)[k] == x;
        assert(s[k] == x);
    }
    if s.contains(x) && x < s[j] {
        let k = choose|k: int| 0 <= k < s.len() && s[k] == x;
        if k >= j {
            if k > j {
                assert(s[j] < s[k]);
            }
        }
        assert(s.take(j)[k] == x);
    }
}

/// Whether two vectors hold the same sequence.
pub fn same_seq(a: &Vec<usize>, b: &Vec<usize>) -> (r: bool)
    ensures
        r == (a@ == b@),
{
    if a.len() != b.len() {
        return false;
    }
    let n = a.len();
    for i in 0..n
        invariant
            n == a@.len(),
            n == b@.len(),
            forall|j: int| 0 <= j < i ==> a@[j] == b@[j],
    {
        if a[i] != b[i] {
            return false;
        }
    }
    assert(a@ =~= b@);
    true
}


/// Two different sequences of one length differ first at some position
/// from `j` on, when they agree before `j`.
proof fn lemma_first_difference(a: Seq<usize>, b: Seq<usize>, j: int)
    requires
        a.len() == b.len(),
        a != b,
        0 <= j <= a.len(),
        a.take(j) == b.take(j),
    ensures
        exists|i: int| 0 <= i < a.len() && #[trigger] a.take(i) == b.take(i) && a[i] != b[i],
    decreases a.len() - j,
{
    if j == a.len() {
        assert(a.take(j) =~= a);
        assert(b.take(j) =~= b);
    } else if a[j] != b[j] {
        assert(a.take(j) == b.take(j) && a[j] != b[j]);
    } else {
        assert(a.take(j + 1) =~= a.take(j).push(a[j]));
        assert(b.take(j + 1) =~= b.take(j).push(b[j]));
        lemma_first_difference(a, b, j + 1);
    }
}

/// Lexicographic order is total on different sequences of one length.
pub proof fn lemma_lex_total(a: Seq<usize>, b: Seq<usize>)
    requires
        a.len() == b.len(),
        a != b,
    ensures
        seq_lex_lt(a, b) || seq_lex_lt(b, a),
{
    assert(a.take(0) =~= b.take(0));
    lemma_first_difference(a, b, 0);
    let i = choose|i: int| 0 <= i < a.len() && #[trigger] a.take(i) == b.take(i) && a[i] != b[i];
    if a[i] < b[i] {
        assert(seq_lex_lt(a, b));
    } else {
        assert(b.take(i) == a.take(i));
        assert(seq_lex_lt(b, a));
    }
}

/// Lexicographic order is transitive.
pub proof fn lemma_lex_trans(a: Seq<usize>, b: Seq<usize>, c: Seq<usize>)
    requires
        seq_lex_lt(a, b),
        seq_lex_lt(b, c),
    ensures
        seq_lex_lt(a, c),
{
    let i = choose|i: int|
        0 <= i < a.len() && i < b.len() && #[trigger] a.take(i) == b.take(i) && a[i] < b[i];
    let j = choose|j: int|
        0 <= j < b.len() && j < c.len() && #[trigger] b.take(j) == c.take(j) && b[j] < c[j];
    if i < j {
        assert(b.take(j)[i] == c.take(j)[i]);
        assert(a.take(i) =~= b.take(i));
        assert(b.take(i) =~= b.take(j).take(i));
        assert(c.take(i) =~= c.take(j).take(i));
        assert(a.take(i) == c.take(i) && a[i] < c[i]);
    } else if j < i {
        assert(a.take(i)[j] == b.take(i)[j]);
        assert(a.take(j) =~= a.take(i).take(j));
        assert(b.take(j) =~= b.take(i).take(j));
        assert(a.take(j) == c.take(j) && a[j] < c[j]);
    } else {
        assert(a.take(i) == c.take(i) && a[i] < c[i]);
    }
}

/// `ts` is in strictly increasing lexicographic order.
pub open spec fn lex_sorted(ts: Seq<Seq<usize>>) -> bool {
    forall|a: int, b: int| 0 <= a < b < ts.len() ==> seq_lex_lt(ts[a], ts[b])
}

/// A nonempty finite set of sequences of one length has a smallest one.
proof fn lemma_lex_min(s: Set<Seq<usize>>, n: nat) -> (x: Seq<usize>)
    requires
        s.finite(),
        s.len() > 0,
        forall|q: Seq<usize>| #[trigger] s.contains(q) ==> q.len() == n,
    ensures
        s.contains(x),
        forall|y: Seq<usize>| #[trigger] s.contains(y) && y != x ==> seq_lex_lt(x, y),
    decreases s.len(),
{
    let e = s.choose();
    let rest = s.remove(e);
    if rest.len() == 0 {
        assert forall|y: Seq<usize>| #[trigger] s.contains(y) && y != e implies seq_lex_lt(e, y) by {
            assert(rest.contains(y));
        }
        e
    } else {
        let x1 = lemma_lex_min(rest, n);
        lemma_lex_total(e, x1);
        if seq_lex_lt(e, x1) {
            assert forall|y: Seq<usize>| #[trigger] s.contains(y) && y != e implies seq_lex_lt(e, y) by {
                assert(rest.contains(y));
                if y != x1 {
                    lemma_lex_trans(e, x1, y);
                }
            }
            e
        } else {
            assert forall|y: Seq<usize>| #[trigger] s.contains(y) && y != x1 implies seq_lex_lt(x1, y) by {
                if y != e {
                    assert(rest.contains(y));
                }
            }
            x1
        }
    }
}

/// A finite set of sequences of one length can be listed in increasing
/// lexicographic order.
pub proof fn lemma_lex_listing(s: Set<Seq<usize>>, n: nat) -> (ts: Seq<Seq<usize>>)
    requires
        s.finite(),
        forall|q: Seq<usize>| #[trigger] s.contains(q) ==> q.len() == n,
    ensures
        lex_sorted(ts),
        forall|q: Seq<usize>| #[trigger] ts.contains(q) <==> s.contains(q),
    decreases s.len(),
{
    if s.len() == 0 {
        assert forall|q: Seq<usize>| #[trigger] Seq::<Seq<usize>>::empty().contains(q) <==> s.contains(q) by {
            if s.contains(q) {
                assert(s.remove(q).len() < s.len());
            }
        }
        Seq::empty()
    } else {
        let x = lemma_lex_min(s, n);
        let rest = lemma_lex_listing(s.remove(x), n);
        let ts = seq![x] + rest;
        assert forall|a: int, b: int| 0 <= a < b < ts.len() implies seq_lex_lt(ts[a], ts[b]) by {
            if a == 0 {
                assert(ts[b] == rest[b - 1]);
                assert(rest.contains(rest[b - 1]));
            } else {
                assert(ts[a] == rest[a - 1] && ts[b] == rest[b - 1]);
            }
        }
        assert forall|q: Seq<usize>| #[trigger] ts.contains(q) <==> s.contains(q) by {
            if ts.contains(q) {
                let k = choose|k: int| 0 <= k < ts.len() && ts[k] == q;
                if k > 0 {
                    assert(rest[k - 1] == q);
                    assert(rest.contains(q));
                }
            }
            if s.contains(q) && q != x {
                assert(rest.contains(q));
                let k = choose|k: int| 0 <= k < rest.len() && rest[k] == q;
                assert(ts[k + 1] == q);
            }
            if q == x {
                assert(ts[0] == q);
            }
        }
        ts
    }
}

/// In a lexicographically sorted listing, a smaller entry comes earlier.
pub proof fn lemma_lex_index_order(ts: Seq<Seq<usize>>, a: int, b: int)
    requires
        lex_sorted(ts),
        0 <= a < ts.len(),
        0 <= b < ts.len(),
        seq_lex_lt(ts[a], ts[b]),
    ensures
        a < b,
{
    if b < a {
        lemma_lex_asymmetric(ts[b], ts[a]);
    } else if a == b {
        lemma_lex_asymmetric(ts[a], ts[a]);
    }
}

} // verus!
