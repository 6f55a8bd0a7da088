//! Boundary matrices of the clique complex, and the rank of a matrix over
//! the field of integers modulo the prime `MODULUS`.

use vstd::arithmetic::div_mod::{lemma_fundamental_div_mod, lemma_mod_multiples_basic, lemma_small_mod};
use vstd::prelude::*;

use crate::modular::{
    congruent, lemma_congruent_comb, lemma_congruent_symm, lemma_congruent_trans, lemma_inverse,
    lemma_multiple_comb, lemma_product_nonzero, MODULUS,
};

verus! {

/// Every entry is a residue modulo `MODULUS`.
pub open spec fn reduced(v: Seq<u64>) -> bool {
    forall|i: int| 0 <= i < v.len() ==> #[trigger] v[i] < MODULUS
}

/// The sum over `k <= d` of (-1)^k times `b[k]`.
pub open spec fn alternating_betti_sum(b: Seq<usize>, d: nat) -> int
    decreases d,
{
    let term = if d % 2 == 0 {
        b[d as int] as int
    } else {
        -(b[d as int] as int)
    };
    if d == 0 {
        term
    } else {
        alternating_betti_sum(b, (d - 1) as nat) + term
    }
}

/// The alternating sum up to `d` reads only the entries up to `d`.
pub proof fn lemma_alternating_prefix(b: Seq<usize>, c: Seq<usize>, d: nat)
    requires
        d < b.len(),
        d < c.len(),
        forall|j: int| 0 <= j <= d ==> b[j] == c[j],
    ensures
        alternating_betti_sum(b, d) == alternating_betti_sum(c, d),
    decreases d,
{
    if d > 0 {
        lemma_alternating_prefix(b, c, (d - 1) as nat);
    }
}

/// `v` with the entry at `i` removed.
pub fn remove_at(v: &Vec<usize>, i: usize) -> (r: Vec<usize>)
    requires
        i < v@.len(),
    ensures
        r@ == v@.remove(i as int),
{
    let n = v.len();
    let mut r: Vec<usize> = Vec::new();
    for j in 0..i
        invariant
            n == v@.len(),
            i < n,
            r@ == v@.subrange(0, j as int),
    {
        r.push(v[j]);
        assert(r@ =~= v@.subrange(0, j + 1));
    }
    for j in (i + 1)..n
        invariant
            n == v@.len(),
            i < n,
            r@ == v@.subrange(0, i as int) + v@.subrange(i + 1, j as int),
    {
        r.push(v[j]);
        assert(r@ =~= v@.subrange(0, i as int) + v@.subrange(i + 1, j + 1));
    }
    assert(r@ =~= v@.remove(i as int));
    r
}

/// The index in `list` of a vector equal to `q`, if there is one.
pub fn position_of(list: &Vec<Vec<usize>>, q: &Vec<usize>) -> (r: Option<usize>)
    ensures
        match r {
            Some(a) => a < list@.len() && list@[a as int]@ == q@,
            None => forall|a: int| 0 <= a < list@.len() ==> #[trigger] list@[a]@ != q@,
        },
{
    let n = list.len();
    for i in 0..n
        invariant
            n == list@.len(),
            forall|j: int| 0 <= j < i ==> #[trigger] list@[j]@ != q@,
    {
        if crate::sorted::same_seq(&list[i], q) {
            return Some(i);
        }
    }
    None
}

/// `face` is `simplex` with the vertex at one position removed.
pub open spec fn is_face_of(face: Seq<usize>, simplex: Seq<usize>) -> bool {
    exists|i: int| 0 <= i < simplex.len() && #[trigger] simplex.remove(i) == face
}

/// The position of the vertex of `simplex` whose removal leaves `face`.
pub open spec fn face_position(simplex: Seq<usize>, face: Seq<usize>) -> int {
    choose|i: int| 0 <= i < simplex.len() && #[trigger] simplex.remove(i) == face
}

/// (-1)^i modulo `MODULUS`.
pub open spec fn sign_of(i: int) -> u64 {
    if i % 2 == 0 {
        1
    } else {
        (MODULUS - 1) as u64
    }
}

/// The entry of the boundary map in the row of `face` and the column of
/// `simplex`: (-1)^i when `face` leaves out the vertex at position `i`,
/// and 0 when it is not a face.
pub open spec fn boundary_entry(face: Seq<usize>, simplex: Seq<usize>) -> u64 {
    if is_face_of(face, simplex) {
        sign_of(face_position(simplex, face))
    } else {
        0
    }
}

/// The boundary map from the simplices listed in `upper` to those listed in
/// `lower`, as its columns.
pub open spec fn boundary_matrix(lower: Seq<Seq<usize>>, upper: Seq<Seq<usize>>) -> Seq<Seq<u64>> {
    Seq::new(
        upper.len(),
        |c: int| Seq::new(lower.len(), |r: int| boundary_entry(lower[r], upper[c])),
    )
}

/// Removing two different positions of a strictly increasing sequence
/// leaves two different sequences.
pub proof fn lemma_remove_unique(s: Seq<usize>, a: int, b: int)
    requires
        crate::sorted::strictly_increasing(s),
        0 <= a < s.len(),
        0 <= b < s.len(),
        s.remove(a) == s.remove(b),
    ensures
        a == b,
{
    if a < b {
        assert(s.remove(a)[a] == s[a + 1]);
        assert(s.remove(b)[a] == s[a]);
    } else if b < a {
        assert(s.remove(b)[b] == s[b + 1]);
        assert(s.remove(a)[b] == s[b]);
    }
}

/// Some position below `i` of `simplex` leaves `face`.
spec fn face_before(simplex: Seq<usize>, face: Seq<usize>, i: int) -> bool {
    exists|j: int| 0 <= j < i && #[trigger] simplex.remove(j) == face
}

/// The boundary map from the simplices listed in `upper` to those listed in
/// `lower`, column by column.
pub fn boundary_columns(lower: &Vec<Vec<usize>>, upper: &Vec<Vec<usize>>) -> (cols: Vec<Vec<u64>>)
    requires
        forall|a: int, b: int| 0 <= a < b < lower@.len() ==> lower@[a]@ != lower@[b]@,
        forall|c: int| 0 <= c < upper@.len() ==> crate::sorted::strictly_increasing(#[trigger] upper@[c]@),
    ensures
        cols.deep_view() == boundary_matrix(lower.deep_view(), upper.deep_view()),
        cols@.len() == upper@.len(),
        forall|c: int|
            0 <= c < cols@.len() ==> (#[trigger] cols@[c])@.len() == lower@.len() && reduced(
                cols@[c]@,
            ),
{
    let ghost lv = lower.deep_view();
    let ghost uv = upper.deep_view();
    let rows = lower.len();
    let mut cols: Vec<Vec<u64>> = Vec::new();
    for c in 0..upper.len()
        invariant
            rows == lower@.len(),
            lv == lower.deep_view(),
            uv == upper.deep_view(),
            forall|a: int, b: int| 0 <= a < b < lower@.len() ==> lower@[a]@ != lower@[b]@,
            forall|c2: int| 0 <= c2 < upper@.len() ==> crate::sorted::strictly_increasing(#[trigger] upper@[c2]@),
            cols@.len() == c,
            forall|b: int|
                0 <= b < cols@.len() ==> (#[trigger] cols@[b])@.len() == rows && reduced(
                    cols@[b]@,
                ) && cols@[b]@ == boundary_matrix(lv, uv)[b],
    {
        let simplex = &upper[c];
        let ghost sv = simplex@;
        let mut col: Vec<u64> = Vec::new();
        for r in 0..rows
            invariant
                col@.len() == r,
                forall|x: int| 0 <= x < r ==> #[trigger] col@[x] == 0,
        {
            col.push(0);
        }
        for i in 0..simplex.len()
            invariant
                rows == lower@.len(),
                sv == simplex@,
                crate::sorted::strictly_increasing(sv),
                forall|a: int, b: int| 0 <= a < b < lower@.len() ==> lower@[a]@ != lower@[b]@,
                col@.len() == rows,
                forall|r: int|
                    0 <= r < rows ==> #[trigger] col@[r] == if face_before(sv, lower@[r]@, i as int) {
                        sign_of(face_position(sv, lower@[r]@))
                    } else {
                        0u64
                    },
        {
            let face = remove_at(simplex, i);
            let found = position_of(lower, &face);
            let ghost c0 = col@;
            match found {
                Some(row) => {
                    let sign: u64 = if i % 2 == 0 {
                        1
                    } else {
                        MODULUS - 1
                    };
                    col.set(row, sign);
                },
                None => {},
            }
            proof {
                assert forall|r: int| 0 <= r < rows implies #[trigger] col@[r] == if face_before(
                    sv,
                    lower@[r]@,
                    i + 1,
                ) {
                    sign_of(face_position(sv, lower@[r]@))
                } else {
                    0u64
                } by {
                    let f = lower@[r]@;
                    if f == face@ {
                        assert(sv.remove(i as int) == f);
                        assert(face_before(sv, f, i + 1));
                        let q = face_position(sv, f);
                        assert(0 <= q < sv.len() && sv.remove(q) == f);
                        lemma_remove_unique(sv, q, i as int);
                        match found {
                            Some(row) => {
                                if r != row {
                                    if r < row {
                                        assert(lower@[r]@ != lower@[row as int]@);
                                    } else {
                                        assert(lower@[row as int]@ != lower@[r]@);
                                    }
                                }
                            },
                            None => {
                                assert(lower@[r]@ != face@);
                            },
                        }
                    } else {
                        assert(face_before(sv, f, i + 1) == face_before(sv, f, i as int)) by {
                            if face_before(sv, f, i + 1) {
                                let j = choose|j: int| 0 <= j < i + 1 && #[trigger] sv.remove(j) == f;
                                assert(j != i);
                            }
                        }
                        match found {
                            Some(row) => {
                                assert(r != row);
                            },
                            None => {},
                        }
                        assert(col@[r] == c0[r]);
                    }
                }
            }
        }
        proof {
            assert forall|r: int| 0 <= r < rows implies #[trigger] col@[r] == boundary_matrix(lv, uv)[c as int][r] by {
                assert(lv[r] == lower@[r]@);
                assert(uv[c as int] == sv);
                let f = lower@[r]@;
                assert(face_before(sv, f, sv.len() as int) == is_face_of(f, sv)) by {
                    if is_face_of(f, sv) {
                        let j = choose|j: int| 0 <= j < sv.len() && #[trigger] sv.remove(j) == f;
                        assert(face_before(sv, f, sv.len() as int));
                    }
                }
            }
            assert forall|r: int| 0 <= r < rows implies #[trigger] col@[r] < MODULUS by {
                assert(col@[r] == boundary_matrix(lv, uv)[c as int][r]);
            }
            assert(col@ =~= boundary_matrix(lv, uv)[c as int]);
        }
        cols.push(col);
    }
    proof {
        let d = cols.deep_view();
        assert(uv.len() == upper@.len());
        assert(d.len() == boundary_matrix(lv, uv).len());
        assert forall|b: int| 0 <= b < d.len() implies #[trigger] d[b] == boundary_matrix(lv, uv)[b] by {
            assert(d[b] == cols@[b]@);
        }
        assert(d =~= boundary_matrix(lv, uv));
    }
    cols
}

/// The combination sum over `j < n` of `coef(j) * cols[j][i]`, in the
/// integers.
pub open spec fn comb(cols: Seq<Seq<u64>>, coef: spec_fn(int) -> int, n: int, i: int) -> int
    decreases n,
{
    if n <= 0 {
        0
    } else {
        comb(cols, coef, n - 1, i) + coef(n - 1) * cols[n - 1][i]
    }
}

/// `coef` combines the first `n` columns of `cols` into `v`, of `len`
/// entries, modulo `MODULUS`.
pub open spec fn combines_to(
    cols: Seq<Seq<u64>>,
    coef: spec_fn(int) -> int,
    n: int,
    v: Seq<u64>,
    len: int,
) -> bool {
    forall|i: int| 0 <= i < len ==> #[trigger] congruent(comb(cols, coef, n, i), v[i] as int)
}

/// `v`, of `len` entries, is a linear combination of the first `n` columns
/// of `cols`, modulo `MODULUS`.
pub open spec fn in_span(cols: Seq<Seq<u64>>, n: int, v: Seq<u64>, len: int) -> bool {
    exists|coef: spec_fn(int) -> int| #[trigger] combines_to(cols, coef, n, v, len)
}

/// A copy of `v`.
fn copy_column(v: &Vec<u64>) -> (w: Vec<u64>)
    ensures
        w@ == v@,
{
    let mut w: Vec<u64> = Vec::new();
    for j in 0..v.len()
        invariant
            w@ == v@.take(j as int),
    {
        w.push(v[j]);
        assert(w@ =~= v@.take(j + 1));
    }
    assert(w@ =~= v@);
    w
}

/// The rank modulo `MODULUS` of the first `n` columns of `cols`, each of
/// `len` entries: the number of columns that are not linear combinations
/// of the columns before them.
pub open spec fn rank_mod(cols: Seq<Seq<u64>>, n: int, len: int) -> nat
    decreases n,
{
    if n <= 0 {
        0
    } else {
        rank_mod(cols, n - 1, len) + if in_span(cols, n - 1, cols[n - 1], len) {
            0nat
        } else {
            1nat
        }
    }
}

/// The rank is at most the number of columns.
pub proof fn lemma_rank_bound(cols: Seq<Seq<u64>>, n: int, len: int)
    requires
        n >= 0,
    ensures
        rank_mod(cols, n, len) <= n,
    decreases n,
{
    if n > 0 {
        lemma_rank_bound(cols, n - 1, len);
    }
}

/// The coefficients of the composed combination: sum over `j < m` of
/// `beta(j) * inner[j](k)`.
pub open spec fn compose_at(inner: Seq<spec_fn(int) -> int>, beta: spec_fn(int) -> int, m: int, k: int) -> int
    decreases m,
{
    if m <= 0 {
        0
    } else {
        compose_at(inner, beta, m - 1, k) + beta(m - 1) * inner[m - 1](k)
    }
}

/// Combinations are linear in their coefficients.
proof fn lemma_comb_lin(
    s: Seq<Seq<u64>>,
    f: spec_fn(int) -> int,
    g: spec_fn(int) -> int,
    h: spec_fn(int) -> int,
    a: int,
    b: int,
    n: int,
    i: int,
)
    requires
        forall|k: int| #[trigger] h(k) == a * f(k) + b * g(k),
    ensures
        comb(s, h, n, i) == a * comb(s, f, n, i) + b * comb(s, g, n, i),
    decreases n,
{
    if n > 0 {
        lemma_comb_lin(s, f, g, h, a, b, n - 1, i);
        let x = s[n - 1][i] as int;
        let fk = f(n - 1);
        let gk = g(n - 1);
        assert(h(n - 1) == a * fk + b * gk);
        assert((a * fk + b * gk) * x == a * (fk * x) + b * (gk * x)) by (nonlinear_arith);
        assert(a * comb(s, f, n - 1, i) + a * (fk * x) == a * (comb(s, f, n - 1, i) + fk * x))
            by (nonlinear_arith);
        assert(b * comb(s, g, n - 1, i) + b * (gk * x) == b * (comb(s, g, n - 1, i) + gk * x))
            by (nonlinear_arith);
    }
}

/// A combination with zero coefficients is 0; one with a single
/// coefficient 1 at `e < n` is column `e`.
proof fn lemma_comb_unit(s: Seq<Seq<u64>>, h: spec_fn(int) -> int, e: int, n: int, i: int)
    requires
        forall|k: int| #[trigger] h(k) == if k == e { 1int } else { 0int },
    ensures
        0 <= e < n ==> comb(s, h, n, i) == s[e][i],
        !(0 <= e < n) ==> comb(s, h, n, i) == 0,
    decreases n,
{
    if n > 0 {
        lemma_comb_unit(s, h, e, n - 1, i);
    }
}

/// A combination reads only the first `n` coefficients and columns.
proof fn lemma_comb_ext(
    s: Seq<Seq<u64>>,
    t: Seq<Seq<u64>>,
    f: spec_fn(int) -> int,
    g: spec_fn(int) -> int,
    n: int,
    i: int,
)
    requires
        forall|j: int| 0 <= j < n ==> #[trigger] f(j) == g(j),
        forall|j: int| 0 <= j < n ==> #[trigger] s[j][i] == t[j][i],
    ensures
        comb(s, f, n, i) == comb(t, g, n, i),
    decreases n,
{
    if n > 0 {
        lemma_comb_ext(s, t, f, g, n - 1, i);
        assert(f(n - 1) == g(n - 1));
        assert(s[n - 1][i] == t[n - 1][i]);
    }
}

/// The composed coefficients vanish where all inner coefficients do.
proof fn lemma_compose_zero(inner: Seq<spec_fn(int) -> int>, beta: spec_fn(int) -> int, m: int, k: int)
    requires
        forall|j: int| 0 <= j < m ==> #[trigger] inner[j](k) == 0,
    ensures
        compose_at(inner, beta, m, k) == 0,
    decreases m,
{
    if m > 0 {
        lemma_compose_zero(inner, beta, m - 1, k);
        assert(inner[m - 1](k) == 0);
    }
}

/// A combination of columns that are themselves combinations of `t` is a
/// combination of `t`, with the composed coefficients.
proof fn lemma_comb_compose(
    s: Seq<Seq<u64>>,
    t: Seq<Seq<u64>>,
    inner: Seq<spec_fn(int) -> int>,
    beta: spec_fn(int) -> int,
    m: int,
    c: int,
    i: int,
)
    requires
        forall|j: int| 0 <= j < m ==> #[trigger] congruent(s[j][i] as int, comb(t, inner[j], c, i)),
    ensures
        congruent(comb(s, beta, m, i), comb(t, |k: int| compose_at(inner, beta, m, k), c, i)),
    decreases m,
{
    let h = |k: int| compose_at(inner, beta, m, k);
    if m <= 0 {
        let z = |k: int| if k == -1 { 1int } else { 0int };
        lemma_comb_unit(t, z, -1, c, i);
        lemma_comb_ext(t, t, h, z, c, i);
        crate::modular::lemma_congruent_refl(0);
    } else {
        let h1 = |k: int| compose_at(inner, beta, m - 1, k);
        lemma_comb_compose(s, t, inner, beta, m - 1, c, i);
        let b = beta(m - 1);
        assert(congruent(s[m - 1][i] as int, comb(t, inner[m - 1], c, i)));
        lemma_congruent_comb(1, comb(s, beta, m - 1, i), comb(t, h1, c, i), b, s[m - 1][i] as int, comb(
            t,
            inner[m - 1],
            c,
            i,
        ));
        lemma_comb_lin(t, h1, inner[m - 1], h, 1, b, c, i);
        assert(b * (s[m - 1][i] as int) == beta(m - 1) * s[m - 1][i]);
    }
}

/// A combination whose coefficients are all multiples of `MODULUS` is one.
proof fn lemma_comb_multiple(s: Seq<Seq<u64>>, f: spec_fn(int) -> int, n: int, i: int)
    requires
        forall|j: int| 0 <= j < n ==> #[trigger] f(j) % (MODULUS as int) == 0,
    ensures
        congruent(comb(s, f, n, i), 0),
    decreases n,
{
    if n > 0 {
        lemma_comb_multiple(s, f, n - 1, i);
        assert(f(n - 1) % (MODULUS as int) == 0);
        lemma_multiple_comb(1, comb(s, f, n - 1, i), s[n - 1][i] as int, f(n - 1));
        assert((s[n - 1][i] as int) * f(n - 1) == f(n - 1) * s[n - 1][i]) by (nonlinear_arith);
    }
}

/// When every term but the `j`-th is a multiple of `MODULUS`, the
/// combination is congruent to that term.
proof fn lemma_comb_single(s: Seq<Seq<u64>>, f: spec_fn(int) -> int, n: int, idx: int, j: int)
    requires
        0 <= j < n,
        forall|k: int| 0 <= k < n && k != j ==> #[trigger] congruent(f(k) * s[k][idx], 0),
    ensures
        congruent(comb(s, f, n, idx), f(j) * s[j][idx]),
    decreases n,
{
    let last = f(n - 1) * s[n - 1][idx];
    let rest = comb(s, f, n - 1, idx);
    assert(comb(s, f, n, idx) == rest + last);
    let t = f(j) * s[j][idx];
    if n - 1 == j {
        lemma_comb_multiple_terms(s, f, n - 1, idx);
        crate::modular::lemma_congruent_refl(t);
        lemma_congruent_comb(1, rest, 0, 1, last, t);
        assert(1 * rest + 1 * last == rest + last);
        assert(1 * 0 + 1 * t == t);
    } else {
        lemma_comb_single(s, f, n - 1, idx, j);
        assert(congruent(last, 0));
        lemma_congruent_comb(1, rest, t, 1, last, 0);
        assert(1 * rest + 1 * last == rest + last);
        assert(1 * t + 1 * 0 == t);
    }
}

/// When every term is a multiple of `MODULUS`, so is the combination.
proof fn lemma_comb_multiple_terms(s: Seq<Seq<u64>>, f: spec_fn(int) -> int, n: int, idx: int)
    requires
        forall|k: int| 0 <= k < n ==> #[trigger] congruent(f(k) * s[k][idx], 0),
    ensures
        congruent(comb(s, f, n, idx), 0),
    decreases n,
{
    if n <= 0 {
        crate::modular::lemma_congruent_refl(0);
    } else {
        lemma_comb_multiple_terms(s, f, n - 1, idx);
        assert(congruent(f(n - 1) * s[n - 1][idx], 0));
        lemma_congruent_comb(1, comb(s, f, n - 1, idx), 0, 1, f(n - 1) * s[n - 1][idx], 0);
    }
}

/// Columns in echelon form (each nonzero at its pivot, every later column
/// zero at it) are independent: a combination that vanishes at all pivots
/// has all its coefficients multiples of `MODULUS`.
proof fn lemma_echelon(s: Seq<Seq<u64>>, pivots: Seq<usize>, f: spec_fn(int) -> int, m: int, t: int)
    requires
        0 <= t <= m,
        pivots.len() >= m,
        forall|j: int| 0 <= j < m ==> 0 < #[trigger] s[j][pivots[j] as int] < MODULUS,
        forall|j: int, l: int| 0 <= j < l < m ==> #[trigger] s[l][pivots[j] as int] == 0,
        forall|j: int| 0 <= j < m ==> #[trigger] congruent(comb(s, f, m, pivots[j] as int), 0),
    ensures
        forall|j: int| 0 <= j < t ==> #[trigger] f(j) % (MODULUS as int) == 0,
    decreases t,
{
    if t > 0 {
        lemma_echelon(s, pivots, f, m, t - 1);
        let j = t - 1;
        let idx = pivots[j] as int;
        assert forall|k: int| 0 <= k < m && k != j implies #[trigger] congruent(f(k) * s[k][idx], 0) by {
            if k < j {
                assert(f(k) % (MODULUS as int) == 0);
                lemma_multiple_comb(s[k][idx] as int, f(k), 0, 0);
                assert((s[k][idx] as int) * f(k) + 0 * 0 == f(k) * s[k][idx] - 0) by (nonlinear_arith);
            } else {
                assert(s[k][idx] == 0);
                assert(f(k) * s[k][idx] - 0 == 0) by (nonlinear_arith)
                    requires
                        s[k][idx] == 0,
                ;
            }
        }
        lemma_comb_single(s, f, m, idx, j);
        assert(congruent(comb(s, f, m, idx), 0));
        lemma_congruent_symm(comb(s, f, m, idx), f(j) * s[j][idx]);
        lemma_congruent_trans(f(j) * s[j][idx], comb(s, f, m, idx), 0);
        let x = s[j][idx] as int;
        lemma_small_mod(x as nat, MODULUS as nat);
        if f(j) % (MODULUS as int) != 0 {
            lemma_product_nonzero(f(j), x);
        }
    }
}

/// The entry `(a * x + (MODULUS - c) * y) % MODULUS` of an elimination step.
proof fn lemma_update_entry(a: int, c: int, x: int, y: int)
    requires
        0 <= a < MODULUS,
        0 <= c < MODULUS,
        0 <= x < MODULUS,
        0 <= y < MODULUS,
    ensures
        congruent((a * x + (MODULUS - c) * y) % (MODULUS as int), a * x - c * y),
        y == a && x == c ==> (a * x + (MODULUS - c) * y) % (MODULUS as int) == 0,
        x == 0 && y == 0 ==> (a * x + (MODULUS - c) * y) % (MODULUS as int) == 0,
{
    let p = MODULUS as int;
    let big = a * x + (p - c) * y;
    lemma_fundamental_div_mod(big, p);
    let q = big / p;
    assert(big % p - (a * x - c * y) == (y - q) * p) by (nonlinear_arith)
        requires
            big == p * q + big % p,
            big == a * x + (p - c) * y,
    ;
    lemma_mod_multiples_basic(y - q, p);
    if y == a && x == c {
        assert(big == a * p) by (nonlinear_arith)
            requires
                big == a * x + (p - c) * y,
                y == a,
                x == c,
        ;
        lemma_mod_multiples_basic(a, p);
    }
    if x == 0 && y == 0 {
        assert(big == 0) by (nonlinear_arith)
            requires
                big == a * x + (p - c) * y,
                x == 0,
                y == 0,
        ;
    }
}

/// Replaces `v` by `b[p] * v - v[p] * b` modulo `MODULUS`, which clears the
/// entry at `p` and keeps every entry where both are zero.
fn eliminate(v: &mut Vec<u64>, b: &Vec<u64>, p: usize)
    requires
        old(v)@.len() == b@.len(),
        p < b@.len(),
        reduced(old(v)@),
        reduced(b@),
    ensures
        final(v)@.len() == old(v)@.len(),
        reduced(final(v)@),
        final(v)@[p as int] == 0,
        forall|i: int|
            0 <= i < b@.len() ==> #[trigger] congruent(
                final(v)@[i] as int,
                b@[p as int] * old(v)@[i] - old(v)@[p as int] * b@[i],
            ),
        forall|i: int|
            0 <= i < b@.len() && old(v)@[i] == 0 && b@[i] == 0 ==> #[trigger] final(v)@[i] == 0,
{
    let ghost v0 = v@;
    let a = b[p];
    let c = v[p];
    let n = v.len();
    for j in 0..n
        invariant
            n == v@.len(),
            n == b@.len(),
            n == v0.len(),
            p < n,
            reduced(v@),
            reduced(b@),
            reduced(v0),
            a == b@[p as int],
            c == v0[p as int],
            forall|i: int| j <= i < n ==> #[trigger] v@[i] == v0[i],
            forall|i: int|
                0 <= i < j ==> #[trigger] congruent(v@[i] as int, a * v0[i] - c * b@[i]),
            forall|i: int| 0 <= i < j && v0[i] == 0 && b@[i] == 0 ==> #[trigger] v@[i] == 0,
            p < j ==> v@[p as int] == 0,
    {
        let x = v[j];
        let y = b[j];
        let d = MODULUS - c;
        assert(a * x < 65521 * 65521) by (nonlinear_arith)
            requires
                a < 65521,
                x < 65521,
        ;
        assert(d * y <= 65521 * 65521) by (nonlinear_arith)
            requires
                d <= 65521,
                y < 65521,
        ;
        proof {
            lemma_update_entry(a as int, c as int, x as int, y as int);
        }
        let t = (a * x + d * y) % MODULUS;
        v.set(j, t);
    }
}

/// The index of the first nonzero entry of `v`, if any.
fn first_nonzero(v: &Vec<u64>) -> (r: Option<usize>)
    ensures
        match r {
            Some(i) => i < v@.len() && v@[i as int] != 0,
            None => forall|i: int| 0 <= i < v@.len() ==> #[trigger] v@[i] == 0,
        },
{
    let n = v.len();
    for i in 0..n
        invariant
            n == v@.len(),
            forall|j: int| 0 <= j < i ==> #[trigger] v@[j] == 0,
    {
        if v[i] != 0 {
            return Some(i);
        }
    }
    None
}


/// A combination with all coefficients zero is 0.
proof fn lemma_comb_zero(s: Seq<Seq<u64>>, f: spec_fn(int) -> int, n: int, i: int)
    requires
        forall|k: int| 0 <= k < n ==> #[trigger] f(k) == 0,
    ensures
        comb(s, f, n, i) == 0,
    decreases n,
{
    if n > 0 {
        lemma_comb_zero(s, f, n - 1, i);
        assert(f(n - 1) == 0);
    }
}

/// Appending a column with coefficient 0 leaves a combination unchanged.
proof fn lemma_comb_extend(s: Seq<Seq<u64>>, t: Seq<Seq<u64>>, f: spec_fn(int) -> int, n: int, i: int)
    requires
        0 <= n,
        n < t.len(),
        forall|j: int| 0 <= j < n ==> #[trigger] t[j] == s[j],
        f(n) == 0,
    ensures
        comb(t, f, n + 1, i) == comb(s, f, n, i),
{
    lemma_comb_ext(s, t, f, f, n, i);
    assert(comb(t, f, n + 1, i) == comb(t, f, n, i) + f(n) * t[n][i]);
    assert(f(n) * t[n][i] == 0) by (nonlinear_arith)
        requires
            f(n) == 0,
    ;
}

/// From w ≡ alpha * v + y and an inverse x of alpha: v ≡ x * (w - y).
proof fn lemma_cancel(alpha: int, x: int, v: int, w: int, y: int)
    requires
        congruent(alpha * x, 1),
        congruent(w, alpha * v + y),
    ensures
        congruent(v, x * (w - y)),
{
    lemma_congruent_comb(x, w, alpha * v + y, -x, y, y);
    assert(x * w + (-x) * y == x * (w - y)) by (nonlinear_arith);
    assert(x * (alpha * v + y) + (-x) * y == (alpha * x) * v) by (nonlinear_arith);
    lemma_multiple_comb(v, alpha * x - 1, 0, 0);
    assert(v * (alpha * x - 1) + 0 * 0 == (alpha * x) * v - v) by (nonlinear_arith);
    lemma_congruent_symm(x * (w - y), (alpha * x) * v);
    lemma_congruent_trans(v, (alpha * x) * v, x * (w - y));
    lemma_congruent_symm((alpha * x) * v, v);
    lemma_congruent_trans(v, (alpha * x) * v, x * (w - y));
}

/// The rank modulo `MODULUS` of the matrix with the given columns, each of
/// `n` entries. Each column is reduced against the columns kept so far,
/// which are in echelon form; what is left is zero exactly when the column
/// is a combination of the columns before it, and is kept otherwise.
pub fn column_rank(cols: &Vec<Vec<u64>>, n: usize) -> (r: usize)
    requires
        forall|c: int|
            0 <= c < cols@.len() ==> (#[trigger] cols@[c])@.len() == n && reduced(cols@[c]@),
    ensures
        r == rank_mod(cols.deep_view(), cols@.len() as int, n as int),
        r <= cols@.len(),
{
    let ghost cs = cols.deep_view();
    let ncols = cols.len();
    let mut basis: Vec<Vec<u64>> = Vec::new();
    let mut pivots: Vec<usize> = Vec::new();
    let ghost mut bs: Seq<Seq<u64>> = Seq::empty();
    let ghost mut mm: Seq<spec_fn(int) -> int> = Seq::empty();
    let ghost mut nc: Seq<spec_fn(int) -> int> = Seq::empty();
    let mut c: usize = 0;
    while c < ncols
        invariant
            c <= ncols,
            ncols == cols@.len(),
            cs == cols.deep_view(),
            cs.len() == ncols,
            forall|b: int| 0 <= b < ncols ==> #[trigger] cs[b] == cols@[b]@,
            forall|b: int|
                0 <= b < cols@.len() ==> (#[trigger] cols@[b])@.len() == n && reduced(cols@[b]@),
            basis@.len() == bs.len(),
            pivots@.len() == bs.len(),
            mm.len() == bs.len(),
            nc.len() == c,
            forall|j: int| 0 <= j < bs.len() ==> (#[trigger] basis@[j])@ == bs[j],
            forall|j: int| 0 <= j < bs.len() ==> (#[trigger] bs[j]).len() == n && reduced(bs[j]),
            forall|j: int|
                0 <= j < bs.len() ==> #[trigger] pivots@[j] < n && 0 < bs[j][pivots@[j] as int],
            forall|j: int, l: int| 0 <= j < l < bs.len() ==> #[trigger] bs[l][pivots@[j] as int] == 0,
            forall|j: int, i: int|
                0 <= j < bs.len() && 0 <= i < n ==> #[trigger] congruent(
                    bs[j][i] as int,
                    comb(cs, mm[j], c as int, i),
                ),
            forall|j: int, k: int| 0 <= j < bs.len() && k >= c ==> #[trigger] mm[j](k) == 0,
            forall|k: int, i: int|
                0 <= k < c && 0 <= i < n ==> #[trigger] congruent(
                    cs[k][i] as int,
                    comb(bs, nc[k], bs.len() as int, i),
                ),
            forall|k: int, j: int| 0 <= k < c && j >= bs.len() ==> #[trigger] nc[k](j) == 0,
            bs.len() == rank_mod(cs, c as int, n as int),
        decreases ncols - c,
    {
        let mut w = copy_column(&cols[c]);
        let ghost v = cs[c as int];
        let ghost m = bs.len() as int;
        let ghost mut alpha: int = 1;
        let ghost mut beta: spec_fn(int) -> int = |k: int| 0int;
        proof {
            assert forall|i: int| 0 <= i < n implies #[trigger] congruent(
                w@[i] as int,
                alpha * v[i] + comb(bs, beta, m, i),
            ) by {
                lemma_comb_zero(bs, beta, m, i);
                crate::modular::lemma_congruent_refl(w@[i] as int);
            }
        }
        let nb = basis.len();
        let mut e: usize = 0;
        while e < nb
            invariant
                e <= nb,
                nb == m,
                m == bs.len(),
                basis@.len() == bs.len(),
                pivots@.len() == bs.len(),
                forall|j: int| 0 <= j < bs.len() ==> (#[trigger] basis@[j])@ == bs[j],
                forall|j: int| 0 <= j < bs.len() ==> (#[trigger] bs[j]).len() == n && reduced(bs[j]),
                forall|j: int|
                    0 <= j < bs.len() ==> #[trigger] pivots@[j] < n && 0 < bs[j][pivots@[j] as int],
                forall|j: int, l: int| 0 <= j < l < bs.len() ==> #[trigger] bs[l][pivots@[j] as int] == 0,
                v.len() == n,
                w@.len() == n,
                reduced(w@),
                alpha % (MODULUS as int) != 0,
                forall|i: int|
                    0 <= i < n ==> #[trigger] congruent(w@[i] as int, alpha * v[i] + comb(bs, beta, m, i)),
                forall|j: int| 0 <= j < e ==> #[trigger] w@[pivots@[j] as int] == 0,
                forall|k: int| k >= m ==> #[trigger] beta(k) == 0,
                ncols == cols@.len(),
                c < ncols,
                cs == cols.deep_view(),
                cs.len() == ncols,
                v == cs[c as int],
                mm.len() == bs.len(),
                nc.len() == c,
                forall|j: int, i: int|
                    0 <= j < bs.len() && 0 <= i < n ==> #[trigger] congruent(
                        bs[j][i] as int,
                        comb(cs, mm[j], c as int, i),
                    ),
                forall|j: int, k: int| 0 <= j < bs.len() && k >= c ==> #[trigger] mm[j](k) == 0,
                forall|k: int, i: int|
                    0 <= k < c && 0 <= i < n ==> #[trigger] congruent(
                        cs[k][i] as int,
                        comb(bs, nc[k], bs.len() as int, i),
                    ),
                forall|k: int, j: int| 0 <= k < c && j >= bs.len() ==> #[trigger] nc[k](j) == 0,
                bs.len() == rank_mod(cs, c as int, n as int),
            decreases nb - e,
        {
            let ghost w0 = w@;
            let ghost piv = pivots@[e as int] as int;
            let ghost a = bs[e as int][piv] as int;
            let ghost c0 = w0[piv] as int;
            eliminate(&mut w, &basis[e], pivots[e]);
            proof {
                let u = |k: int| if k == e as int { 1int } else { 0int };
                let b2 = |k: int| a * beta(k) + (-c0) * u(k);
                assert forall|i: int| 0 <= i < n implies #[trigger] congruent(
                    w@[i] as int,
                    (a * alpha) * v[i] + comb(bs, b2, m, i),
                ) by {
                    let bi = bs[e as int][i] as int;
                    let x = alpha * v[i] + comb(bs, beta, m, i);
                    assert(congruent(w0[i] as int, x));
                    lemma_congruent_comb(a, w0[i] as int, x, -c0, bi, bi);
                    lemma_comb_unit(bs, u, e as int, m, i);
                    lemma_comb_lin(bs, beta, u, b2, a, -c0, m, i);
                    assert(a * x + (-c0) * bi == (a * alpha) * v[i] + comb(bs, b2, m, i)) by (nonlinear_arith)
                        requires
                            x == alpha * v[i] + comb(bs, beta, m, i),
                            comb(bs, b2, m, i) == a * comb(bs, beta, m, i) + (-c0) * bi,
                    ;
                    assert(a * w0[i] + (-c0) * bi == a * w0[i] - c0 * bi) by (nonlinear_arith);
                    lemma_congruent_trans(
                        w@[i] as int,
                        a * w0[i] + (-c0) * bi,
                        (a * alpha) * v[i] + comb(bs, b2, m, i),
                    );
                }
                assert forall|j: int| 0 <= j < e + 1 implies #[trigger] w@[pivots@[j] as int] == 0 by {
                    if j < e {
                        assert(w0[pivots@[j] as int] == 0);
                        assert(bs[e as int][pivots@[j] as int] == 0);
                    }
                }
                lemma_small_mod(a as nat, MODULUS as nat);
                lemma_product_nonzero(a, alpha);
                alpha = a * alpha;
                beta = b2;
            }
            e = e + 1;
        }
        match first_nonzero(&w) {
            None => {
                proof {
                    let x = lemma_inverse(alpha);
                    let h = |k: int| compose_at(mm, beta, m, k);
                    let g = |k: int| (-x) * h(k) + 0 * h(k);
                    let nv = |j: int| (-x) * beta(j) + 0 * beta(j);
                    assert forall|i: int| 0 <= i < n implies #[trigger] congruent(
                        comb(cs, g, c as int, i),
                        v[i] as int,
                    ) && congruent(v[i] as int, comb(bs, nv, m, i)) by {
                        let bb = comb(bs, beta, m, i);
                        assert forall|j: int| 0 <= j < m implies #[trigger] congruent(
                            bs[j][i] as int,
                            comb(cs, mm[j], c as int, i),
                        ) by {}
                        lemma_comb_compose(bs, cs, mm, beta, m, c as int, i);
                        lemma_cancel(alpha, x, v[i] as int, w@[i] as int, bb);
                        assert(w@[i] == 0);
                        lemma_comb_lin(bs, beta, beta, nv, -x, 0, m, i);
                        assert(x * (0 - bb) == (-x) * bb + 0 * bb) by (nonlinear_arith);
                        lemma_congruent_comb(-x, bb, comb(cs, h, c as int, i), 0, 0, 0);
                        lemma_comb_lin(cs, h, h, g, -x, 0, c as int, i);
                        lemma_congruent_trans(v[i] as int, x * (0 - bb), comb(cs, g, c as int, i));
                        lemma_congruent_symm(v[i] as int, comb(cs, g, c as int, i));
                    }
                    assert(combines_to(cs, g, c as int, v, n as int));
                    assert(in_span(cs, c as int, cs[c as int], n as int));
                    assert forall|j: int, i: int|
                        0 <= j < bs.len() && 0 <= i < n implies #[trigger] congruent(
                        bs[j][i] as int,
                        comb(cs, mm[j], c + 1, i),
                    ) by {
                        assert(mm[j](c as int) == 0);
                        assert(comb(cs, mm[j], c + 1, i) == comb(cs, mm[j], c as int, i) + mm[j](c as int) * cs[c as int][i]);
                        assert(mm[j](c as int) * cs[c as int][i] == 0) by (nonlinear_arith)
                            requires
                                mm[j](c as int) == 0,
                        ;
                    }
                    assert forall|j: int| j >= m implies #[trigger] nv(j) == 0 by {
                        assert(beta(j) == 0);
                    }
                    let nc0 = nc;
                    nc = nc.push(nv);
                    assert forall|k: int, i: int|
                        0 <= k < c + 1 && 0 <= i < n implies #[trigger] congruent(
                        cs[k][i] as int,
                        comb(bs, nc[k], bs.len() as int, i),
                    ) by {
                        if k < c {
                            assert(nc[k] == nc0[k]);
                        } else {
                            assert(congruent(comb(cs, g, c as int, i), v[i] as int) && congruent(
                                v[i] as int,
                                comb(bs, nv, m, i),
                            ));
                        }
                    }
                }
            },
            Some(p) => {
                proof {
                    if in_span(cs, c as int, cs[c as int], n as int) {
                        let g = choose|g: spec_fn(int) -> int| #[trigger] combines_to(cs, g, c as int, v, n as int);
                        let h2 = |j: int| compose_at(nc, g, c as int, j);
                        let lam = |j: int| alpha * h2(j) + 1 * beta(j);
                        assert forall|i: int| 0 <= i < n implies #[trigger] congruent(
                            w@[i] as int,
                            comb(bs, lam, m, i),
                        ) by {
                            assert(congruent(comb(cs, g, c as int, i), v[i] as int));
                            assert forall|k: int| 0 <= k < c implies #[trigger] congruent(
                                cs[k][i] as int,
                                comb(bs, nc[k], m, i),
                            ) by {}
                            lemma_comb_compose(cs, bs, nc, g, c as int, m, i);
                            lemma_congruent_symm(comb(cs, g, c as int, i), v[i] as int);
                            lemma_congruent_trans(v[i] as int, comb(cs, g, c as int, i), comb(bs, h2, m, i));
                            let bb = comb(bs, beta, m, i);
                            lemma_congruent_comb(alpha, v[i] as int, comb(bs, h2, m, i), 1, bb, bb);
                            lemma_comb_lin(bs, h2, beta, lam, alpha, 1, m, i);
                            assert(alpha * v[i] + 1 * bb == alpha * v[i] + bb);
                            lemma_congruent_trans(w@[i] as int, alpha * v[i] + bb, comb(bs, lam, m, i));
                        }
                        assert forall|j: int| 0 <= j < m implies #[trigger] congruent(
                            comb(bs, lam, m, pivots@[j] as int),
                            0,
                        ) by {
                            let idx = pivots@[j] as int;
                            assert(basis@[j]@ == bs[j]);
                            assert(w@[idx] == 0);
                            assert(congruent(w@[idx] as int, comb(bs, lam, m, idx)));
                            lemma_congruent_symm(w@[idx] as int, comb(bs, lam, m, idx));
                        }
                        assert forall|j: int| 0 <= j < m implies 0 < #[trigger] bs[j][pivots@[j] as int] < MODULUS by {
                            assert(basis@[j]@ == bs[j]);
                            assert(reduced(bs[j]));
                        }
                        lemma_echelon(bs, pivots@, lam, m, m);
                        lemma_comb_multiple(bs, lam, m, p as int);
                        assert(congruent(w@[p as int] as int, comb(bs, lam, m, p as int)));
                        lemma_congruent_trans(w@[p as int] as int, comb(bs, lam, m, p as int), 0);
                        lemma_small_mod(w@[p as int] as nat, MODULUS as nat);
                        assert(false);
                    }
                }
                let ghost wv = w@;
                let ghost old_basis = basis@;
                basis.push(w);
                pivots.push(p);
                proof {
                    let x = lemma_inverse(alpha);
                    let bs2 = bs.push(wv);
                    let uc = |k: int| if k == c as int { 1int } else { 0int };
                    let h = |k: int| compose_at(mm, beta, m, k);
                    let newm = |k: int| alpha * uc(k) + 1 * h(k);
                    let um = |j: int| if j == m { 1int } else { 0int };
                    let newn = |j: int| x * um(j) + (-x) * beta(j);
                    assert forall|i: int| 0 <= i < n implies #[trigger] congruent(
                        wv[i] as int,
                        comb(cs, newm, c + 1, i),
                    ) && congruent(v[i] as int, comb(bs2, newn, m + 1, i)) by {
                        let bb = comb(bs, beta, m, i);
                        assert forall|j: int| 0 <= j < m implies #[trigger] congruent(
                            bs[j][i] as int,
                            comb(cs, mm[j], c as int, i),
                        ) by {}
                        lemma_comb_compose(bs, cs, mm, beta, m, c as int, i);
                        assert forall|j: int| 0 <= j < m implies #[trigger] mm[j](c as int) == 0 by {}
                        lemma_compose_zero(mm, beta, m, c as int);
                        lemma_comb_extend(cs, cs, h, c as int, i);
                        lemma_comb_unit(cs, uc, c as int, c + 1, i);
                        lemma_comb_lin(cs, uc, h, newm, alpha, 1, c + 1, i);
                        lemma_congruent_comb(1, alpha * v[i], alpha * v[i], 1, bb, comb(cs, h, c as int, i));
                        assert(1 * (alpha * v[i]) + 1 * bb == alpha * v[i] + bb);
                        lemma_congruent_trans(wv[i] as int, alpha * v[i] + bb, 1 * (alpha * v[i]) + 1 * comb(cs, h, c as int, i));
                        // The new column of the basis in terms of the old ones.
                        lemma_cancel(alpha, x, v[i] as int, wv[i] as int, bb);
                        assert forall|j: int| 0 <= j < m implies #[trigger] bs2[j] == bs[j] by {}
                        lemma_comb_extend(bs, bs2, beta, m, i);
                        lemma_comb_unit(bs2, um, m, m + 1, i);
                        lemma_comb_lin(bs2, um, beta, newn, x, -x, m + 1, i);
                        assert(x * (wv[i] - bb) == x * wv[i] + (-x) * bb) by (nonlinear_arith);
                    }
                    assert forall|k: int, i: int|
                        0 <= k < c && 0 <= i < n implies #[trigger] congruent(
                        cs[k][i] as int,
                        comb(bs2, nc[k], m + 1, i),
                    ) by {
                        assert(nc[k](m) == 0);
                        assert forall|j: int| 0 <= j < m implies #[trigger] bs2[j] == bs[j] by {}
                        lemma_comb_extend(bs, bs2, nc[k], m, i);
                    }
                    assert forall|j: int, i: int|
                        0 <= j < bs.len() && 0 <= i < n implies #[trigger] congruent(
                        bs[j][i] as int,
                        comb(cs, mm[j], c + 1, i),
                    ) by {
                        assert(mm[j](c as int) == 0);
                        lemma_comb_extend(cs, cs, mm[j], c as int, i);
                    }
                    assert forall|k: int| k >= c + 1 implies #[trigger] newm(k) == 0 by {
                        assert forall|j: int| 0 <= j < m implies #[trigger] mm[j](k) == 0 by {}
                        lemma_compose_zero(mm, beta, m, k);
                    }
                    assert forall|j: int| j >= m + 1 implies #[trigger] newn(j) == 0 by {
                        assert(beta(j) == 0);
                    }
                    lemma_small_mod(wv[p as int] as nat, MODULUS as nat);
                    assert forall|j: int| 0 <= j < m + 1 implies (#[trigger] basis@[j])@ == bs2[j] by {
                        if j < m {
                            assert(basis@[j] == old_basis[j]);
                        }
                    }
                    bs = bs2;
                    mm = mm.push(newm);
                    let nc0 = nc;
                    nc = nc.push(newn);
                    assert forall|k: int, i: int|
                        0 <= k < c + 1 && 0 <= i < n implies #[trigger] congruent(
                        cs[k][i] as int,
                        comb(bs, nc[k], bs.len() as int, i),
                    ) by {
                        if k < c {
                            assert(nc[k] == nc0[k]);
                        } else {
                            assert(congruent(wv[i] as int, comb(cs, newm, c + 1, i)));
                            assert(congruent(v[i] as int, comb(bs2, newn, m + 1, i)));
                            assert(nc[k] == newn);
                        }
                    }
                }
            },
        }
        c = c + 1;
    }
    proof {
        lemma_rank_bound(cs, ncols as int, n as int);
    }
    basis.len()
}


/// A combination with at most three nonzero coefficients, at `j1`, `j2`
/// and `j3`, is the sum of those terms that fall among the first `n`.
pub proof fn lemma_comb_three(
    s: Seq<Seq<u64>>,
    f: spec_fn(int) -> int,
    n: int,
    i: int,
    j1: int,
    j2: int,
    j3: int,
)
    requires
        0 <= j1 && 0 <= j2 && 0 <= j3,
        j1 != j2 && j1 != j3 && j2 != j3,
        forall|k: int| k != j1 && k != j2 && k != j3 ==> #[trigger] f(k) == 0,
    ensures
        comb(s, f, n, i) == (if j1 < n { f(j1) * s[j1][i] } else { 0 }) + (if j2 < n {
            f(j2) * s[j2][i]
        } else {
            0
        }) + (if j3 < n { f(j3) * s[j3][i] } else { 0 }),
    decreases n,
{
    if n > 0 {
        lemma_comb_three(s, f, n - 1, i, j1, j2, j3);
        let k = n - 1;
        if k != j1 && k != j2 && k != j3 {
            assert(f(k) == 0);
            assert(f(k) * s[k][i] == 0) by (nonlinear_arith)
                requires
                    f(k) == 0,
            ;
        }
    }
}

/// A column that is a combination of the columns before it keeps the rank
/// below the number of columns.
pub proof fn lemma_rank_drop(cols: Seq<Seq<u64>>, n: int, len: int, j: int)
    requires
        0 <= j < n,
        in_span(cols, j, cols[j], len),
    ensures
        rank_mod(cols, n, len) < n,
    decreases n,
{
    if n - 1 == j {
        lemma_rank_bound(cols, n - 1, len);
    } else {
        lemma_rank_drop(cols, n - 1, len, j);
    }
}

/// The boundary entry of an edge `e` in the column of the triangle
/// x < y < z: +1 for yz, -1 for xz, +1 for xy, 0 for any other edge.
pub proof fn lemma_triangle_entry(x: usize, y: usize, z: usize, e: Seq<usize>)
    requires
        x < y < z,
    ensures
        boundary_entry(e, seq![x, y, z]) == (if e.len() == 2 && e[0] == y && e[1] == z {
            1u64
        } else if e.len() == 2 && e[0] == x && e[1] == z {
            (MODULUS - 1) as u64
        } else if e.len() == 2 && e[0] == x && e[1] == y {
            1u64
        } else {
            0u64
        }),
{
    let t = seq![x, y, z];
    assert(t.remove(0) =~= seq![y, z]);
    assert(t.remove(1) =~= seq![x, z]);
    assert(t.remove(2) =~= seq![x, y]);
    assert(crate::sorted::strictly_increasing(t));
    if e.len() == 2 && e[0] == y && e[1] == z {
        assert(e =~= t.remove(0));
        let q = face_position(t, e);
        lemma_remove_unique(t, q, 0);
    } else if e.len() == 2 && e[0] == x && e[1] == z {
        assert(e =~= t.remove(1));
        let q = face_position(t, e);
        lemma_remove_unique(t, q, 1);
    } else if e.len() == 2 && e[0] == x && e[1] == y {
        assert(e =~= t.remove(2));
        let q = face_position(t, e);
        lemma_remove_unique(t, q, 2);
    } else {
        assert forall|i: int| 0 <= i < t.len() implies #[trigger] t.remove(i) != e by {
            if i == 0 {
                assert(t.remove(0)[0] == y && t.remove(0)[1] == z);
            } else if i == 1 {
                assert(t.remove(1)[0] == x && t.remove(1)[1] == z);
            } else {
                assert(t.remove(2)[0] == x && t.remove(2)[1] == y);
            }
        }
    }
}

} // verus!
