//! Sheaf Laplacian: generalizes graph Laplacian with sheaf-theoretic information.
//!
//! The graph Laplacian of a graph has integer entries; it is computed here
//! exactly, over `i64`.

use vstd::prelude::*;

verus! {

/// The sheaf Laplacian L_F for a cellular sheaf F.
///
/// For a 0-cochain f (assignment of vectors to vertices):
/// (L_F f)(v) = Σ_{v~w} F_{v←w}^T (F_{v←w} f(v) - F_{w←v} f(w))
///
/// This generalizes the graph Laplacian: when all stalks are R and all maps are 1,
/// it reduces to the standard graph Laplacian.
pub struct SheafLaplacian<T> {
    /// The dimension of the Laplacian matrix (n_vertices * stalk_dim).
    pub dimension: usize,
    /// The Laplacian matrix stored as a dense matrix.
    pub matrix: Vec<Vec<T>>,
}

/// What edge `e = (a, b)` adds to entry `(i, j)` of the graph Laplacian:
/// 1 at `(a, a)` and at `(b, b)`, −1 at `(a, b)` and at `(b, a)`.
pub open spec fn edge_contribution(e: (usize, usize), i: int, j: int) -> int {
    (if i == e.0 && j == e.0 {
        1int
    } else {
        0int
    }) + (if i == e.1 && j == e.1 {
        1int
    } else {
        0int
    }) - (if i == e.0 && j == e.1 {
        1int
    } else {
        0int
    }) - (if i == e.1 && j == e.0 {
        1int
    } else {
        0int
    })
}

/// Entry `(i, j)` of the graph Laplacian of `edges`: the sum of what each
/// edge adds to it.
pub open spec fn laplacian_entry(edges: Seq<(usize, usize)>, i: int, j: int) -> int
    decreases edges.len(),
{
    if edges.len() == 0 {
        0
    } else {
        laplacian_entry(edges.drop_last(), i, j) + edge_contribution(edges.last(), i, j)
    }
}

/// Every entry of the Laplacian of `edges` lies within ±2·|edges|.
pub proof fn lemma_laplacian_entry_bound(edges: Seq<(usize, usize)>, i: int, j: int)
    ensures
        -2 * edges.len() <= laplacian_entry(edges, i, j) <= 2 * edges.len(),
    decreases edges.len(),
{
    if edges.len() > 0 {
        lemma_laplacian_entry_bound(edges.drop_last(), i, j);
    }
}

/// The graph Laplacian is symmetric.
pub proof fn lemma_laplacian_symmetric(edges: Seq<(usize, usize)>, i: int, j: int)
    ensures
        laplacian_entry(edges, i, j) == laplacian_entry(edges, j, i),
    decreases edges.len(),
{
    if edges.len() > 0 {
        lemma_laplacian_symmetric(edges.drop_last(), i, j);
    }
}

/// Number of edges of `edges` with distinct ends, one of them `i`.
pub open spec fn degree(edges: Seq<(usize, usize)>, i: int) -> nat
    decreases edges.len(),
{
    if edges.len() == 0 {
        0
    } else {
        let e = edges.last();
        degree(edges.drop_last(), i) + if e.0 != e.1 && (e.0 == i || e.1 == i) {
            1nat
        } else {
            0nat
        }
    }
}

/// Number of edges of `edges` joining `i` and `j`, in either orientation.
pub open spec fn multiplicity(edges: Seq<(usize, usize)>, i: int, j: int) -> nat
    decreases edges.len(),
{
    if edges.len() == 0 {
        0
    } else {
        let e = edges.last();
        multiplicity(edges.drop_last(), i, j) + if (e.0 == i && e.1 == j) || (e.0 == j && e.1
            == i) {
            1nat
        } else {
            0nat
        }
    }
}

/// The diagonal of the graph Laplacian holds the vertex degrees (a loop adds
/// nothing), and an entry off the diagonal is minus the number of edges
/// joining its row and column.
pub proof fn lemma_laplacian_entries(edges: Seq<(usize, usize)>, i: int, j: int)
    ensures
        laplacian_entry(edges, i, i) == degree(edges, i),
        i != j ==> laplacian_entry(edges, i, j) == -multiplicity(edges, i, j),
    decreases edges.len(),
{
    if edges.len() > 0 {
        lemma_laplacian_entries(edges.drop_last(), i, j);
    }
}

/// `f(0) + f(1) + ... + f(m - 1)`.
pub open spec fn sum_to(m: nat, f: spec_fn(int) -> int) -> int
    decreases m,
{
    if m == 0 {
        0
    } else {
        sum_to((m - 1) as nat, f) + f(m - 1)
    }
}

proof fn lemma_sum_add(m: nat, f: spec_fn(int) -> int, g: spec_fn(int) -> int, h: spec_fn(int) -> int)
    requires
        forall|j: int| 0 <= j < m ==> #[trigger] h(j) == f(j) + g(j),
    ensures
        sum_to(m, h) == sum_to(m, f) + sum_to(m, g),
    decreases m,
{
    if m > 0 {
        lemma_sum_add((m - 1) as nat, f, g, h);
    }
}

proof fn lemma_sum_ext(m: nat, f: spec_fn(int) -> int, g: spec_fn(int) -> int)
    requires
        forall|j: int| 0 <= j < m ==> #[trigger] f(j) == g(j),
    ensures
        sum_to(m, f) == sum_to(m, g),
    decreases m,
{
    if m > 0 {
        lemma_sum_ext((m - 1) as nat, f, g);
    }
}

proof fn lemma_sum_scale(m: nat, c: int, f: spec_fn(int) -> int, g: spec_fn(int) -> int)
    requires
        forall|j: int| 0 <= j < m ==> #[trigger] g(j) == c * f(j),
    ensures
        sum_to(m, g) == c * sum_to(m, f),
    decreases m,
{
    if m > 0 {
        lemma_sum_scale((m - 1) as nat, c, f, g);
        assert(c * sum_to((m - 1) as nat, f) + c * f(m - 1) == c * (sum_to((m - 1) as nat, f) + f(
            m - 1,
        ))) by (nonlinear_arith);
    }
}

/// A sum that is `v` at `t` and 0 elsewhere.
proof fn lemma_sum_single(m: nat, t: int, v: int, f: spec_fn(int) -> int)
    requires
        forall|j: int| 0 <= j < m ==> #[trigger] f(j) == if j == t {
            v
        } else {
            0
        },
    ensures
        sum_to(m, f) == if 0 <= t < m {
            v
        } else {
            0
        },
    decreases m,
{
    if m > 0 {
        lemma_sum_single((m - 1) as nat, t, v, f);
    }
}

/// Sum of row `i` of the Laplacian of `edges` over the columns `0..n`.
pub open spec fn row_sum(edges: Seq<(usize, usize)>, i: int, n: nat) -> int {
    sum_to(n, |j: int| laplacian_entry(edges, i, j))
}

/// Every row of the graph Laplacian sums to zero: the all-ones vector is in
/// its kernel.
pub proof fn lemma_laplacian_row_sum_zero(edges: Seq<(usize, usize)>, i: int, n: nat)
    requires
        forall|k: int| 0 <= k < edges.len() ==> (#[trigger] edges[k]).0 < n && edges[k].1 < n,
    ensures
        row_sum(edges, i, n) == 0,
    decreases edges.len(),
{
    if edges.len() == 0 {
        lemma_sum_single(n, -1, 0, |j: int| laplacian_entry(edges, i, j));
    } else {
        let rest = edges.drop_last();
        let e = edges.last();
        assert forall|k: int| 0 <= k < rest.len() implies (#[trigger] rest[k]).0 < n && rest[k].1 < n by {
            assert(rest[k] == edges[k]);
        }
        lemma_laplacian_row_sum_zero(rest, i, n);
        let c = |j: int| edge_contribution(e, i, j);
        lemma_sum_add(
            n,
            |j: int| laplacian_entry(rest, i, j),
            c,
            |j: int| laplacian_entry(edges, i, j),
        );
        let c1 = |j: int| if j == e.0 { if i == e.0 { 1int } else { 0int } } else { 0int };
        let c2 = |j: int| if j == e.1 { if i == e.1 { 1int } else { 0int } } else { 0int };
        let c3 = |j: int| if j == e.1 { if i == e.0 { -1int } else { 0int } } else { 0int };
        let c4 = |j: int| if j == e.0 { if i == e.1 { -1int } else { 0int } } else { 0int };
        lemma_sum_single(n, e.0 as int, if i == e.0 { 1int } else { 0int }, c1);
        lemma_sum_single(n, e.1 as int, if i == e.1 { 1int } else { 0int }, c2);
        lemma_sum_single(n, e.1 as int, if i == e.0 { -1int } else { 0int }, c3);
        lemma_sum_single(n, e.0 as int, if i == e.1 { -1int } else { 0int }, c4);
        let c12 = |j: int| c1(j) + c2(j);
        let c34 = |j: int| c3(j) + c4(j);
        lemma_sum_add(n, c1, c2, c12);
        lemma_sum_add(n, c3, c4, c34);
        lemma_sum_add(n, c12, c34, c);
    }
}

/// The quadratic form `xᵀ L x` of the Laplacian of `edges`, over the
/// vertices `0..x.len()`.
pub open spec fn quadratic_form(edges: Seq<(usize, usize)>, x: Seq<int>) -> int {
    sum_to(
        x.len(),
        |i: int| sum_to(x.len(), |j: int| x[i] * laplacian_entry(edges, i, j) * x[j]),
    )
}

/// The Dirichlet energy `Σ (x[a] − x[b])²` over the edges `(a, b)`.
pub open spec fn dirichlet_energy(edges: Seq<(usize, usize)>, x: Seq<int>) -> int
    decreases edges.len(),
{
    if edges.len() == 0 {
        0
    } else {
        let e = edges.last();
        dirichlet_energy(edges.drop_last(), x) + (x[e.0 as int] - x[e.1 as int]) * (x[e.0 as int]
            - x[e.1 as int])
    }
}

proof fn lemma_dirichlet_energy_nonneg(edges: Seq<(usize, usize)>, x: Seq<int>)
    ensures
        dirichlet_energy(edges, x) >= 0,
    decreases edges.len(),
{
    if edges.len() > 0 {
        let e = edges.last();
        lemma_dirichlet_energy_nonneg(edges.drop_last(), x);
        let d = x[e.0 as int] - x[e.1 as int];
        assert(d * d >= 0) by (nonlinear_arith);
    }
}

/// Row `i` of the contribution of edge `e`, weighted by `x`:
/// `Σ_j c(e, i, j) x[j]`.
proof fn lemma_contribution_row(e: (usize, usize), i: int, x: Seq<int>)
    requires
        e.0 < x.len(),
        e.1 < x.len(),
    ensures
        sum_to(x.len(), |j: int| edge_contribution(e, i, j) * x[j]) == (if i == e.0 {
            x[e.0 as int] - x[e.1 as int]
        } else {
            0int
        }) + (if i == e.1 {
            x[e.1 as int] - x[e.0 as int]
        } else {
            0int
        }),
{
    let n = x.len();
    let a = e.0 as int;
    let b = e.1 as int;
    let c1 = |j: int| if j == a { if i == a { x[a] } else { 0int } } else { 0int };
    let c2 = |j: int| if j == b { if i == b { x[b] } else { 0int } } else { 0int };
    let c3 = |j: int| if j == b { if i == a { -x[b] } else { 0int } } else { 0int };
    let c4 = |j: int| if j == a { if i == b { -x[a] } else { 0int } } else { 0int };
    lemma_sum_single(n, a, if i == a { x[a] } else { 0int }, c1);
    lemma_sum_single(n, b, if i == b { x[b] } else { 0int }, c2);
    lemma_sum_single(n, b, if i == a { -x[b] } else { 0int }, c3);
    lemma_sum_single(n, a, if i == b { -x[a] } else { 0int }, c4);
    let c12 = |j: int| c1(j) + c2(j);
    let c34 = |j: int| c3(j) + c4(j);
    let c = |j: int| edge_contribution(e, i, j) * x[j];
    lemma_sum_add(n, c1, c2, c12);
    lemma_sum_add(n, c3, c4, c34);
    assert forall|j: int| 0 <= j < n implies #[trigger] c(j) == c12(j) + c34(j) by {
        let t = edge_contribution(e, i, j);
        assert(t * x[j] == c1(j) + c2(j) + c3(j) + c4(j)) by (nonlinear_arith)
            requires
                t == (if i == a && j == a { 1int } else { 0int }) + (if i == b && j == b {
                    1int
                } else {
                    0int
                }) - (if i == a && j == b { 1int } else { 0int }) - (if i == b && j == a {
                    1int
                } else {
                    0int
                }),
                c1(j) == (if j == a { if i == a { x[a] } else { 0int } } else { 0int }),
                c2(j) == (if j == b { if i == b { x[b] } else { 0int } } else { 0int }),
                c3(j) == (if j == b { if i == a { -x[b] } else { 0int } } else { 0int }),
                c4(j) == (if j == a { if i == b { -x[a] } else { 0int } } else { 0int }),
                j == a ==> x[j] == x[a],
                j == b ==> x[j] == x[b],
        ;
    }
    lemma_sum_add(n, c12, c34, c);
}

/// The graph Laplacian is positive semidefinite: for every integer vector
/// `x`, `xᵀ L x` equals the Dirichlet energy `Σ (x[a] − x[b])²` over the
/// edges, and so is never negative.
pub proof fn lemma_laplacian_quadratic_form(edges: Seq<(usize, usize)>, x: Seq<int>)
    requires
        forall|k: int| 0 <= k < edges.len() ==> (#[trigger] edges[k]).0 < x.len() && edges[k].1
            < x.len(),
    ensures
        quadratic_form(edges, x) == dirichlet_energy(edges, x),
        quadratic_form(edges, x) >= 0,
    decreases edges.len(),
{
    let n = x.len();
    lemma_dirichlet_energy_nonneg(edges, x);
    if edges.len() == 0 {
        let inner = |i: int| sum_to(n, |j: int| x[i] * laplacian_entry(edges, i, j) * x[j]);
        assert forall|i: int| 0 <= i < n implies #[trigger] inner(i) == 0 by {
            let f = |j: int| x[i] * laplacian_entry(edges, i, j) * x[j];
            assert forall|j: int| 0 <= j < n implies #[trigger] f(j) == 0 by {
                let xi = x[i];
                let xj = x[j];
                assert(xi * 0 * xj == 0) by (nonlinear_arith);
            }
            lemma_sum_single(n, -1, 0, f);
        }
        lemma_sum_single(n, -1, 0, inner);
    } else {
        let rest = edges.drop_last();
        let e = edges.last();
        let a = e.0 as int;
        let b = e.1 as int;
        assert forall|k: int| 0 <= k < rest.len() implies (#[trigger] rest[k]).0 < n && rest[k].1 < n by {
            assert(rest[k] == edges[k]);
        }
        lemma_laplacian_quadratic_form(rest, x);
        let old_row = |i: int| sum_to(n, |j: int| x[i] * laplacian_entry(rest, i, j) * x[j]);
        let new_row = |i: int| sum_to(n, |j: int| x[i] * laplacian_entry(edges, i, j) * x[j]);
        let add_row = |i: int| x[i] * ((if i == a { x[a] - x[b] } else { 0int }) + (if i == b {
            x[b] - x[a]
        } else {
            0int
        }));
        assert forall|i: int| 0 <= i < n implies #[trigger] new_row(i) == old_row(i) + add_row(i) by {
            let f = |j: int| x[i] * laplacian_entry(rest, i, j) * x[j];
            let g = |j: int| x[i] * (edge_contribution(e, i, j) * x[j]);
            let h = |j: int| x[i] * laplacian_entry(edges, i, j) * x[j];
            assert forall|j: int| 0 <= j < n implies #[trigger] h(j) == f(j) + g(j) by {
                let l0 = laplacian_entry(rest, i, j);
                let c = edge_contribution(e, i, j);
                assert(laplacian_entry(edges, i, j) == l0 + c);
                assert(x[i] * (l0 + c) * x[j] == x[i] * l0 * x[j] + x[i] * (c * x[j])) by (nonlinear_arith);
            }
            lemma_sum_add(n, f, g, h);
            lemma_contribution_row(e, i, x);
            lemma_sum_scale(n, x[i], |j: int| edge_contribution(e, i, j) * x[j], g);
        }
        lemma_sum_add(n, old_row, add_row, new_row);
        let r1 = |i: int| if i == a { x[a] * (x[a] - x[b]) } else { 0int };
        let r2 = |i: int| if i == b { x[b] * (x[b] - x[a]) } else { 0int };
        let r12 = |i: int| r1(i) + r2(i);
        lemma_sum_single(n, a, x[a] * (x[a] - x[b]), r1);
        lemma_sum_single(n, b, x[b] * (x[b] - x[a]), r2);
        lemma_sum_add(n, r1, r2, r12);
        assert forall|i: int| 0 <= i < n implies #[trigger] add_row(i) == r12(i) by {
            if i == a && i == b {
                assert(add_row(i) == x[i] * 0) by {}
            } else if i == a {
                assert(add_row(i) == x[a] * (x[a] - x[b]));
            } else if i == b {
                assert(add_row(i) == x[b] * (x[b] - x[a]));
            }
        }
        lemma_sum_ext(n, add_row, r12);
        let xa = x[a];
        let xb = x[b];
        assert(xa * (xa - xb) + xb * (xb - xa) == (xa - xb) * (xa - xb)) by (nonlinear_arith);
        if a == b {
            assert((xa - xb) * (xa - xb) == 0) by (nonlinear_arith) requires xa == xb;
        }
    }
}

/// Most edges a graph Laplacian is computed for: a slice of pairs of `usize`
/// never holds this many, so the bound costs no input.
pub open spec fn max_edges() -> nat {
    0x3fff_ffff_ffff_fff0
}

fn add_at(m: &mut Vec<Vec<i64>>, i: usize, j: usize, d: i64)
    requires
        i < old(m)@.len(),
        j < old(m)@[i as int]@.len(),
        i64::MIN <= old(m)@[i as int]@[j as int] + d <= i64::MAX,
    ensures
        final(m)@.len() == old(m)@.len(),
        forall|k: int| 0 <= k < old(m)@.len() && k != i ==> final(m)@[k] == old(m)@[k],
        final(m)@[i as int]@ == old(m)@[i as int]@.update(
            j as int,
            (old(m)@[i as int]@[j as int] + d) as i64,
        ),
{
    m[i][j] = m[i][j] + d;
}

fn zero_matrix(n: usize) -> (m: Vec<Vec<i64>>)
    ensures
        m@.len() == n,
        forall|i: int| 0 <= i < n ==> (#[trigger] m@[i])@.len() == n,
        forall|i: int, j: int| 0 <= i < n && 0 <= j < n ==> (#[trigger] m@[i]@[j]) == 0,
{
    let mut m: Vec<Vec<i64>> = Vec::new();
    let mut i: usize = 0;
    while i < n
        invariant
            i <= n,
            m@.len() == i,
            forall|a: int| 0 <= a < i ==> (#[trigger] m@[a])@.len() == n,
            forall|a: int, b: int| 0 <= a < i && 0 <= b < n ==> (#[trigger] m@[a]@[b]) == 0,
        decreases n - i,
    {
        let mut row: Vec<i64> = Vec::new();
        let mut j: usize = 0;
        while j < n
            invariant
                j <= n,
                row@.len() == j,
                forall|b: int| 0 <= b < j ==> (#[trigger] row@[b]) == 0,
            decreases n - j,
        {
            row.push(0);
            j = j + 1;
        }
        m.push(row);
        i = i + 1;
    }
    m
}

/// `m` is an `n`×`n` matrix whose entry `(i, j)` is that of the graph
/// Laplacian of `edges`.
pub open spec fn is_graph_laplacian(m: Seq<Vec<i64>>, n: nat, edges: Seq<(usize, usize)>) -> bool {
    &&& m.len() == n
    &&& forall|i: int| 0 <= i < n ==> (#[trigger] m[i])@.len() == n
    &&& forall|i: int, j: int|
        0 <= i < n && 0 <= j < n ==> (#[trigger] m[i]@[j]) == laplacian_entry(edges, i, j)
}

impl SheafLaplacian<i64> {
    /// Build the standard graph Laplacian (sheaf Laplacian with trivial sheaf):
    /// for each edge `(a, b)`, add 1 at `(a, a)` and `(b, b)` and subtract 1
    /// at `(a, b)` and `(b, a)`.
    pub fn graph_laplacian(n_verts: usize, edges: &[(usize, usize)]) -> (l: Self)
        requires
            forall|k: int| 0 <= k < edges@.len() ==> (#[trigger] edges@[k]).0 < n_verts && edges@[k].1 < n_verts,
            edges@.len() <= max_edges(),
        ensures
            l.dimension == n_verts,
            is_graph_laplacian(l.matrix@, n_verts as nat, edges@),
    {
        let n = n_verts;
        let mut matrix = zero_matrix(n);
        let mut k: usize = 0;
        while k < edges.len()
            invariant
                k <= edges@.len(),
                edges@.len() <= max_edges(),
                forall|q: int| 0 <= q < edges@.len() ==> (#[trigger] edges@[q]).0 < n && edges@[q].1 < n,
                is_graph_laplacian(matrix@, n as nat, edges@.subrange(0, k as int)),
            decreases edges@.len() - k,
        {
            let (a, b) = edges[k];
            let ghost pre = edges@.subrange(0, k as int);
            let ghost post = edges@.subrange(0, k + 1);
            proof {
                assert(post.drop_last() =~= pre);
                assert(post.last() == (a, b));
                lemma_laplacian_entry_bound(pre, a as int, a as int);
                lemma_laplacian_entry_bound(pre, b as int, b as int);
                lemma_laplacian_entry_bound(pre, a as int, b as int);
                lemma_laplacian_entry_bound(pre, b as int, a as int);
            }
            let ghost m0 = matrix@;
            add_at(&mut matrix, a, a, 1);
            let ghost m1 = matrix@;
            add_at(&mut matrix, b, b, 1);
            let ghost m2 = matrix@;
            add_at(&mut matrix, a, b, -1);
            let ghost m3 = matrix@;
            add_at(&mut matrix, b, a, -1);
            proof {
                assert forall|i: int| 0 <= i < n implies (#[trigger] matrix@[i])@.len() == n by {
                    assert(m1[i]@.len() == n);
                    assert(m2[i]@.len() == n);
                    assert(m3[i]@.len() == n);
                }
                assert forall|i: int, j: int|
                    0 <= i < n && 0 <= j < n implies (#[trigger] matrix@[i]@[j]) == laplacian_entry(
                        post,
                        i,
                        j,
                    ) by {
                    assert(m1[i]@[j] == m0[i]@[j] + (if i == a && j == a { 1int } else { 0int }));
                    assert(m2[i]@[j] == m1[i]@[j] + (if i == b && j == b { 1int } else { 0int }));
                    assert(m3[i]@[j] == m2[i]@[j] - (if i == a && j == b { 1int } else { 0int }));
                    assert(matrix@[i]@[j] == m3[i]@[j] - (if i == b && j == a { 1int } else { 0int }));
                }
            }
            k = k + 1;
        }
        assert(edges@.subrange(0, edges@.len() as int) =~= edges@);
        Self { dimension: n, matrix }
    }
}

} // verus!
