//! Linear algebra over the two-element field: vectors are sequences of
//! booleans, addition is exclusive or, and the rank of a family of vectors
//! is found by Gaussian elimination.

use vstd::prelude::*;

verus! {

/// Index of the first occurrence of `x` in `s`, or `s.len()` where `x` does
/// not occur.
pub open spec fn first_index<A>(s: Seq<A>, x: A) -> int
    decreases s.len(),
{
    if s.len() == 0 {
        0
    } else if s[0] == x {
        0
    } else {
        1 + first_index(s.drop_first(), x)
    }
}

/// `first_index` is the first position holding `x`, or the length.
pub proof fn lemma_first_index<A>(s: Seq<A>, x: A)
    ensures
        0 <= first_index(s, x) <= s.len(),
        forall|j: int| 0 <= j < first_index(s, x) ==> s[j] != x,
        first_index(s, x) < s.len() ==> s[first_index(s, x)] == x,
        first_index(s, x) == s.len() <==> !s.contains(x),
    decreases s.len(),
{
    if s.len() > 0 && s[0] != x {
        let t = s.drop_first();
        lemma_first_index(t, x);
        assert forall|j: int| 0 <= j < first_index(s, x) implies s[j] != x by {
            if j > 0 {
                assert(s[j] == t[j - 1]);
            }
        }
        if first_index(s, x) == s.len() {
            assert forall|j: int| 0 <= j < s.len() implies s[j] != x by {
                if j > 0 {
                    assert(s[j] == t[j - 1]);
                }
            }
        } else {
            assert(s[first_index(s, x)] == t[first_index(t, x)]);
        }
    } else if s.len() > 0 {
        assert(s.contains(x));
    }
}

/// A position with the properties of `first_index` is `first_index`.
pub proof fn lemma_first_index_unique<A>(s: Seq<A>, x: A, i: int)
    requires
        0 <= i <= s.len(),
        forall|j: int| 0 <= j < i ==> s[j] != x,
        i < s.len() ==> s[i] == x,
    ensures
        i == first_index(s, x),
{
    lemma_first_index(s, x);
    let f = first_index(s, x);
    if i < f {
        assert(s[i] != x);
    } else if f < i {
        assert(s[f] != x);
    }
}

/// Position of the first `true` in `v`, or `v.len()`.
pub fn first_true(v: &Vec<bool>) -> (r: usize)
    ensures
        r == first_index(v@, true),
{
    let mut i: usize = 0;
    while i < v.len()
        invariant
            i <= v.len(),
            forall|j: int| 0 <= j < i ==> v@[j] != true,
        decreases v.len() - i,
    {
        if v[i] {
            proof {
                lemma_first_index_unique(v@, true, i as int);
            }
            return i;
        }
        i = i + 1;
    }
    proof {
        lemma_first_index_unique(v@, true, i as int);
    }
    i
}

/// Sum of `a` and `b` over the two-element field, entry by entry.
pub open spec fn xor_seq(a: Seq<bool>, b: Seq<bool>) -> Seq<bool> {
    Seq::new(a.len(), |i: int| a[i] != b[i])
}

/// `v` reduced by the first `k` vectors of an echelon basis, in order: each
/// basis vector is added where the current vector has a one at its pivot.
pub open spec fn reduce(v: Seq<bool>, basis: Seq<(int, Seq<bool>)>, k: nat) -> Seq<bool>
    decreases k,
{
    if k == 0 {
        v
    } else {
        let r = reduce(v, basis, (k - 1) as nat);
        let pb = basis[k - 1];
        if r[pb.0] {
            xor_seq(r, pb.1)
        } else {
            r
        }
    }
}

/// Gaussian elimination over the first `k` vectors of `vs`: each vector is
/// reduced by the basis built so far, and joins it, pivoted at its first
/// one, unless it reduces to zero.
pub open spec fn echelon(vs: Seq<Seq<bool>>, k: nat) -> Seq<(int, Seq<bool>)>
    decreases k,
{
    if k == 0 {
        Seq::empty()
    } else {
        let b = echelon(vs, (k - 1) as nat);
        let r = reduce(vs[k - 1], b, b.len());
        let p = first_index(r, true);
        if p < r.len() {
            b.push((p, r))
        } else {
            b
        }
    }
}

/// Rank over the two-element field of the vectors `vs`: the number of pivots
/// that elimination finds.
pub open spec fn gf2_rank(vs: Seq<Seq<bool>>) -> nat {
    echelon(vs, vs.len()).len()
}

/// The rank never exceeds the number of vectors.
pub proof fn lemma_gf2_rank_bound(vs: Seq<Seq<bool>>, k: nat)
    requires
        k <= vs.len(),
    ensures
        echelon(vs, k).len() <= k,
    decreases k,
{
    if k > 0 {
        lemma_gf2_rank_bound(vs, (k - 1) as nat);
    }
}

/// The zero vector of width `w`.
pub open spec fn zero_vec(w: nat) -> Seq<bool> {
    Seq::new(w, |j: int| false)
}

/// Sum over the two-element field of the vectors `vs[i]`, `i < m`, that
/// `c[i]` selects; the zero vector of width `w` where none is selected.
pub open spec fn combo(vs: Seq<Seq<bool>>, c: Seq<bool>, m: nat, w: nat) -> Seq<bool>
    decreases m,
{
    if m == 0 {
        zero_vec(w)
    } else {
        let r = combo(vs, c, (m - 1) as nat, w);
        if c[m - 1] {
            xor_seq(r, vs[m - 1])
        } else {
            r
        }
    }
}

/// The vectors of an echelon basis.
pub open spec fn basis_vectors(b: Seq<(int, Seq<bool>)>) -> Seq<Seq<bool>> {
    b.map_values(|pb: (int, Seq<bool>)| pb.1)
}

/// `b` is in echelon form over width `w`: each vector has its first one at
/// its pivot, and every later vector is zero at every earlier pivot.
pub open spec fn echelon_form(b: Seq<(int, Seq<bool>)>, w: nat) -> bool {
    &&& forall|i: int|
        0 <= i < b.len() ==> {
            &&& 0 <= (#[trigger] b[i]).0 < w
            &&& b[i].1.len() == w
            &&& b[i].1[b[i].0]
            &&& forall|x: int| 0 <= x < b[i].0 ==> !b[i].1[x]
        }
    &&& forall|i: int, j: int| 0 <= i < j < b.len() ==> !(#[trigger] b[j]).1[(#[trigger] b[i]).0]
}

/// Reducing by the first `m` vectors of an echelon basis keeps the width and
/// clears every one of their pivots.
proof fn lemma_reduce_clears(v: Seq<bool>, b: Seq<(int, Seq<bool>)>, m: nat, w: nat)
    requires
        echelon_form(b, w),
        m <= b.len(),
        v.len() == w,
    ensures
        reduce(v, b, m).len() == w,
        forall|i: int| 0 <= i < m ==> !reduce(v, b, m)[#[trigger] b[i].0],
    decreases m,
{
    if m > 0 {
        lemma_reduce_clears(v, b, (m - 1) as nat, w);
        let r = reduce(v, b, (m - 1) as nat);
        let pb = b[m - 1];
        assert forall|i: int| 0 <= i < m implies !reduce(v, b, m)[#[trigger] b[i].0] by {
            if i < m - 1 {
                assert(!b[m - 1].1[b[i].0]);
            }
        }
    }
}

/// Elimination produces a basis in echelon form.
pub proof fn lemma_echelon_form(vs: Seq<Seq<bool>>, k: nat, w: nat)
    requires
        k <= vs.len(),
        forall|i: int| 0 <= i < vs.len() ==> (#[trigger] vs[i]).len() == w,
    ensures
        echelon_form(echelon(vs, k), w),
    decreases k,
{
    if k > 0 {
        lemma_echelon_form(vs, (k - 1) as nat, w);
        let b = echelon(vs, (k - 1) as nat);
        let r = reduce(vs[k - 1], b, b.len());
        lemma_reduce_clears(vs[k - 1], b, b.len(), w);
        lemma_first_index(r, true);
        let p = first_index(r, true);
        if p < r.len() {
            let b2 = b.push((p, r));
            assert forall|i: int, j: int| 0 <= i < j < b2.len() implies !(#[trigger] b2[j]).1[(
            #[trigger] b2[i]).0] by {
                if j < b.len() {
                    assert(b2[j] == b[j] && b2[i] == b[i]);
                } else {
                    assert(b2[i] == b[i]);
                }
            }
        }
    }
}

proof fn lemma_combo_zero(vs: Seq<Seq<bool>>, c: Seq<bool>, m: nat, w: nat)
    requires
        forall|i: int| 0 <= i < m ==> !c[i],
    ensures
        combo(vs, c, m, w) == zero_vec(w),
    decreases m,
{
    if m > 0 {
        lemma_combo_zero(vs, c, (m - 1) as nat, w);
    }
}

proof fn lemma_combo_width(vs: Seq<Seq<bool>>, c: Seq<bool>, m: nat, w: nat)
    ensures
        combo(vs, c, m, w).len() == w,
    decreases m,
{
    if m > 0 {
        lemma_combo_width(vs, c, (m - 1) as nat, w);
    }
}

/// Where `i` is the first selected vector of an echelon basis, the sum has a
/// one at pivot `i`.
proof fn lemma_combo_at_pivot(
    b: Seq<(int, Seq<bool>)>,
    c: Seq<bool>,
    m: nat,
    w: nat,
    i: int,
)
    requires
        echelon_form(b, w),
        m <= b.len(),
        0 <= i < m,
        c[i],
        forall|l: int| 0 <= l < i ==> !c[l],
    ensures
        combo(basis_vectors(b), c, m, w)[b[i].0],
    decreases m,
{
    let bv = basis_vectors(b);
    if m == i + 1 {
        lemma_combo_zero(bv, c, i as nat, w);
        assert(bv[i] == b[i].1);
    } else {
        lemma_combo_at_pivot(b, c, (m - 1) as nat, w, i);
        lemma_combo_width(bv, c, (m - 1) as nat, w);
        assert(bv[m - 1] == b[m - 1].1);
        assert(!b[m - 1].1[b[i].0]);
    }
}

/// The vectors of an echelon basis are linearly independent over Z/2: no
/// nonempty selection of them sums to zero.
pub proof fn lemma_echelon_independent(b: Seq<(int, Seq<bool>)>, c: Seq<bool>, w: nat)
    requires
        echelon_form(b, w),
        c.len() == b.len(),
        c.contains(true),
    ensures
        combo(basis_vectors(b), c, b.len(), w) != zero_vec(w),
{
    lemma_first_index(c, true);
    let i = first_index(c, true);
    lemma_combo_at_pivot(b, c, b.len(), w, i);
}

/// Which basis vectors reducing `v` adds, in order.
pub open spec fn reduce_coeffs(v: Seq<bool>, b: Seq<(int, Seq<bool>)>) -> Seq<bool> {
    Seq::new(b.len(), |i: int| reduce(v, b, i as nat)[b[i].0])
}

/// Reducing `v` adds to it the basis vectors that `reduce_coeffs` selects.
proof fn lemma_reduce_is_sum(v: Seq<bool>, b: Seq<(int, Seq<bool>)>, m: nat, w: nat)
    requires
        echelon_form(b, w),
        m <= b.len(),
        v.len() == w,
    ensures
        reduce(v, b, m) == xor_seq(v, combo(basis_vectors(b), reduce_coeffs(v, b), m, w)),
    decreases m,
{
    lemma_combo_width(basis_vectors(b), reduce_coeffs(v, b), m, w);
    if m == 0 {
        assert(reduce(v, b, m) =~= xor_seq(v, combo(basis_vectors(b), reduce_coeffs(v, b), m, w)));
    } else {
        lemma_reduce_is_sum(v, b, (m - 1) as nat, w);
        lemma_combo_width(basis_vectors(b), reduce_coeffs(v, b), (m - 1) as nat, w);
        assert(basis_vectors(b)[m - 1] == b[m - 1].1);
        assert(reduce(v, b, m) =~= xor_seq(v, combo(basis_vectors(b), reduce_coeffs(v, b), m, w)));
    }
}

/// A sum over a prefix of the basis is unchanged by basis vectors added
/// later, when they are not selected.
proof fn lemma_combo_extend(vs: Seq<Seq<bool>>, vs2: Seq<Seq<bool>>, c: Seq<bool>, c2: Seq<bool>, m: nat, m2: nat, w: nat)
    requires
        m <= m2,
        m <= vs.len(),
        m2 <= vs2.len(),
        forall|i: int| 0 <= i < m ==> vs2[i] == vs[i] && c2[i] == c[i],
        forall|i: int| m <= i < m2 ==> !c2[i],
    ensures
        combo(vs2, c2, m2, w) == combo(vs, c, m, w),
    decreases m2,
{
    if m2 > m {
        lemma_combo_extend(vs, vs2, c, c2, m, (m2 - 1) as nat, w);
    } else if m > 0 {
        lemma_combo_extend(vs, vs2, c, c2, (m - 1) as nat, (m - 1) as nat, w);
    }
}

/// Elimination only adds basis vectors: the basis after `k` steps starts
/// with the basis after `k0 ≤ k` steps.
proof fn lemma_echelon_prefix(vs: Seq<Seq<bool>>, k0: nat, k: nat)
    requires
        k0 <= k <= vs.len(),
    ensures
        echelon(vs, k0).len() <= echelon(vs, k).len(),
        forall|i: int| 0 <= i < echelon(vs, k0).len() ==> #[trigger] echelon(vs, k)[i] == echelon(vs, k0)[i],
    decreases k,
{
    if k > k0 {
        lemma_echelon_prefix(vs, k0, (k - 1) as nat);
    }
}

/// The echelon basis of `vs` spans every vector of `vs`: each is the sum of
/// the basis vectors that `c` selects. With `lemma_echelon_independent`, the
/// basis is a basis of the space spanned by `vs`, and `gf2_rank` is its
/// dimension.
pub proof fn lemma_echelon_spans(vs: Seq<Seq<bool>>, k: int, w: nat) -> (c: Seq<bool>)
    requires
        0 <= k < vs.len(),
        forall|i: int| 0 <= i < vs.len() ==> (#[trigger] vs[i]).len() == w,
    ensures
        c.len() == gf2_rank(vs),
        vs[k] == combo(basis_vectors(echelon(vs, vs.len())), c, gf2_rank(vs), w),
{
    let b0 = echelon(vs, k as nat);
    lemma_echelon_form(vs, k as nat, w);
    let v = vs[k];
    let c0 = reduce_coeffs(v, b0);
    lemma_reduce_is_sum(v, b0, b0.len(), w);
    let r = reduce(v, b0, b0.len());
    let s0 = combo(basis_vectors(b0), c0, b0.len(), w);
    lemma_combo_width(basis_vectors(b0), c0, b0.len(), w);
    lemma_first_index(r, true);
    let p = first_index(r, true);
    let b1 = echelon(vs, (k + 1) as nat);
    let (c1, m1) = if p < r.len() {
        (c0.push(true), (b0.len() + 1) as nat)
    } else {
        (c0, b0.len())
    };
    // v = s0 + r, and r is either the new basis vector or zero.
    assert(v =~= xor_seq(r, s0));
    if p < r.len() {
        lemma_combo_extend(basis_vectors(b0), basis_vectors(b1), c0, c1, b0.len(), b0.len(), w);
        assert(basis_vectors(b1)[b0.len() as int] == r);
        assert(v =~= combo(basis_vectors(b1), c1, m1, w));
    } else {
        assert forall|j: int| 0 <= j < r.len() implies !r[j] by {}
        assert(v =~= s0);
        assert(b1 == b0);
        assert(v =~= combo(basis_vectors(b1), c1, m1, w));
    }
    let bf = echelon(vs, vs.len());
    lemma_echelon_prefix(vs, (k + 1) as nat, vs.len());
    let c = Seq::new(bf.len(), |i: int| if i < m1 { c1[i] } else { false });
    lemma_combo_extend(basis_vectors(b1), basis_vectors(bf), c1, c, m1, bf.len(), w);
    c
}

/// The views of a matrix stored as rows.
pub open spec fn row_views(vs: Seq<Vec<bool>>) -> Seq<Seq<bool>> {
    vs.map_values(|v: Vec<bool>| v@)
}

spec fn basis_view(b: Seq<(usize, Vec<bool>)>) -> Seq<(int, Seq<bool>)> {
    b.map_values(|pb: (usize, Vec<bool>)| (pb.0 as int, pb.1@))
}

fn xor_vec(a: &Vec<bool>, b: &Vec<bool>) -> (r: Vec<bool>)
    requires
        a@.len() == b@.len(),
    ensures
        r@ == xor_seq(a@, b@),
{
    let mut r: Vec<bool> = Vec::new();
    let mut i: usize = 0;
    while i < a.len()
        invariant
            i <= a@.len(),
            a@.len() == b@.len(),
            r@ == xor_seq(a@, b@).subrange(0, i as int),
        decreases a@.len() - i,
    {
        r.push(a[i] != b[i]);
        assert(r@ =~= xor_seq(a@, b@).subrange(0, i + 1));
        i = i + 1;
    }
    assert(r@ =~= xor_seq(a@, b@));
    r
}

fn copy_vec(a: &Vec<bool>) -> (r: Vec<bool>)
    ensures
        r@ == a@,
{
    let mut r: Vec<bool> = Vec::new();
    let mut i: usize = 0;
    while i < a.len()
        invariant
            i <= a@.len(),
            r@ == a@.subrange(0, i as int),
        decreases a@.len() - i,
    {
        r.push(a[i]);
        assert(r@ =~= a@.subrange(0, i + 1));
        i = i + 1;
    }
    assert(r@ =~= a@);
    r
}

/// Rank over the two-element field of the rows `vs`, each of length `width`,
/// by Gaussian elimination.
pub fn gf2_rank_of(vs: &Vec<Vec<bool>>, width: usize) -> (r: usize)
    requires
        forall|i: int| 0 <= i < vs@.len() ==> (#[trigger] vs@[i])@.len() == width,
    ensures
        r == gf2_rank(row_views(vs@)),
        r <= vs@.len(),
{
    let ghost rows = row_views(vs@);
    let mut basis: Vec<(usize, Vec<bool>)> = Vec::new();
    let mut k: usize = 0;
    while k < vs.len()
        invariant
            k <= vs@.len(),
            rows == row_views(vs@),
            forall|i: int| 0 <= i < vs@.len() ==> (#[trigger] vs@[i])@.len() == width,
            basis_view(basis@) == echelon(rows, k as nat),
            basis@.len() <= k,
            forall|j: int|
                0 <= j < basis@.len() ==> (#[trigger] basis@[j]).0 < width && basis@[j].1@.len()
                    == width,
        decreases vs@.len() - k,
    {
        let ghost bv = basis_view(basis@);
        let mut r = copy_vec(&vs[k]);
        assert(rows[k as int] == vs@[k as int]@);
        let mut j: usize = 0;
        while j < basis.len()
            invariant
                j <= basis@.len(),
                bv == basis_view(basis@),
                r@.len() == width,
                r@ == reduce(rows[k as int], bv, j as nat),
                forall|q: int|
                    0 <= q < basis@.len() ==> (#[trigger] basis@[q]).0 < width && basis@[q].1@.len()
                        == width,
            decreases basis@.len() - j,
        {
            let p = basis[j].0;
            assert(bv[j as int] == (p as int, basis@[j as int].1@));
            if r[p] {
                r = xor_vec(&r, &basis[j].1);
            }
            j = j + 1;
        }
        let p = first_true(&r);
        proof {
            lemma_first_index(r@, true);
        }
        if p < r.len() {
            basis.push((p, r));
            assert(basis_view(basis@) =~= bv.push((p as int, r@)));
        }
        k = k + 1;
    }
    basis.len()
}

} // verus!
