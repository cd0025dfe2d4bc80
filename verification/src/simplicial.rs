//! Simplicial complex data structure.

use vstd::multiset::Multiset;
use vstd::prelude::*;

use crate::gf2::{
    first_index, gf2_rank, gf2_rank_of, lemma_first_index, lemma_first_index_unique, row_views,
};

use crate::components::{
    count_components, lemma_components_lower_bound, lemma_components_monotone, lemma_count_representatives_bound,
    lemma_num_components_positive,
    merge_labels, num_components,
};

verus! {

/// `s` with `x` appended, unless `s` already holds `x`.
pub open spec fn seq_insert<A>(s: Seq<A>, x: A) -> Seq<A> {
    if s.contains(x) {
        s
    } else {
        s.push(x)
    }
}

/// The edge between `a` and `b`, as the pair with the smaller end first.
pub open spec fn spec_edge(a: usize, b: usize) -> (usize, usize) {
    if a < b {
        (a, b)
    } else {
        (b, a)
    }
}

/// The triple `a`, `b`, `c` in ascending order.
pub open spec fn spec_sorted3(a: usize, b: usize, c: usize) -> (usize, usize, usize) {
    if a <= b {
        if b <= c {
            (a, b, c)
        } else if a <= c {
            (a, c, b)
        } else {
            (c, a, b)
        }
    } else {
        if a <= c {
            (b, a, c)
        } else if b <= c {
            (b, c, a)
        } else {
            (c, b, a)
        }
    }
}

/// Inserting an element that is already present changes nothing, and
/// inserting keeps every element that was there.
pub proof fn lemma_seq_insert<A>(s: Seq<A>, x: A)
    ensures
        s.contains(x) ==> seq_insert(s, x) == s,
        seq_insert(s, x).contains(x),
        forall|y: A| s.contains(y) ==> #[trigger] seq_insert(s, x).contains(y),
        forall|y: A| #[trigger] seq_insert(s, x).contains(y) ==> s.contains(y) || y == x,
        s.no_duplicates() ==> seq_insert(s, x).no_duplicates(),
{
    if !s.contains(x) {
        let t = s.push(x);
        assert(t[s.len() as int] == x);
        assert forall|y: A| s.contains(y) implies t.contains(y) by {
            let i = choose|i: int| 0 <= i < s.len() && s[i] == y;
            assert(t[i] == y);
        }
        assert forall|y: A| t.contains(y) implies s.contains(y) || y == x by {
            let i = choose|i: int| 0 <= i < t.len() && t[i] == y;
            if i < s.len() {
                assert(s[i] == y);
            }
        }
    }
}

/// `x` is a value of `i32`.
pub open spec fn i32_fits(x: int) -> bool {
    i32::MIN <= x <= i32::MAX
}

/// Every simplex count of `c` is at most `i32::MAX`, so `as i32` keeps it.
pub open spec fn counts_fit_i32(c: SimplicialComplex) -> bool {
    &&& c.vertices@.len() <= i32::MAX
    &&& c.edges@.len() <= i32::MAX
    &&& c.triangles@.len() <= i32::MAX
    &&& c.tetrahedra@.len() <= i32::MAX
}

/// Lexicographic order on edges, as Rust orders pairs.
pub open spec fn edge_le(x: (usize, usize), y: (usize, usize)) -> bool {
    x.0 < y.0 || (x.0 == y.0 && x.1 <= y.1)
}

/// The multiset holding `x`, `y` and `z`.
pub open spec fn multiset3<A>(x: A, y: A, z: A) -> Multiset<A> {
    Multiset::empty().insert(x).insert(y).insert(z)
}

fn min_usize(a: usize, b: usize) -> (r: usize)
    ensures
        r == if a <= b { a } else { b },
{
    if a <= b {
        a
    } else {
        b
    }
}

fn max_usize(a: usize, b: usize) -> (r: usize)
    ensures
        r == if a <= b { b } else { a },
{
    if a <= b {
        b
    } else {
        a
    }
}

fn edge_lt_exec(x: (usize, usize), y: (usize, usize)) -> (r: bool)
    ensures
        r == !edge_le(y, x),
{
    x.0 < y.0 || (x.0 == y.0 && x.1 < y.1)
}

/// `x`, or 0 where `x` is negative.
pub open spec fn clamp_nonneg(x: int) -> nat {
    if x > 0 {
        x as nat
    } else {
        0
    }
}

/// Every row `i` of the proximity matrix reaches past every column `j > i`
/// of a point.
pub open spec fn proximity_wf(close: Seq<Vec<bool>>) -> bool {
    forall|i: int| 0 <= i < close.len() - 1 ==> (#[trigger] close[i])@.len() >= close.len()
}

/// Points `a < b` are close.
pub open spec fn rips_edge(close: Seq<Vec<bool>>, a: int, b: int) -> bool {
    0 <= a < b < close.len() && close[a]@[b]
}

/// Points `a < b < c` are pairwise close.
pub open spec fn rips_triangle(close: Seq<Vec<bool>>, a: int, b: int, c: int) -> bool {
    &&& 0 <= a < b < c < close.len()
    &&& close[a]@[b]
    &&& close[b]@[c]
    &&& close[a]@[c]
}

/// Strict lexicographic order on pairs.
pub open spec fn pair_lt(x: (usize, usize), y: (usize, usize)) -> bool {
    x.0 < y.0 || (x.0 == y.0 && x.1 < y.1)
}

/// Strict lexicographic order on triples.
pub open spec fn triple_lt(x: (usize, usize, usize), y: (usize, usize, usize)) -> bool {
    x.0 < y.0 || (x.0 == y.0 && (x.1 < y.1 || (x.1 == y.1 && x.2 < y.2)))
}

/// Inserting the same element twice is inserting it once: adding a vertex,
/// an edge or a triangle a second time leaves the complex as it was.
pub proof fn lemma_seq_insert_idempotent<A>(s: Seq<A>, x: A)
    ensures
        seq_insert(seq_insert(s, x), x) == seq_insert(s, x),
{
    lemma_seq_insert(s, x);
    lemma_seq_insert(seq_insert(s, x), x);
}

/// An edge is the same simplex in either orientation: `(a, b)` and `(b, a)`
/// are stored as one pair, and every vertex order of a triangle is stored
/// as one triple.
pub proof fn lemma_orientation_irrelevant(a: usize, b: usize, c: usize)
    ensures
        spec_edge(a, b) == spec_edge(b, a),
        spec_sorted3(a, b, c) == spec_sorted3(b, a, c),
        spec_sorted3(a, b, c) == spec_sorted3(a, c, b),
        spec_sorted3(a, b, c) == spec_sorted3(c, b, a),
        spec_sorted3(a, b, c).0 <= spec_sorted3(a, b, c).1 <= spec_sorted3(a, b, c).2,
        multiset3(spec_sorted3(a, b, c).0, spec_sorted3(a, b, c).1, spec_sorted3(a, b, c).2)
            =~= multiset3(a, b, c),
{
}

/// Growing the scale only adds simplices: where every pair that is close in
/// `c1` is close in `c2`, every Vietoris-Rips edge and triangle of `c1` is one
/// of `c2`. A filtration built by raising the scale is therefore nested.
pub proof fn lemma_rips_monotone(c1: Seq<Vec<bool>>, c2: Seq<Vec<bool>>)
    requires
        c1.len() == c2.len(),
        forall|i: int, j: int| #[trigger] rips_edge(c1, i, j) ==> c2[i]@[j],
    ensures
        forall|a: int, b: int| rips_edge(c1, a, b) ==> #[trigger] rips_edge(c2, a, b),
        forall|a: int, b: int, c: int|
            rips_triangle(c1, a, b, c) ==> #[trigger] rips_triangle(c2, a, b, c),
{
    assert forall|a: int, b: int, c: int|
        rips_triangle(c1, a, b, c) implies #[trigger] rips_triangle(c2, a, b, c) by {
        assert(rips_edge(c1, a, b));
        assert(rips_edge(c1, b, c));
        assert(rips_edge(c1, a, c));
    }
}

/// Row of the boundary matrix for triangle `t`: entry `j` is one where edge
/// `j` is a face of `t` an odd number of times.
pub open spec fn boundary_row(edges: Seq<(usize, usize)>, t: (usize, usize, usize)) -> Seq<bool> {
    let f1 = first_index(edges, (t.0, t.1));
    let f2 = first_index(edges, (t.1, t.2));
    let f3 = first_index(edges, (t.0, t.2));
    Seq::new(edges.len(), |j: int| ((f1 == j) != (f2 == j)) != (f3 == j))
}

fn vertex_position(s: &Vec<usize>, x: usize) -> (r: usize)
    ensures
        r == first_index(s@, x),
{
    let mut i: usize = 0;
    while i < s.len()
        invariant
            i <= s.len(),
            forall|j: int| 0 <= j < i ==> s@[j] != x,
        decreases s.len() - i,
    {
        if s[i] == x {
            proof {
                lemma_first_index_unique(s@, x, i as int);
            }
            return i;
        }
        i = i + 1;
    }
    proof {
        lemma_first_index_unique(s@, x, i as int);
    }
    i
}

fn edge_position(s: &Vec<(usize, usize)>, x: (usize, usize)) -> (r: usize)
    ensures
        r == first_index(s@, x),
{
    let mut i: usize = 0;
    while i < s.len()
        invariant
            i <= s.len(),
            forall|j: int| 0 <= j < i ==> s@[j] != x,
        decreases s.len() - i,
    {
        if s[i].0 == x.0 && s[i].1 == x.1 {
            proof {
                lemma_first_index_unique(s@, x, i as int);
            }
            return i;
        }
        i = i + 1;
    }
    proof {
        lemma_first_index_unique(s@, x, i as int);
    }
    i
}

fn boundary_row_exec(edges: &Vec<(usize, usize)>, t: (usize, usize, usize)) -> (r: Vec<bool>)
    ensures
        r@ == boundary_row(edges@, t),
{
    let f1 = edge_position(edges, (t.0, t.1));
    let f2 = edge_position(edges, (t.1, t.2));
    let f3 = edge_position(edges, (t.0, t.2));
    let mut r: Vec<bool> = Vec::new();
    let mut j: usize = 0;
    while j < edges.len()
        invariant
            j <= edges@.len(),
            r@ == boundary_row(edges@, t).subrange(0, j as int),
            f1 == first_index(edges@, (t.0, t.1)),
            f2 == first_index(edges@, (t.1, t.2)),
            f3 == first_index(edges@, (t.0, t.2)),
        decreases edges@.len() - j,
    {
        r.push(((f1 == j) != (f2 == j)) != (f3 == j));
        assert(r@ =~= boundary_row(edges@, t).subrange(0, j + 1));
        j = j + 1;
    }
    assert(r@ =~= boundary_row(edges@, t));
    r
}

/// A simplicial complex: a collection of simplices closed under taking faces.
#[derive(Debug, Clone)]
pub struct SimplicialComplex {
    /// Vertices (0-simplices).
    pub vertices: Vec<usize>,
    /// Edges (1-simplices), stored as sorted pairs.
    pub edges: Vec<(usize, usize)>,
    /// Triangles (2-simplices), stored as sorted triples.
    pub triangles: Vec<(usize, usize, usize)>,
    /// Tetrahedra (3-simplices).
    pub tetrahedra: Vec<(usize, usize, usize, usize)>,
}

fn contains_vertex(s: &Vec<usize>, v: usize) -> (r: bool)
    ensures
        r == s@.contains(v),
{
    let mut i: usize = 0;
    while i < s.len()
        invariant
            i <= s.len(),
            forall|j: int| 0 <= j < i ==> s@[j] != v,
        decreases s.len() - i,
    {
        if s[i] == v {
            return true;
        }
        i = i + 1;
    }
    false
}

fn contains_edge(s: &Vec<(usize, usize)>, e: (usize, usize)) -> (r: bool)
    ensures
        r == s@.contains(e),
{
    let mut i: usize = 0;
    while i < s.len()
        invariant
            i <= s.len(),
            forall|j: int| 0 <= j < i ==> s@[j] != e,
        decreases s.len() - i,
    {
        if s[i].0 == e.0 && s[i].1 == e.1 {
            return true;
        }
        i = i + 1;
    }
    false
}

fn contains_triangle(s: &Vec<(usize, usize, usize)>, t: (usize, usize, usize)) -> (r: bool)
    ensures
        r == s@.contains(t),
{
    let mut i: usize = 0;
    while i < s.len()
        invariant
            i <= s.len(),
            forall|j: int| 0 <= j < i ==> s@[j] != t,
        decreases s.len() - i,
    {
        if s[i].0 == t.0 && s[i].1 == t.1 && s[i].2 == t.2 {
            return true;
        }
        i = i + 1;
    }
    false
}

impl SimplicialComplex {
    /// The complex is well formed: no simplex is listed twice, every simplex
    /// is stored with its vertices in ascending order, and every face of a
    /// simplex is itself in the complex.
    pub open spec fn wf(self) -> bool {
        &&& self.vertices@.no_duplicates()
        &&& self.edges@.no_duplicates()
        &&& self.triangles@.no_duplicates()
        &&& self.tetrahedra@.no_duplicates()
        &&& forall|i: int|
            0 <= i < self.edges@.len() ==> {
                let e = #[trigger] self.edges@[i];
                &&& e.0 <= e.1
                &&& self.vertices@.contains(e.0)
                &&& self.vertices@.contains(e.1)
            }
        &&& forall|i: int|
            0 <= i < self.triangles@.len() ==> {
                let t = #[trigger] self.triangles@[i];
                &&& t.0 <= t.1 <= t.2
                &&& self.edges@.contains((t.0, t.1))
                &&& self.edges@.contains((t.1, t.2))
                &&& self.edges@.contains((t.0, t.2))
            }
        &&& forall|i: int|
            0 <= i < self.tetrahedra@.len() ==> {
                let q = #[trigger] self.tetrahedra@[i];
                &&& q.0 <= q.1 <= q.2 <= q.3
                &&& self.triangles@.contains((q.0, q.1, q.2))
                &&& self.triangles@.contains((q.0, q.1, q.3))
                &&& self.triangles@.contains((q.0, q.2, q.3))
                &&& self.triangles@.contains((q.1, q.2, q.3))
            }
    }

    /// Create a new empty complex.
    pub fn new() -> (c: Self)
        ensures
            c.vertices@.len() == 0,
            c.edges@.len() == 0,
            c.triangles@.len() == 0,
            c.tetrahedra@.len() == 0,
            c.wf(),
    {
        Self { vertices: vec![], edges: vec![], triangles: vec![], tetrahedra: vec![] }
    }

    /// Add a vertex.
    pub fn add_vertex(&mut self, v: usize)
        ensures
            final(self).vertices@ == seq_insert(old(self).vertices@, v),
            final(self).edges@ == old(self).edges@,
            final(self).triangles@ == old(self).triangles@,
            final(self).tetrahedra@ == old(self).tetrahedra@,
            old(self).wf() ==> final(self).wf(),
    {
        proof {
            lemma_seq_insert(self.vertices@, v);
        }
        if !contains_vertex(&self.vertices, v) {
            self.vertices.push(v);
        }
    }

    /// Add an edge (ensures vertices exist).
    pub fn add_edge(&mut self, a: usize, b: usize)
        ensures
            final(self).vertices@ == seq_insert(seq_insert(old(self).vertices@, a), b),
            final(self).edges@ == seq_insert(old(self).edges@, spec_edge(a, b)),
            final(self).triangles@ == old(self).triangles@,
            final(self).tetrahedra@ == old(self).tetrahedra@,
            old(self).wf() ==> final(self).wf(),
    {
        let edge = if a < b {
            (a, b)
        } else {
            (b, a)
        };
        let ghost v0 = self.vertices@;
        self.add_vertex(a);
        self.add_vertex(b);
        proof {
            lemma_seq_insert(v0, a);
            lemma_seq_insert(seq_insert(v0, a), b);
            lemma_seq_insert(self.edges@, edge);
        }
        if !contains_edge(&self.edges, edge) {
            self.edges.push(edge);
        }
    }

    /// Add a triangle (ensures edges exist).
    pub fn add_triangle(&mut self, a: usize, b: usize, c: usize)
        ensures
            final(self).vertices@ == seq_insert(
                seq_insert(seq_insert(old(self).vertices@, a), b),
                c,
            ),
            final(self).edges@ == seq_insert(
                seq_insert(seq_insert(old(self).edges@, spec_edge(a, b)), spec_edge(b, c)),
                spec_edge(a, c),
            ),
            final(self).triangles@ == seq_insert(old(self).triangles@, spec_sorted3(a, b, c)),
            final(self).tetrahedra@ == old(self).tetrahedra@,
            old(self).wf() ==> final(self).wf(),
    {
        let tri = if a <= b {
            if b <= c {
                (a, b, c)
            } else if a <= c {
                (a, c, b)
            } else {
                (c, a, b)
            }
        } else {
            if a <= c {
                (b, a, c)
            } else if b <= c {
                (b, c, a)
            } else {
                (c, b, a)
            }
        };
        let ghost v0 = self.vertices@;
        let ghost e0 = self.edges@;
        self.add_edge(a, b);
        let ghost v1 = self.vertices@;
        let ghost e1 = self.edges@;
        self.add_edge(b, c);
        let ghost v2 = self.vertices@;
        let ghost e2 = self.edges@;
        self.add_edge(a, c);
        proof {
            lemma_seq_insert(v0, a);
            lemma_seq_insert(seq_insert(v0, a), b);
            lemma_seq_insert(v1, b);
            lemma_seq_insert(seq_insert(v1, b), c);
            lemma_seq_insert(v2, a);
            lemma_seq_insert(seq_insert(v2, a), c);
            lemma_seq_insert(e0, spec_edge(a, b));
            lemma_seq_insert(e1, spec_edge(b, c));
            lemma_seq_insert(e2, spec_edge(a, c));
            lemma_seq_insert(self.triangles@, tri);
            assert(self.vertices@ == seq_insert(seq_insert(seq_insert(v0, a), b), c));
        }
        if !contains_triangle(&self.triangles, tri) {
            self.triangles.push(tri);
        }
    }

    /// Number of simplices of dimension k.
    pub fn num_simplices(&self, dim: usize) -> (r: usize)
        ensures
            r == (if dim == 0 {
                self.vertices@.len()
            } else if dim == 1 {
                self.edges@.len()
            } else if dim == 2 {
                self.triangles@.len()
            } else if dim == 3 {
                self.tetrahedra@.len()
            } else {
                0
            }),
    {
        match dim {
            0 => self.vertices.len(),
            1 => self.edges.len(),
            2 => self.triangles.len(),
            3 => self.tetrahedra.len(),
            _ => 0,
        }
    }

    /// The four simplex counts, each as the `i32` that `as` makes of it.
    pub open spec fn counts_i32(self) -> (i32, i32, i32, i32) {
        (
            self.vertices@.len() as i32,
            self.edges@.len() as i32,
            self.triangles@.len() as i32,
            self.tetrahedra@.len() as i32,
        )
    }

    /// The Euler characteristic can be computed in `i32` without overflow.
    pub open spec fn euler_fits_i32(self) -> bool {
        let (v, e, t, q) = self.counts_i32();
        &&& i32_fits(v - e)
        &&& i32_fits(v - e + t)
        &&& i32_fits(v - e + t - q)
    }

    /// Euler characteristic: χ = V - E + F - T.
    pub fn euler_characteristic(&self) -> (chi: i32)
        requires
            self.euler_fits_i32(),
        ensures
            ({
                let (v, e, t, q) = self.counts_i32();
                chi == v - e + t - q
            }),
            counts_fit_i32(*self) ==> chi == self.vertices@.len() - self.edges@.len()
                + self.triangles@.len() - self.tetrahedra@.len(),
    {
        self.vertices.len() as i32 - self.edges.len() as i32 + self.triangles.len() as i32
            - self.tetrahedra.len() as i32
    }

    /// Boundary of a simplex: the faces of dimension dim-1.
    pub fn boundary_of_edge(&self, edge: (usize, usize)) -> (r: Vec<usize>)
        ensures
            r@ == seq![edge.0, edge.1],
    {
        vec![edge.0, edge.1]
    }

    /// Boundary of a triangle: its three edges.
    pub fn boundary_of_triangle(&self, tri: (usize, usize, usize)) -> (r: Vec<(usize, usize)>)
        ensures
            r@.len() == 3,
            edge_le(r@[0], r@[1]),
            edge_le(r@[1], r@[2]),
            multiset3(r@[0], r@[1], r@[2]) == multiset3(
                spec_edge(tri.0, tri.1),
                spec_edge(tri.1, tri.2),
                spec_edge(tri.0, tri.2),
            ),
    {
        let (a, b, c) = tri;
        let mut x = (min_usize(a, b), max_usize(a, b));
        let mut y = (min_usize(b, c), max_usize(b, c));
        let mut z = (min_usize(a, c), max_usize(a, c));
        let ghost m = multiset3(x, y, z);
        if edge_lt_exec(y, x) {
            let t = x;
            x = y;
            y = t;
            assert(multiset3(x, y, z) =~= m);
        }
        if edge_lt_exec(z, y) {
            let t = y;
            y = z;
            z = t;
            assert(multiset3(x, y, z) =~= m);
        }
        if edge_lt_exec(y, x) {
            let t = x;
            x = y;
            y = t;
            assert(multiset3(x, y, z) =~= m);
        }
        vec![x, y, z]
    }

    /// The edges with each end replaced by its position among the vertices
    /// (the number of vertices where the end is not a vertex).
    pub open spec fn indexed_edges(self) -> Seq<(usize, usize)> {
        self.edges@.map_values(
            |e: (usize, usize)|
                (
                    first_index(self.vertices@, e.0) as usize,
                    first_index(self.vertices@, e.1) as usize,
                ),
        )
    }

    /// β₀: the number of connected components of the complex, that is, of
    /// the graph whose nodes are the vertices and whose edges are the stored
    /// edges between them (nodes taken by their position in `vertices`).
    pub open spec fn betti0(self) -> nat {
        num_components(self.vertices@.len(), self.indexed_edges())
    }

    /// The boundary of the triangles over the two-element field: row `i`
    /// has a one at each edge that is a face of triangle `i` an odd number
    /// of times.
    pub open spec fn boundary_rows(self) -> Seq<Seq<bool>> {
        self.triangles@.map_values(|t: (usize, usize, usize)| boundary_row(self.edges@, t))
    }

    /// Rank of the boundary map ∂₂ from triangles to edges, over Z/2.
    pub open spec fn boundary_rank(self) -> nat {
        gf2_rank(self.boundary_rows())
    }

    /// β₁ = dim ker ∂₁ − rank ∂₂ over Z/2, with dim ker ∂₁ = E − V + β₀ (the
    /// dimension of the cycle space of the graph); 0 where this is negative.
    pub open spec fn betti1(self) -> nat {
        clamp_nonneg(
            self.edges@.len() - self.vertices@.len() + self.betti0() - self.boundary_rank(),
        )
    }

    /// β₀ never exceeds the number of vertices, a complex with a vertex has
    /// at least one component, and each edge joins at most two components:
    /// β₀ ≥ V − E.
    pub proof fn lemma_betti0_bound(self)
        ensures
            self.betti0() <= self.vertices@.len(),
            self.vertices@.len() > 0 ==> self.betti0() >= 1,
            self.betti0() + self.edges@.len() >= self.vertices@.len(),
    {
        lemma_components_lower_bound(self.vertices@.len(), self.indexed_edges());
        if self.vertices@.len() > 0 {
            lemma_num_components_positive(self.vertices@.len(), self.indexed_edges());
        }
        lemma_count_representatives_bound(
            merge_labels(self.vertices@.len(), self.indexed_edges(), self.indexed_edges().len()),
            self.vertices@.len(),
        );
    }

    /// Adding edges over the same vertices never adds components: a complex
    /// nested in `other` (same vertices, every edge also an edge of `other`)
    /// has at least as many components.
    pub proof fn lemma_nested_components(self, other: SimplicialComplex)
        requires
            self.vertices@ == other.vertices@,
            forall|q: int| 0 <= q < self.edges@.len() ==> other.edges@.contains(#[trigger] self.edges@[q]),
        ensures
            other.betti0() <= self.betti0(),
    {
        let i1 = self.indexed_edges();
        let i2 = other.indexed_edges();
        assert forall|q: int| 0 <= q < i1.len() implies i2.contains(#[trigger] i1[q]) by {
            let e = self.edges@[q];
            assert(other.edges@.contains(e));
            let q2 = choose|q2: int| 0 <= q2 < other.edges@.len() && other.edges@[q2] == e;
            assert(i2[q2] == i1[q]);
        }
        lemma_components_monotone(self.vertices@.len(), i1, i2);
    }

    /// Each row of the boundary matrix is the boundary of its triangle: in a
    /// well-formed complex, row `i` has a one exactly at the edges that are
    /// faces of triangle `i` — its three sides `(t.0, t.1)`, `(t.1, t.2)` and
    /// `(t.0, t.2)` where its vertices are distinct — and so exactly three
    /// ones.
    pub proof fn lemma_boundary_row_faces(self, i: int)
        requires
            self.wf(),
            0 <= i < self.triangles@.len(),
            self.triangles@[i].0 < self.triangles@[i].1 < self.triangles@[i].2,
        ensures
            self.boundary_rows()[i].len() == self.edges@.len(),
            forall|j: int|
                0 <= j < self.edges@.len() ==> (#[trigger] self.boundary_rows()[i][j] <==> ({
                    let t = self.triangles@[i];
                    let e = self.edges@[j];
                    e == (t.0, t.1) || e == (t.1, t.2) || e == (t.0, t.2)
                })),
            ({
                let t = self.triangles@[i];
                let r = self.boundary_rows()[i];
                &&& r[first_index(self.edges@, (t.0, t.1))]
                &&& r[first_index(self.edges@, (t.1, t.2))]
                &&& r[first_index(self.edges@, (t.0, t.2))]
                &&& first_index(self.edges@, (t.0, t.1)) != first_index(self.edges@, (t.1, t.2))
                &&& first_index(self.edges@, (t.0, t.1)) != first_index(self.edges@, (t.0, t.2))
                &&& first_index(self.edges@, (t.1, t.2)) != first_index(self.edges@, (t.0, t.2))
            }),
    {
        let t = self.triangles@[i];
        let es = self.edges@;
        assert(self.boundary_rows()[i] == boundary_row(es, t));
        lemma_first_index(es, (t.0, t.1));
        lemma_first_index(es, (t.1, t.2));
        lemma_first_index(es, (t.0, t.2));
        let f1 = first_index(es, (t.0, t.1));
        let f2 = first_index(es, (t.1, t.2));
        let f3 = first_index(es, (t.0, t.2));
        assert forall|j: int|
            0 <= j < es.len() implies (#[trigger] self.boundary_rows()[i][j] <==> (es[j] == (
                t.0,
                t.1,
            ) || es[j] == (t.1, t.2) || es[j] == (t.0, t.2))) by {
            if es[j] == (t.0, t.1) {
                assert(j == f1);
            }
            if es[j] == (t.1, t.2) {
                assert(j == f2);
            }
            if es[j] == (t.0, t.2) {
                assert(j == f3);
            }
        }
    }

    /// Euler-Poincaré: with β₂ = T − rank ∂₂ (no tetrahedra),
    /// β₀ − β₁ + β₂ = V − E + T = χ, wherever β₁ is not clamped at 0.
    pub proof fn lemma_euler_poincare(self)
        requires
            self.tetrahedra@.len() == 0,
            self.edges@.len() - self.vertices@.len() + self.betti0() >= self.boundary_rank(),
        ensures
            self.betti0() - self.betti1() + (self.triangles@.len() - self.boundary_rank())
                == self.vertices@.len() - self.edges@.len() + self.triangles@.len()
                - self.tetrahedra@.len(),
    {
    }

    /// Number of connected components of the complex: β₀.
    pub fn connected_components(&self) -> (r: usize)
        ensures
            r == self.betti0(),
            r <= self.vertices@.len(),
    {
        let n = self.vertices.len();
        // Edges over vertex positions.
        let mut indexed: Vec<(usize, usize)> = Vec::new();
        let mut k: usize = 0;
        while k < self.edges.len()
            invariant
                k <= self.edges@.len(),
                n == self.vertices@.len(),
                indexed@ == self.indexed_edges().subrange(0, k as int),
            decreases self.edges@.len() - k,
        {
            let (a, b) = self.edges[k];
            let pa = vertex_position(&self.vertices, a);
            let pb = vertex_position(&self.vertices, b);
            indexed.push((pa, pb));
            assert(indexed@ =~= self.indexed_edges().subrange(0, k + 1));
            k = k + 1;
        }
        assert(indexed@ =~= self.indexed_edges());
        count_components(n, &indexed)
    }

    /// Betti numbers: β_k = rank(H_k) = dim(ker ∂_k) - dim(im ∂_{k+1}),
    /// over Z/2: `[β₀, β₁]`, or nothing for a complex without vertices.
    pub fn betti_numbers(&self) -> (r: Vec<usize>)
        ensures
            self.vertices@.len() == 0 ==> r@.len() == 0,
            self.vertices@.len() > 0 ==> r@.len() == 2,
            self.vertices@.len() > 0 ==> r@[0] == self.betti0(),
            self.vertices@.len() > 0 ==> r@[1] == self.betti1(),
    {
        let n = self.vertices.len();
        if n == 0 {
            return vec![];
        }
        let beta0 = self.connected_components();
        // Boundary matrix of the triangles over Z/2.
        let e = self.edges.len();
        let mut rows: Vec<Vec<bool>> = Vec::new();
        let mut t: usize = 0;
        while t < self.triangles.len()
            invariant
                t <= self.triangles@.len(),
                e == self.edges@.len(),
                row_views(rows@) == self.boundary_rows().subrange(0, t as int),
                forall|i: int| 0 <= i < rows@.len() ==> (#[trigger] rows@[i])@.len() == e,
            decreases self.triangles@.len() - t,
        {
            let tri = self.triangles[t];
            let row = boundary_row_exec(&self.edges, tri);
            let ghost before = rows@;
            assert(row_views(before).len() == t);
            assert(before.len() == t);
            assert(tri == self.triangles@[t as int]);
            assert(self.boundary_rows()[t as int] == boundary_row(self.edges@, tri));
            rows.push(row);
            assert(rows@.len() == t + 1);
            assert(rows@[t as int]@ == self.boundary_rows()[t as int]);
            assert(row_views(rows@) =~= row_views(before).push(rows@[t as int]@));
            assert(row_views(rows@) =~= self.boundary_rows().subrange(0, t + 1));
            t = t + 1;
        }
        assert(row_views(rows@) =~= self.boundary_rows());
        let rank = gf2_rank_of(&rows, e);
        let plus = e as u128 + beta0 as u128;
        let minus = n as u128 + rank as u128;
        let beta1: usize = if plus > minus {
            (plus - minus) as usize
        } else {
            0
        };
        vec![beta0, beta1]
    }

    /// Build the Vietoris-Rips complex of `n = close.len()` points, where
    /// `close[i][j]` (for `i < j`) tells whether points `i` and `j` lie
    /// within the scale of each other.
    ///
    /// The vertices are `0..n`; the edges are the close pairs and the
    /// triangles the triples that are pairwise close, each listed once, in
    /// ascending lexicographic order.
    pub fn vietoris_rips_from_proximity(close: &[Vec<bool>]) -> (c: Self)
        requires
            proximity_wf(close@),
        ensures
            c.wf(),
            c.vertices@ == Seq::new(close@.len(), |i: int| i as usize),
            forall|e: (usize, usize)|
                c.edges@.contains(e) <==> rips_edge(close@, e.0 as int, e.1 as int),
            forall|a: int, b: int|
                0 <= a < b < c.edges@.len() ==> pair_lt(
                    #[trigger] c.edges@[a],
                    #[trigger] c.edges@[b],
                ),
            forall|t: (usize, usize, usize)|
                c.triangles@.contains(t) <==> rips_triangle(
                    close@,
                    t.0 as int,
                    t.1 as int,
                    t.2 as int,
                ),
            forall|a: int, b: int|
                0 <= a < b < c.triangles@.len() ==> triple_lt(
                    #[trigger] c.triangles@[a],
                    #[trigger] c.triangles@[b],
                ),
            c.tetrahedra@.len() == 0,
    {
        let n = close.len();
        let mut complex = Self::new();
        let mut i: usize = 0;
        while i < n
            invariant
                i <= n,
                n == close@.len(),
                complex.wf(),
                complex.vertices@ == Seq::new(i as nat, |k: int| k as usize),
                complex.edges@.len() == 0,
                complex.triangles@.len() == 0,
                complex.tetrahedra@.len() == 0,
            decreases n - i,
        {
            proof {
                assert(!complex.vertices@.contains(i)) by {
                    if complex.vertices@.contains(i) {
                        let k = choose|k: int| 0 <= k < complex.vertices@.len() && complex.vertices@[k] == i;
                    }
                }
            }
            complex.add_vertex(i);
            assert(complex.vertices@ =~= Seq::new((i + 1) as nat, |k: int| k as usize));
            i = i + 1;
        }
        let ghost verts = complex.vertices@;
        assert forall|v: usize| v < n implies #[trigger] verts.contains(v) by {
            assert(verts[v as int] == v);
        }
        i = 0;
        while i < n
            invariant
                i <= n,
                n == close@.len(),
                proximity_wf(close@),
                complex.wf(),
                complex.vertices@ == verts,
                forall|v: usize| v < n ==> #[trigger] verts.contains(v),
                verts == Seq::new(n as nat, |k: int| k as usize),
                forall|e: (usize, usize)|
                    complex.edges@.contains(e) <==> (rips_edge(close@, e.0 as int, e.1 as int)
                        && e.0 < i),
                forall|a: int, b: int|
                    0 <= a < b < complex.edges@.len() ==> pair_lt(
                        #[trigger] complex.edges@[a],
                        #[trigger] complex.edges@[b],
                    ),
                forall|a: int| 0 <= a < complex.edges@.len() ==> (#[trigger] complex.edges@[a]).0 < i,
                complex.triangles@.len() == 0,
                complex.tetrahedra@.len() == 0,
            decreases n - i,
        {
            let mut j: usize = i + 1;
            while j < n
                invariant
                    i < n,
                    i + 1 <= j <= n,
                    n == close@.len(),
                    proximity_wf(close@),
                    complex.wf(),
                    complex.vertices@ == verts,
                    forall|v: usize| v < n ==> #[trigger] verts.contains(v),
                    forall|e: (usize, usize)|
                        complex.edges@.contains(e) <==> (rips_edge(close@, e.0 as int, e.1 as int)
                            && (e.0 < i || (e.0 == i && e.1 < j))),
                    forall|a: int, b: int|
                        0 <= a < b < complex.edges@.len() ==> pair_lt(
                            #[trigger] complex.edges@[a],
                            #[trigger] complex.edges@[b],
                        ),
                    forall|a: int|
                        0 <= a < complex.edges@.len() ==> pair_lt(
                            #[trigger] complex.edges@[a],
                            (i, j),
                        ),
                    complex.triangles@.len() == 0,
                    complex.tetrahedra@.len() == 0,
                decreases n - j,
            {
                if close[i][j] {
                    let ghost e0 = complex.edges@;
                    proof {
                        lemma_seq_insert(verts, i);
                        lemma_seq_insert(verts, j);
                        assert(!e0.contains((i, j))) by {
                            if e0.contains((i, j)) {
                                let k = choose|k: int| 0 <= k < e0.len() && e0[k] == (i, j);
                                assert(pair_lt(e0[k], (i, j)));
                            }
                        }
                    }
                    complex.add_edge(i, j);
                    proof {
                        assert(complex.edges@ == e0.push((i, j)));
                        lemma_seq_insert(e0, (i, j));
                        assert forall|a: int, b: int|
                            0 <= a < b < complex.edges@.len() implies pair_lt(
                                #[trigger] complex.edges@[a],
                                #[trigger] complex.edges@[b],
                            ) by {
                            if b == e0.len() {
                                assert(pair_lt(e0[a], (i, j)));
                            } else {
                                assert(complex.edges@[a] == e0[a]);
                                assert(complex.edges@[b] == e0[b]);
                            }
                        }
                    }
                }
                j = j + 1;
            }
            i = i + 1;
        }
        let ghost edges = complex.edges@;
        i = 0;
        while i < n
            invariant
                i <= n,
                n == close@.len(),
                proximity_wf(close@),
                complex.wf(),
                complex.vertices@ == verts,
                complex.edges@ == edges,
                forall|v: usize| v < n ==> #[trigger] verts.contains(v),
                forall|e: (usize, usize)|
                    edges.contains(e) <==> rips_edge(close@, e.0 as int, e.1 as int),
                forall|t: (usize, usize, usize)|
                    complex.triangles@.contains(t) <==> (rips_triangle(
                        close@,
                        t.0 as int,
                        t.1 as int,
                        t.2 as int,
                    ) && t.0 < i),
                forall|a: int, b: int|
                    0 <= a < b < complex.triangles@.len() ==> triple_lt(
                        #[trigger] complex.triangles@[a],
                        #[trigger] complex.triangles@[b],
                    ),
                forall|a: int|
                    0 <= a < complex.triangles@.len() ==> (#[trigger] complex.triangles@[a]).0 < i,
                complex.tetrahedra@.len() == 0,
            decreases n - i,
        {
            let mut j: usize = i + 1;
            while j < n
                invariant
                    i < n,
                    i + 1 <= j <= n,
                    n == close@.len(),
                    proximity_wf(close@),
                    complex.wf(),
                    complex.vertices@ == verts,
                    complex.edges@ == edges,
                    forall|v: usize| v < n ==> #[trigger] verts.contains(v),
                    forall|e: (usize, usize)|
                        edges.contains(e) <==> rips_edge(close@, e.0 as int, e.1 as int),
                    forall|t: (usize, usize, usize)|
                        complex.triangles@.contains(t) <==> (rips_triangle(
                            close@,
                            t.0 as int,
                            t.1 as int,
                            t.2 as int,
                        ) && (t.0 < i || (t.0 == i && t.1 < j))),
                    forall|a: int, b: int|
                        0 <= a < b < complex.triangles@.len() ==> triple_lt(
                            #[trigger] complex.triangles@[a],
                            #[trigger] complex.triangles@[b],
                        ),
                    forall|a: int|
                        0 <= a < complex.triangles@.len() ==> triple_lt(
                            #[trigger] complex.triangles@[a],
                            (i, j, j),
                        ),
                    complex.tetrahedra@.len() == 0,
                decreases n - j,
            {
                let mut k: usize = j + 1;
                while k < n
                    invariant
                        i < j < n,
                        j + 1 <= k <= n,
                        n == close@.len(),
                        proximity_wf(close@),
                        complex.wf(),
                        complex.vertices@ == verts,
                        complex.edges@ == edges,
                        forall|v: usize| v < n ==> #[trigger] verts.contains(v),
                        forall|e: (usize, usize)|
                            edges.contains(e) <==> rips_edge(close@, e.0 as int, e.1 as int),
                        forall|t: (usize, usize, usize)|
                            complex.triangles@.contains(t) <==> (rips_triangle(
                                close@,
                                t.0 as int,
                                t.1 as int,
                                t.2 as int,
                            ) && (t.0 < i || (t.0 == i && t.1 < j) || (t.0 == i && t.1 == j
                                && t.2 < k))),
                        forall|a: int, b: int|
                            0 <= a < b < complex.triangles@.len() ==> triple_lt(
                                #[trigger] complex.triangles@[a],
                                #[trigger] complex.triangles@[b],
                            ),
                        forall|a: int|
                            0 <= a < complex.triangles@.len() ==> triple_lt(
                                #[trigger] complex.triangles@[a],
                                (i, j, k),
                            ),
                        complex.tetrahedra@.len() == 0,
                    decreases n - k,
                {
                    if close[i][j] && close[j][k] && close[i][k] {
                        let ghost t0 = complex.triangles@;
                        proof {
                            lemma_seq_insert(verts, i);
                            lemma_seq_insert(verts, j);
                            lemma_seq_insert(verts, k);
                            assert(edges.contains((i, j)));
                            assert(edges.contains((j, k)));
                            assert(edges.contains((i, k)));
                            lemma_seq_insert(edges, (i, j));
                            lemma_seq_insert(edges, (j, k));
                            lemma_seq_insert(edges, (i, k));
                            assert(!t0.contains((i, j, k))) by {
                                if t0.contains((i, j, k)) {
                                    let m = choose|m: int| 0 <= m < t0.len() && t0[m] == (i, j, k);
                                    assert(triple_lt(t0[m], (i, j, k)));
                                }
                            }
                        }
                        complex.add_triangle(i, j, k);
                        proof {
                            assert(complex.triangles@ == t0.push((i, j, k)));
                            lemma_seq_insert(t0, (i, j, k));
                            assert forall|a: int, b: int|
                                0 <= a < b < complex.triangles@.len() implies triple_lt(
                                    #[trigger] complex.triangles@[a],
                                    #[trigger] complex.triangles@[b],
                                ) by {
                                if b == t0.len() {
                                    assert(triple_lt(t0[a], (i, j, k)));
                                } else {
                                    assert(complex.triangles@[a] == t0[a]);
                                    assert(complex.triangles@[b] == t0[b]);
                                }
                            }
                        }
                    }
                    k = k + 1;
                }
                j = j + 1;
            }
            i = i + 1;
        }
        complex
    }
}

} // verus!
