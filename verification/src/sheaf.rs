//! Cellular sheaf: assigns data to cells of a complex with restriction maps.
//!
//! Matrix entries are carried as an opaque type `T`; the constructors take
//! the entry values they place (the unit and zero of an identity map, or the
//! weight used where none is given).

use vstd::prelude::*;

use crate::simplicial::SimplicialComplex;

verus! {

/// A cellular sheaf over a simplicial complex.
///
/// For each cell σ, assigns a vector space F(σ) (the "stalk").
/// For each face τ < σ, a linear restriction map F(σ) → F(τ).
pub struct CellularSheaf<T> {
    /// Dimension of the stalk at each vertex.
    pub stalk_dimension: usize,
    /// Restriction maps: edge (a,b) → maps from F(b) to F(a) and F(a) to F(b).
    /// Stored as matrices: restriction_maps[edge_idx] = (map_to_a, map_to_b).
    pub restriction_maps: Vec<(Vec<Vec<T>>, Vec<Vec<T>>)>,
    /// The underlying complex.
    pub complex: SimplicialComplex,
}

/// `m` is the `n`×`n` matrix with `one` on the diagonal and `zero` elsewhere.
pub open spec fn is_identity<T>(m: Vec<Vec<T>>, n: nat, one: T, zero: T) -> bool {
    &&& m@.len() == n
    &&& forall|i: int| 0 <= i < n ==> (#[trigger] m@[i])@.len() == n
    &&& forall|i: int, j: int|
        0 <= i < n && 0 <= j < n ==> (#[trigger] m@[i]@[j]) == if i == j {
            one
        } else {
            zero
        }
}

/// `m` is the 1×1 matrix holding `w`.
pub open spec fn is_scalar<T>(m: Vec<Vec<T>>, w: T) -> bool {
    m@.len() == 1 && m@[0]@ == seq![w]
}

fn identity<T: Copy>(n: usize, one: T, zero: T) -> (m: Vec<Vec<T>>)
    ensures
        is_identity(m, n as nat, one, zero),
{
    let mut m: Vec<Vec<T>> = Vec::new();
    let mut i: usize = 0;
    while i < n
        invariant
            i <= n,
            m@.len() == i,
            forall|a: int| 0 <= a < i ==> (#[trigger] m@[a])@.len() == n,
            forall|a: int, b: int|
                0 <= a < i && 0 <= b < n ==> (#[trigger] m@[a]@[b]) == if a == b {
                    one
                } else {
                    zero
                },
        decreases n - i,
    {
        let mut row: Vec<T> = Vec::new();
        let mut j: usize = 0;
        while j < n
            invariant
                j <= n,
                row@.len() == j,
                forall|b: int| 0 <= b < j ==> (#[trigger] row@[b]) == if i == b {
                    one
                } else {
                    zero
                },
            decreases n - j,
        {
            if i == j {
                row.push(one);
            } else {
                row.push(zero);
            }
            j = j + 1;
        }
        m.push(row);
        i = i + 1;
    }
    m
}

impl<T: Copy> CellularSheaf<T> {
    /// Create a constant sheaf: all stalks are R^n, all restriction maps are
    /// the identity, written with `one` on the diagonal and `zero` elsewhere.
    pub fn constant(complex: SimplicialComplex, stalk_dim: usize, one: T, zero: T) -> (s: Self)
        ensures
            s.stalk_dimension == stalk_dim,
            s.complex == complex,
            s.restriction_maps@.len() == complex.edges@.len(),
            forall|e: int|
                0 <= e < complex.edges@.len() ==> {
                    &&& is_identity((#[trigger] s.restriction_maps@[e]).0, stalk_dim as nat, one, zero)
                    &&& is_identity(s.restriction_maps@[e].1, stalk_dim as nat, one, zero)
                },
    {
        let mut maps: Vec<(Vec<Vec<T>>, Vec<Vec<T>>)> = Vec::new();
        let mut e: usize = 0;
        while e < complex.edges.len()
            invariant
                e <= complex.edges@.len(),
                maps@.len() == e,
                forall|k: int|
                    0 <= k < e ==> {
                        &&& is_identity((#[trigger] maps@[k]).0, stalk_dim as nat, one, zero)
                        &&& is_identity(maps@[k].1, stalk_dim as nat, one, zero)
                    },
            decreases complex.edges@.len() - e,
        {
            let to_a = identity(stalk_dim, one, zero);
            let to_b = identity(stalk_dim, one, zero);
            maps.push((to_a, to_b));
            e = e + 1;
        }
        Self { stalk_dimension: stalk_dim, restriction_maps: maps, complex }
    }

    /// Create a sheaf from weight functions on edges: edge `i` gets the 1×1
    /// restriction maps `[[weights[i]]]`, or `[[default]]` past the end of
    /// `weights`.
    pub fn from_weights(complex: SimplicialComplex, weights: &[T], default: T) -> (s: Self)
        ensures
            s.stalk_dimension == 1,
            s.complex == complex,
            s.restriction_maps@.len() == complex.edges@.len(),
            forall|e: int|
                0 <= e < complex.edges@.len() ==> {
                    let w = if e < weights@.len() {
                        weights@[e]
                    } else {
                        default
                    };
                    &&& is_scalar((#[trigger] s.restriction_maps@[e]).0, w)
                    &&& is_scalar(s.restriction_maps@[e].1, w)
                },
    {
        let mut maps: Vec<(Vec<Vec<T>>, Vec<Vec<T>>)> = Vec::new();
        let mut e: usize = 0;
        while e < complex.edges.len()
            invariant
                e <= complex.edges@.len(),
                maps@.len() == e,
                forall|k: int|
                    0 <= k < e ==> {
                        let w = if k < weights@.len() {
                            weights@[k]
                        } else {
                            default
                        };
                        &&& is_scalar((#[trigger] maps@[k]).0, w)
                        &&& is_scalar(maps@[k].1, w)
                    },
            decreases complex.edges@.len() - e,
        {
            let w = if e < weights.len() {
                weights[e]
            } else {
                default
            };
            let to_a = vec![vec![w]];
            let to_b = vec![vec![w]];
            assert(to_a@[0]@ =~= seq![w]);
            assert(to_b@[0]@ =~= seq![w]);
            maps.push((to_a, to_b));
            e = e + 1;
        }
        Self { stalk_dimension: 1, restriction_maps: maps, complex }
    }
}

/// H⁰ − H¹ = (V − E)·d: the Euler characteristic of the sheaf's cochain
/// complex (rank-nullity for the coboundary from vertex stalks to edge
/// stalks, whose rank is (V − β₀)·d). H¹ is never clamped, as a graph has at
/// least V − E components.
pub proof fn lemma_sheaf_euler<T>(s: CellularSheaf<T>)
    ensures
        s.h0() - s.h1() == (s.complex.vertices@.len() - s.complex.edges@.len())
            * s.stalk_dimension,
        s.h1() == s.complex.edges@.len() * s.stalk_dimension - (s.complex.vertices@.len()
            - s.complex.betti0()) * s.stalk_dimension,
{
    let v = s.complex.vertices@.len() as int;
    let e = s.complex.edges@.len() as int;
    let b = s.complex.betti0() as int;
    let d = s.stalk_dimension as int;
    s.complex.lemma_betti0_bound();
    assert(e * d >= (v - b) * d) by (nonlinear_arith)
        requires
            e >= v - b,
            d >= 0,
    ;
    assert(d * b - (e * d - (v - b) * d) == (v - e) * d) by (nonlinear_arith);
    assert(s.h0() == d * b);
    assert(s.h1() == e * d - (v - b) * d);
}

impl<T> CellularSheaf<T> {
    /// dim H⁰ = d·β₀, computed from the complex alone, without reading the
    /// restriction maps. It is the dimension of the global sections only
    /// where the two restriction maps on each edge are one and the same
    /// invertible map (the constant sheaf, or a weighted sheaf with no zero
    /// weight): there a global section takes one value of the stalk per
    /// connected component. Other maps can give other dimensions.
    pub open spec fn h0(self) -> int {
        self.stalk_dimension * self.complex.betti0()
    }

    /// dim H¹ = E·d − rank δ, the coboundary δ having rank (V − β₀)·d where
    /// each edge's two restriction maps are the same invertible map (as for
    /// `h0`); computed from the complex alone; 0 where negative, which
    /// `lemma_sheaf_euler` shows never happens.
    pub open spec fn h1(self) -> int {
        let e = self.complex.edges@.len() * self.stalk_dimension;
        let r = (self.complex.vertices@.len() - self.complex.betti0()) * self.stalk_dimension;
        if e > r {
            e - r
        } else {
            0
        }
    }

    /// Global sections: assignments of values to all cells that are compatible
    /// with the restriction maps. Returns the dimension of the global section
    /// space, d·β₀.
    pub fn global_section_dimension(&self) -> (r: usize)
        requires
            self.stalk_dimension * self.complex.betti0() <= usize::MAX,
        ensures
            r == self.h0(),
    {
        let b0 = self.complex.connected_components();
        self.stalk_dimension * b0
    }

    /// Sheaf cohomology H^0(F): the space of global sections.
    /// H^1(F): obstruction to extending local sections to global ones.
    pub fn cohomology_dimension(&self, degree: usize) -> (r: usize)
        requires
            degree == 0 ==> self.stalk_dimension * self.complex.betti0() <= usize::MAX,
            degree == 1 ==> self.complex.edges@.len() * self.stalk_dimension <= usize::MAX,
            degree == 1 ==> self.complex.vertices@.len() * self.stalk_dimension <= usize::MAX,
        ensures
            degree == 0 ==> r == self.h0(),
            degree == 1 ==> r == self.h1(),
            degree >= 2 ==> r == 0,
    {
        match degree {
            0 => self.global_section_dimension(),
            1 => {
                let n_edges = self.complex.edges.len();
                let n_verts = self.complex.vertices.len();
                let b0 = self.complex.connected_components();
                let d = self.stalk_dimension;
                proof {
                    let vv = n_verts as int;
                    let bb = b0 as int;
                    let dd = d as int;
                    assert((vv - bb) * dd <= vv * dd) by (nonlinear_arith)
                        requires
                            0 <= bb <= vv,
                            dd >= 0,
                    ;
                    assert((vv - bb) * dd >= 0) by (nonlinear_arith)
                        requires
                            0 <= bb <= vv,
                            dd >= 0,
                    ;
                }
                (n_edges * d).saturating_sub((n_verts - b0) * d)
            },
            _ => 0,
        }
    }
}

} // verus!
