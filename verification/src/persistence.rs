//! Persistence diagrams for tracking topological features across scales.
//!
//! Birth and death values are carried as an opaque type `T`: the structure of
//! a diagram (which pairs it holds, in which order, in which dimension) is
//! independent of how the scale values are represented.

use vstd::prelude::*;

verus! {

/// A birth-death pair in a persistence diagram.
#[derive(Debug, Clone, Copy, PartialEq)]
pub struct PersistencePair<T> {
    pub birth: T,
    pub death: T,
    pub dimension: usize,
}

impl<T> PersistencePair<T> {
    /// Create a new persistence pair.
    pub fn new(birth: T, death: T, dimension: usize) -> (p: Self)
        ensures
            p.birth == birth,
            p.death == death,
            p.dimension == dimension,
    {
        Self { birth, death, dimension }
    }
}

/// A persistence diagram: collection of birth-death pairs.
#[derive(Debug, Clone)]
pub struct PersistenceDiagram<T> {
    pub pairs: Vec<PersistencePair<T>>,
}

/// The pairs of `pairs` in dimension `dim`, in their order.
pub open spec fn pairs_in_dimension<T>(pairs: Seq<PersistencePair<T>>, dim: usize) -> Seq<
    PersistencePair<T>,
>
    decreases pairs.len(),
{
    if pairs.len() == 0 {
        Seq::empty()
    } else {
        let rest = pairs_in_dimension(pairs.drop_last(), dim);
        if pairs.last().dimension == dim {
            rest.push(pairs.last())
        } else {
            rest
        }
    }
}

/// Filtering by dimension keeps exactly the pairs of that dimension: a pair
/// is in the filter of `dim` if and only if it is in the diagram and has
/// dimension `dim`, and the filter is never longer than the diagram.
pub proof fn lemma_pairs_in_dimension<T>(pairs: Seq<PersistencePair<T>>, dim: usize)
    ensures
        forall|p: PersistencePair<T>|
            #[trigger] pairs_in_dimension(pairs, dim).contains(p) <==> (pairs.contains(p)
                && p.dimension == dim),
        pairs_in_dimension(pairs, dim).len() <= pairs.len(),
    decreases pairs.len(),
{
    if pairs.len() > 0 {
        let rest = pairs.drop_last();
        lemma_pairs_in_dimension(rest, dim);
        assert forall|p: PersistencePair<T>| #[trigger] pairs.contains(p) <==> (rest.contains(p) || p == pairs.last()) by {
            if pairs.contains(p) {
                let i = choose|i: int| 0 <= i < pairs.len() && pairs[i] == p;
                if i < rest.len() {
                    assert(rest[i] == p);
                }
            }
            if rest.contains(p) {
                let i = choose|i: int| 0 <= i < rest.len() && rest[i] == p;
                assert(pairs[i] == p);
            }
            if p == pairs.last() {
                assert(pairs[pairs.len() - 1] == p);
            }
        }
        let f = pairs_in_dimension(rest, dim);
        if pairs.last().dimension == dim {
            assert forall|p: PersistencePair<T>| #[trigger] f.push(pairs.last()).contains(p) <==> (f.contains(p) || p == pairs.last()) by {
                let g = f.push(pairs.last());
                if g.contains(p) {
                    let i = choose|i: int| 0 <= i < g.len() && g[i] == p;
                    if i < f.len() {
                        assert(f[i] == p);
                    }
                }
                if f.contains(p) {
                    let i = choose|i: int| 0 <= i < f.len() && f[i] == p;
                    assert(g[i] == p);
                }
                if p == pairs.last() {
                    assert(g[f.len() as int] == p);
                }
            }
        }
    }
}

impl<T> PersistenceDiagram<T> {
    /// Create an empty diagram.
    pub fn new() -> (d: Self)
        ensures
            d.pairs@.len() == 0,
    {
        Self { pairs: vec![] }
    }

    /// Add a pair.
    pub fn add(&mut self, birth: T, death: T, dimension: usize)
        ensures
            final(self).pairs@ == old(self).pairs@.push(
                PersistencePair { birth, death, dimension },
            ),
    {
        self.pairs.push(PersistencePair::new(birth, death, dimension));
    }

    /// Filter pairs by dimension.
    pub fn filter_dimension(&self, dim: usize) -> (r: Vec<&PersistencePair<T>>)
        ensures
            r@.map_values(|p: &PersistencePair<T>| *p) == pairs_in_dimension(self.pairs@, dim),
    {
        let mut r: Vec<&PersistencePair<T>> = Vec::new();
        let mut i: usize = 0;
        while i < self.pairs.len()
            invariant
                i <= self.pairs@.len(),
                r@.map_values(|p: &PersistencePair<T>| *p) == pairs_in_dimension(
                    self.pairs@.subrange(0, i as int),
                    dim,
                ),
            decreases self.pairs@.len() - i,
        {
            let ghost before = r@;
            let p = &self.pairs[i];
            proof {
                let s = self.pairs@.subrange(0, i + 1);
                assert(s.drop_last() =~= self.pairs@.subrange(0, i as int));
                assert(s.last() == *p);
            }
            if p.dimension == dim {
                r.push(p);
                assert(r@.map_values(|p: &PersistencePair<T>| *p) =~= before.map_values(
                    |p: &PersistencePair<T>| *p,
                ).push(*p));
            }
            i = i + 1;
        }
        assert(self.pairs@.subrange(0, self.pairs@.len() as int) =~= self.pairs@);
        r
    }

    /// Number of pairs.
    pub fn len(&self) -> (r: usize)
        ensures
            r == self.pairs@.len(),
    {
        self.pairs.len()
    }

    pub fn is_empty(&self) -> (r: bool)
        ensures
            r == (self.pairs@.len() == 0),
    {
        self.pairs.len() == 0
    }
}

} // verus!
