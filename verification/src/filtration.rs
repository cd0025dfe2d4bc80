//! Filtration: a sequence of nested simplicial complexes.
//!
//! Thresholds are carried as an opaque type `T`. Persistence is computed as a
//! list of bars over filtration steps: each feature is born at the step where
//! it appears and dies at the step where it disappears, or is essential.
//! Turning a bar into a birth-death pair only reads the thresholds of those
//! steps.

use vstd::prelude::*;

use crate::simplicial::SimplicialComplex;

verus! {

/// A filtration: an increasing sequence of simplicial complexes.
pub struct Filtration<T> {
    /// The complexes at each threshold.
    pub complexes: Vec<(T, SimplicialComplex)>,
}

/// The dimension of a persistence feature.
#[derive(Debug, Clone, Copy, PartialEq, Eq)]
pub enum FeatureKind {
    /// A connected component (dimension 0).
    Component,
    /// A one-dimensional hole, a loop that is not filled (dimension 1).
    Loop,
}

/// A persistence bar: a feature of `kind` first present at filtration step
/// `birth_step` and dying at `death_step` (always a later step), or essential
/// (never dying) where `death_step` is `None`.
///
/// A component is a feature of the points themselves, present from scale
/// zero: its birth value is zero whatever step it first appears at. A loop
/// is born at the scale of `birth_step`.
#[derive(Debug, Clone, Copy, PartialEq, Eq)]
pub struct PersistenceEvent {
    pub kind: FeatureKind,
    pub birth_step: usize,
    pub death_step: Option<usize>,
}

/// β₀ of `c` as its Betti numbers report it (0 for a complex without
/// vertices).
pub open spec fn reported_components(c: SimplicialComplex) -> nat {
    if c.vertices@.len() == 0 {
        0
    } else {
        c.betti0()
    }
}

/// β₁ of `c` as its Betti numbers report it (0 for a complex without
/// vertices).
pub open spec fn reported_loops(c: SimplicialComplex) -> nat {
    if c.vertices@.len() == 0 {
        0
    } else {
        c.betti1()
    }
}

/// The alive features (their birth steps, oldest first) after step `s`
/// where `c` features are alive: new features are born at `s`, or the
/// youngest die.
pub open spec fn next_alive(alive: Seq<usize>, c: nat, s: usize) -> Seq<usize> {
    if c >= alive.len() {
        alive + Seq::new((c - alive.len()) as nat, |i: int| s)
    } else {
        alive.take(c as int)
    }
}

/// The bars closed at step `s` when only `c` of the `alive` features
/// survive: the youngest die first.
pub open spec fn deaths(alive: Seq<usize>, c: nat, s: usize, kind: FeatureKind) -> Seq<
    PersistenceEvent,
> {
    if c >= alive.len() {
        Seq::empty()
    } else {
        Seq::new(
            (alive.len() - c) as nat,
            |i: int|
                PersistenceEvent {
                    kind,
                    birth_step: alive[alive.len() - 1 - i],
                    death_step: Some(s),
                },
        )
    }
}

/// After the first `k` steps of `cs`: the alive components, the alive
/// loops, and the bars closed so far.
pub open spec fn bar_state(cs: Seq<SimplicialComplex>, k: nat) -> (
    Seq<usize>,
    Seq<usize>,
    Seq<PersistenceEvent>,
)
    decreases k,
{
    if k == 0 {
        (Seq::empty(), Seq::empty(), Seq::empty())
    } else {
        let (a0, a1, out) = bar_state(cs, (k - 1) as nat);
        let s = (k - 1) as usize;
        let c0 = reported_components(cs[k - 1]);
        let c1 = reported_loops(cs[k - 1]);
        (
            next_alive(a0, c0, s),
            next_alive(a1, c1, s),
            out + deaths(a0, c0, s, FeatureKind::Component) + deaths(a1, c1, s, FeatureKind::Loop),
        )
    }
}

/// The essential bars of the features born at `alive`.
pub open spec fn essentials(alive: Seq<usize>, kind: FeatureKind) -> Seq<PersistenceEvent> {
    alive.map_values(|b: usize| PersistenceEvent { kind, birth_step: b, death_step: None })
}

/// All bars of the filtration with complexes `cs`: those closed along the
/// way, then the essential components, then the essential loops.
pub open spec fn persistence_events_spec(cs: Seq<SimplicialComplex>) -> Seq<PersistenceEvent> {
    let (a0, a1, out) = bar_state(cs, cs.len());
    out + essentials(a0, FeatureKind::Component) + essentials(a1, FeatureKind::Loop)
}

/// `e` is a bar that died at a step below `k`, after its birth step.
pub open spec fn closed_before(e: PersistenceEvent, k: nat) -> bool {
    match e.death_step {
        Some(d) => e.birth_step < d && d < k,
        None => false,
    }
}

/// `e` is born strictly before it dies, if it dies.
pub open spec fn born_before_death(e: PersistenceEvent) -> bool {
    match e.death_step {
        Some(d) => e.birth_step < d,
        None => true,
    }
}

/// Along the filtration, the features alive after step `k - 1` number that
/// step's Betti numbers, were born at or before it, oldest first; and every
/// closed bar was born strictly before it died.
pub proof fn lemma_bar_state(cs: Seq<SimplicialComplex>, k: nat)
    requires
        k <= cs.len(),
        cs.len() <= usize::MAX,
    ensures
        ({
            let (a0, a1, out) = bar_state(cs, k);
            &&& k > 0 ==> a0.len() == reported_components(cs[k - 1])
            &&& k > 0 ==> a1.len() == reported_loops(cs[k - 1])
            &&& k == 0 ==> a0.len() == 0 && a1.len() == 0
            &&& forall|i: int| 0 <= i < a0.len() ==> #[trigger] a0[i] < k
            &&& forall|i: int| 0 <= i < a1.len() ==> #[trigger] a1[i] < k
            &&& forall|i: int, j: int| 0 <= i < j < a0.len() ==> a0[i] <= a0[j]
            &&& forall|i: int, j: int| 0 <= i < j < a1.len() ==> a1[i] <= a1[j]
            &&& forall|i: int|
                0 <= i < out.len() ==> closed_before(#[trigger] out[i], k)
        }),
    decreases k,
{
    if k > 0 {
        lemma_bar_state(cs, (k - 1) as nat);
        let (a0, a1, out) = bar_state(cs, (k - 1) as nat);
        let s = (k - 1) as usize;
        let c0 = reported_components(cs[k - 1]);
        let c1 = reported_loops(cs[k - 1]);
        let d0 = deaths(a0, c0, s, FeatureKind::Component);
        let d1 = deaths(a1, c1, s, FeatureKind::Loop);
        let out2 = out + d0 + d1;
        assert forall|i: int| 0 <= i < out2.len() implies closed_before(#[trigger] out2[i], k) by {
            if i < out.len() {
                assert(out2[i] == out[i]);
            } else if i < out.len() + d0.len() {
                assert(out2[i] == d0[i - out.len()]);
                assert(a0[a0.len() - 1 - (i - out.len())] < k - 1);
            } else {
                assert(out2[i] == d1[i - out.len() - d0.len()]);
                assert(a1[a1.len() - 1 - (i - out.len() - d0.len())] < k - 1);
            }
        }
    }
}

/// Every bar is born before it dies: the closed bars are born strictly
/// before their death step, and there is one essential component per
/// component and one essential loop per loop of the last complex.
pub proof fn lemma_bars(cs: Seq<SimplicialComplex>)
    requires
        0 < cs.len() <= usize::MAX,
    ensures
        ({
            let ev = persistence_events_spec(cs);
            &&& forall|i: int|
                0 <= i < ev.len() ==> born_before_death(#[trigger] ev[i])
            &&& forall|i: int| 0 <= i < ev.len() ==> (#[trigger] ev[i]).birth_step < cs.len()
        }),
        bar_state(cs, cs.len()).0.len() == reported_components(cs.last()),
        bar_state(cs, cs.len()).1.len() == reported_loops(cs.last()),
{
    lemma_bar_state(cs, cs.len());
    let (a0, a1, out) = bar_state(cs, cs.len());
    let e0 = essentials(a0, FeatureKind::Component);
    let e1 = essentials(a1, FeatureKind::Loop);
    let ev = out + e0 + e1;
    assert forall|i: int| 0 <= i < ev.len() implies (#[trigger] ev[i]).birth_step < cs.len()
        && born_before_death(ev[i]) by {
        if i < out.len() {
            assert(ev[i] == out[i]);
        } else if i < out.len() + e0.len() {
            assert(ev[i] == e0[i - out.len()]);
            assert(a0[i - out.len()] < cs.len());
        } else {
            assert(ev[i] == e1[i - out.len() - e0.len()]);
            assert(a1[i - out.len() - e0.len()] < cs.len());
        }
    }
}

/// `e` is a bar of `kind` alive at step `s`: first present at or before
/// `s`, and not dead at `s`.
pub open spec fn alive_at(e: PersistenceEvent, kind: FeatureKind, s: int) -> bool {
    &&& e.kind == kind
    &&& e.birth_step <= s
    &&& match e.death_step {
        Some(d) => s < d,
        None => true,
    }
}

/// Number of bars of `kind` in `ev` alive at step `s`.
pub open spec fn count_alive(ev: Seq<PersistenceEvent>, kind: FeatureKind, s: int) -> nat
    decreases ev.len(),
{
    if ev.len() == 0 {
        0
    } else {
        count_alive(ev.drop_last(), kind, s) + if alive_at(ev.last(), kind, s) {
            1nat
        } else {
            0nat
        }
    }
}

proof fn lemma_count_alive_concat(
    a: Seq<PersistenceEvent>,
    b: Seq<PersistenceEvent>,
    kind: FeatureKind,
    s: int,
)
    ensures
        count_alive(a + b, kind, s) == count_alive(a, kind, s) + count_alive(b, kind, s),
    decreases b.len(),
{
    if b.len() > 0 {
        lemma_count_alive_concat(a, b.drop_last(), kind, s);
        assert((a + b).drop_last() =~= a + b.drop_last());
    }
}

/// Number of entries of `b` at most `s`.
spec fn count_le(b: Seq<usize>, s: int) -> nat
    decreases b.len(),
{
    if b.len() == 0 {
        0
    } else {
        count_le(b.drop_last(), s) + if b.last() <= s {
            1nat
        } else {
            0nat
        }
    }
}

proof fn lemma_count_le_concat(a: Seq<usize>, b: Seq<usize>, s: int)
    ensures
        count_le(a + b, s) == count_le(a, s) + count_le(b, s),
    decreases b.len(),
{
    if b.len() > 0 {
        lemma_count_le_concat(a, b.drop_last(), s);
        assert((a + b).drop_last() =~= a + b.drop_last());
    }
}

proof fn lemma_count_le_reverse(b: Seq<usize>, s: int)
    ensures
        count_le(b.reverse(), s) == count_le(b, s),
    decreases b.len(),
{
    if b.len() > 0 {
        lemma_count_le_reverse(b.drop_last(), s);
        assert(b.reverse() =~= seq![b.last()] + b.drop_last().reverse());
        lemma_count_le_concat(seq![b.last()], b.drop_last().reverse(), s);
        let one = seq![b.last()];
        assert(one.drop_last() =~= Seq::<usize>::empty());
        assert(one.last() == b.last());
        assert(count_le(Seq::<usize>::empty(), s) == 0);
        assert(count_le(one, s) == count_le(one.drop_last(), s) + if one.last() <= s {
            1nat
        } else {
            0nat
        });
    } else {
        assert(b.reverse() =~= Seq::<usize>::empty());
    }
}

proof fn lemma_count_le_all(b: Seq<usize>, s: int)
    requires
        forall|i: int| 0 <= i < b.len() ==> b[i] <= s,
    ensures
        count_le(b, s) == b.len(),
    decreases b.len(),
{
    if b.len() > 0 {
        lemma_count_le_all(b.drop_last(), s);
    }
}

proof fn lemma_count_le_none(b: Seq<usize>, s: int)
    requires
        forall|i: int| 0 <= i < b.len() ==> b[i] > s,
    ensures
        count_le(b, s) == 0,
    decreases b.len(),
{
    if b.len() > 0 {
        lemma_count_le_none(b.drop_last(), s);
    }
}

/// Bars of `kind` born at the steps `b`, all with death `death`.
spec fn bars_of(b: Seq<usize>, kind: FeatureKind, death: Option<usize>) -> Seq<PersistenceEvent> {
    b.map_values(|x: usize| PersistenceEvent { kind, birth_step: x, death_step: death })
}

proof fn lemma_count_alive_bars(
    b: Seq<usize>,
    k2: FeatureKind,
    death: Option<usize>,
    kind: FeatureKind,
    s: int,
)
    ensures
        count_alive(bars_of(b, k2, death), kind, s) == if k2 == kind && match death {
            Some(d) => s < d,
            None => true,
        } {
            count_le(b, s)
        } else {
            0
        },
    decreases b.len(),
{
    if b.len() > 0 {
        lemma_count_alive_bars(b.drop_last(), k2, death, kind, s);
        assert(bars_of(b, k2, death).drop_last() =~= bars_of(b.drop_last(), k2, death));
    }
}

/// All bars known after `k` steps: those closed, and the alive features as
/// essential.
spec fn bar_view(cs: Seq<SimplicialComplex>, k: nat) -> Seq<PersistenceEvent> {
    let (a0, a1, out) = bar_state(cs, k);
    out + essentials(a0, FeatureKind::Component) + essentials(a1, FeatureKind::Loop)
}

/// Counting bars alive at each step of a part of the filtration.
proof fn lemma_alive_step(
    a: Seq<usize>,
    c: nat,
    k: usize,
    kk: FeatureKind,
    kind: FeatureKind,
    s: int,
)
    requires
        s < k,
    ensures
        count_alive(deaths(a, c, k, kk), kind, s) + count_alive(
            essentials(next_alive(a, c, k), kk),
            kind,
            s,
        ) == count_alive(essentials(a, kk), kind, s),
{
    assert(essentials(a, kk) =~= bars_of(a, kk, None));
    assert(essentials(next_alive(a, c, k), kk) =~= bars_of(next_alive(a, c, k), kk, None));
    lemma_count_alive_bars(a, kk, None, kind, s);
    lemma_count_alive_bars(next_alive(a, c, k), kk, None, kind, s);
    if c >= a.len() {
        assert(deaths(a, c, k, kk) =~= Seq::<PersistenceEvent>::empty());
        let fresh = Seq::new((c - a.len()) as nat, |i: int| k);
        lemma_count_le_concat(a, fresh, s);
        lemma_count_le_none(fresh, s);
    } else {
        let gone = a.skip(c as int);
        assert(deaths(a, c, k, kk) =~= bars_of(gone.reverse(), kk, Some(k)));
        lemma_count_alive_bars(gone.reverse(), kk, Some(k), kind, s);
        lemma_count_le_reverse(gone, s);
        assert(a =~= a.take(c as int) + gone);
        lemma_count_le_concat(a.take(c as int), gone, s);
    }
}

proof fn lemma_bar_view(cs: Seq<SimplicialComplex>, k: nat)
    requires
        k <= cs.len() <= usize::MAX,
    ensures
        forall|s: int|
            0 <= s < k ==> count_alive(bar_view(cs, k), FeatureKind::Component, s)
                == reported_components(#[trigger] cs[s]) && count_alive(
                bar_view(cs, k),
                FeatureKind::Loop,
                s,
            ) == reported_loops(cs[s]),
    decreases k,
{
    if k > 0 {
        let k0 = (k - 1) as nat;
        lemma_bar_view(cs, k0);
        lemma_bar_state(cs, k0);
        lemma_bar_state(cs, k);
        let (a0, a1, out) = bar_state(cs, k0);
        let st = k0 as usize;
        let c0 = reported_components(cs[k0 as int]);
        let c1 = reported_loops(cs[k0 as int]);
        let d0 = deaths(a0, c0, st, FeatureKind::Component);
        let d1 = deaths(a1, c1, st, FeatureKind::Loop);
        let n0 = essentials(next_alive(a0, c0, st), FeatureKind::Component);
        let n1 = essentials(next_alive(a1, c1, st), FeatureKind::Loop);
        let e0 = essentials(a0, FeatureKind::Component);
        let e1 = essentials(a1, FeatureKind::Loop);
        assert(bar_view(cs, k) == out + d0 + d1 + n0 + n1);
        assert(bar_view(cs, k0) == out + e0 + e1);
        assert forall|s: int|
            0 <= s < k implies count_alive(bar_view(cs, k), FeatureKind::Component, s)
                == reported_components(#[trigger] cs[s]) && count_alive(
                bar_view(cs, k),
                FeatureKind::Loop,
                s,
            ) == reported_loops(cs[s]) by {
            let kinds = seq![FeatureKind::Component, FeatureKind::Loop];
            assert forall|q: int| 0 <= q < 2 implies {
                let kind = #[trigger] kinds[q];
                count_alive(bar_view(cs, k), kind, s) == if kind == FeatureKind::Component {
                    reported_components(cs[s])
                } else {
                    reported_loops(cs[s])
                }
            } by {
                let kind = kinds[q];
                lemma_count_alive_concat(out, d0, kind, s);
                lemma_count_alive_concat(out + d0, d1, kind, s);
                lemma_count_alive_concat(out + d0 + d1, n0, kind, s);
                lemma_count_alive_concat(out + d0 + d1 + n0, n1, kind, s);
                if s < k0 {
                    lemma_count_alive_concat(out, e0, kind, s);
                    lemma_count_alive_concat(out + e0, e1, kind, s);
                    lemma_alive_step(a0, c0, st, FeatureKind::Component, kind, s);
                    lemma_alive_step(a1, c1, st, FeatureKind::Loop, kind, s);
                } else {
                    // s is the new step: closed bars died before it, bars
                    // dying at it are not alive, and every alive feature
                    // was born at or before it.
                    lemma_count_alive_none_closed(out, kind, s);
                    lemma_deaths_not_alive(a0, c0, st, FeatureKind::Component, kind, s);
                    lemma_deaths_not_alive(a1, c1, st, FeatureKind::Loop, kind, s);
                    let m0 = next_alive(a0, c0, st);
                    let m1 = next_alive(a1, c1, st);
                    assert(n0 =~= bars_of(m0, FeatureKind::Component, None));
                    assert(n1 =~= bars_of(m1, FeatureKind::Loop, None));
                    lemma_count_alive_bars(m0, FeatureKind::Component, None, kind, s);
                    lemma_count_alive_bars(m1, FeatureKind::Loop, None, kind, s);
                    lemma_count_le_all(m0, s);
                    lemma_count_le_all(m1, s);
                }
            }
            assert(kinds[0] == FeatureKind::Component);
            assert(kinds[1] == FeatureKind::Loop);
        }
    }
}

proof fn lemma_count_alive_none_closed(out: Seq<PersistenceEvent>, kind: FeatureKind, s: int)
    requires
        forall|i: int| 0 <= i < out.len() ==> closed_before(#[trigger] out[i], (s + 1) as nat),
        s >= 0,
    ensures
        count_alive(out, kind, s) == 0,
    decreases out.len(),
{
    if out.len() > 0 {
        assert forall|i: int| 0 <= i < out.len() - 1 implies closed_before(#[trigger] out.drop_last()[i], (s + 1) as nat) by {
            assert(out.drop_last()[i] == out[i]);
        }
        lemma_count_alive_none_closed(out.drop_last(), kind, s);
        assert(closed_before(out[out.len() - 1], (s + 1) as nat));
    }
}

proof fn lemma_deaths_not_alive(
    a: Seq<usize>,
    c: nat,
    k: usize,
    kk: FeatureKind,
    kind: FeatureKind,
    s: int,
)
    requires
        s == k,
    ensures
        count_alive(deaths(a, c, k, kk), kind, s) == 0,
{
    if c >= a.len() {
        assert(deaths(a, c, k, kk) =~= Seq::<PersistenceEvent>::empty());
    } else {
        let gone = a.skip(c as int);
        assert(deaths(a, c, k, kk) =~= bars_of(gone.reverse(), kk, Some(k)));
        lemma_count_alive_bars(gone.reverse(), kk, Some(k), kind, s);
    }
}

/// The bars read off the output match the Betti numbers at every step: at
/// each step `s`, the component bars alive at `s` (first present at or
/// before `s`, not dead at `s`) number β₀ of the complex at `s`, and the loop
/// bars alive at `s` number its β₁. A bar therefore closes only at a step
/// where its Betti number falls, and a feature stays alive through every
/// step where it is still counted.
pub proof fn lemma_bars_match_betti(cs: Seq<SimplicialComplex>)
    requires
        cs.len() <= usize::MAX,
    ensures
        forall|s: int|
            0 <= s < cs.len() ==> count_alive(
                persistence_events_spec(cs),
                FeatureKind::Component,
                s,
            ) == reported_components(#[trigger] cs[s]) && count_alive(
                persistence_events_spec(cs),
                FeatureKind::Loop,
                s,
            ) == reported_loops(cs[s]),
{
    lemma_bar_view(cs, cs.len());
    assert(bar_view(cs, cs.len()) == persistence_events_spec(cs));
}

/// Number of bars of `kind` among `ev`.
pub open spec fn count_kind(ev: Seq<PersistenceEvent>, kind: FeatureKind) -> nat
    decreases ev.len(),
{
    if ev.len() == 0 {
        0
    } else {
        count_kind(ev.drop_last(), kind) + if ev.last().kind == kind {
            1nat
        } else {
            0nat
        }
    }
}

proof fn lemma_count_kind_concat(a: Seq<PersistenceEvent>, b: Seq<PersistenceEvent>, kind: FeatureKind)
    ensures
        count_kind(a + b, kind) == count_kind(a, kind) + count_kind(b, kind),
    decreases b.len(),
{
    if b.len() > 0 {
        lemma_count_kind_concat(a, b.drop_last(), kind);
        assert((a + b).drop_last() =~= a + b.drop_last());
    }
}

proof fn lemma_count_kind_uniform(ev: Seq<PersistenceEvent>, k2: FeatureKind, kind: FeatureKind)
    requires
        forall|i: int| 0 <= i < ev.len() ==> (#[trigger] ev[i]).kind == k2,
    ensures
        count_kind(ev, kind) == if k2 == kind {
            ev.len()
        } else {
            0
        },
    decreases ev.len(),
{
    if ev.len() > 0 {
        lemma_count_kind_uniform(ev.drop_last(), k2, kind);
    }
}

/// Each complex of `cs` is nested in the next: same vertices, and every
/// edge is an edge of the next complex.
pub open spec fn nested(cs: Seq<SimplicialComplex>) -> bool {
    forall|i: int|
        0 < i < cs.len() ==> {
            &&& (#[trigger] cs[i]).vertices@ == cs[i - 1].vertices@
            &&& forall|q: int|
                0 <= q < cs[i - 1].edges@.len() ==> cs[i].edges@.contains(
                    #[trigger] cs[i - 1].edges@[q],
                )
        }
}

proof fn lemma_component_bars_upto(cs: Seq<SimplicialComplex>, k: nat)
    requires
        1 <= k <= cs.len(),
        cs.len() <= usize::MAX,
        nested(cs),
    ensures
        count_kind(bar_state(cs, k).2, FeatureKind::Component) + reported_components(cs[k - 1])
            == reported_components(cs[0]),
        reported_components(cs[k - 1]) <= reported_components(cs[0]),
    decreases k,
{
    lemma_bar_state(cs, k);
    if k == 1 {
        assert(bar_state(cs, 0).2 =~= Seq::<PersistenceEvent>::empty());
        assert(bar_state(cs, 1).2 =~= Seq::<PersistenceEvent>::empty());
    } else {
        lemma_component_bars_upto(cs, (k - 1) as nat);
        lemma_bar_state(cs, (k - 1) as nat);
        let (a0, a1, out) = bar_state(cs, (k - 1) as nat);
        let s = (k - 1) as usize;
        let c0 = reported_components(cs[k - 1]);
        let c1 = reported_loops(cs[k - 1]);
        cs[k - 2].lemma_nested_components(cs[k - 1]);
        assert(c0 <= a0.len());
        let d0 = deaths(a0, c0, s, FeatureKind::Component);
        let d1 = deaths(a1, c1, s, FeatureKind::Loop);
        lemma_count_kind_uniform(d0, FeatureKind::Component, FeatureKind::Component);
        lemma_count_kind_uniform(d1, FeatureKind::Loop, FeatureKind::Component);
        lemma_count_kind_concat(out, d0, FeatureKind::Component);
        lemma_count_kind_concat(out + d0, d1, FeatureKind::Component);
    }
}

/// Every component of the first complex is accounted for exactly once: in
/// a nested filtration (as Vietoris-Rips at growing scales builds), the
/// component bars, closed and essential, number the components of the
/// first complex.
pub proof fn lemma_every_component_accounted(cs: Seq<SimplicialComplex>)
    requires
        0 < cs.len() <= usize::MAX,
        nested(cs),
    ensures
        count_kind(persistence_events_spec(cs), FeatureKind::Component) == reported_components(
            cs[0],
        ),
{
    lemma_component_bars_upto(cs, cs.len());
    lemma_bar_state(cs, cs.len());
    let (a0, a1, out) = bar_state(cs, cs.len());
    let e0 = essentials(a0, FeatureKind::Component);
    let e1 = essentials(a1, FeatureKind::Loop);
    lemma_count_kind_uniform(e0, FeatureKind::Component, FeatureKind::Component);
    lemma_count_kind_uniform(e1, FeatureKind::Loop, FeatureKind::Component);
    lemma_count_kind_concat(out, e0, FeatureKind::Component);
    lemma_count_kind_concat(out + e0, e1, FeatureKind::Component);
}

fn advance(
    alive: &mut Vec<usize>,
    c: usize,
    s: usize,
    kind: FeatureKind,
    out: &mut Vec<PersistenceEvent>,
)
    ensures
        final(alive)@ == next_alive(old(alive)@, c as nat, s),
        final(out)@ == old(out)@ + deaths(old(alive)@, c as nat, s, kind),
{
    let ghost a = alive@;
    let ghost o = out@;
    if c >= alive.len() {
        while alive.len() < c
            invariant
                alive@.len() <= c,
                c >= a.len(),
                alive@ == a + Seq::new((alive@.len() - a.len()) as nat, |i: int| s),
                out@ == o,
            decreases c - alive@.len(),
        {
            alive.push(s);
            assert(alive@ =~= a + Seq::new((alive@.len() - a.len()) as nat, |i: int| s));
        }
        assert(out@ =~= o + deaths(a, c as nat, s, kind));
    } else {
        while alive.len() > c
            invariant
                c <= alive@.len() <= a.len(),
                c < a.len(),
                alive@ == a.take(alive@.len() as int),
                out@ == o + Seq::new(
                    (a.len() - alive@.len()) as nat,
                    |i: int| PersistenceEvent { kind, birth_step: a[a.len() - 1 - i], death_step: Some(s) },
                ),
            decreases alive@.len(),
        {
            let b = alive[alive.len() - 1];
            alive.pop();
            out.push(PersistenceEvent { kind, birth_step: b, death_step: Some(s) });
            assert(alive@ =~= a.take(alive@.len() as int));
            assert(out@ =~= o + Seq::new(
                (a.len() - alive@.len()) as nat,
                |i: int| PersistenceEvent { kind, birth_step: a[a.len() - 1 - i], death_step: Some(s) },
            ));
        }
        assert(out@ =~= o + deaths(a, c as nat, s, kind));
    }
}

fn push_essentials(alive: &Vec<usize>, kind: FeatureKind, out: &mut Vec<PersistenceEvent>)
    ensures
        final(out)@ == old(out)@ + essentials(alive@, kind),
{
    let ghost o = out@;
    let mut i: usize = 0;
    while i < alive.len()
        invariant
            i <= alive@.len(),
            out@ == o + essentials(alive@, kind).take(i as int),
        decreases alive@.len() - i,
    {
        out.push(PersistenceEvent { kind, birth_step: alive[i], death_step: None });
        assert(out@ =~= o + essentials(alive@, kind).take(i + 1));
        i = i + 1;
    }
    assert(essentials(alive@, kind).take(i as int) =~= essentials(alive@, kind));
}

impl<T> Filtration<T> {
    /// The complexes of the filtration, in order.
    pub open spec fn complex_seq(self) -> Seq<SimplicialComplex> {
        self.complexes@.map_values(|p: (T, SimplicialComplex)| p.1)
    }

    /// Create an empty filtration.
    pub fn new() -> (f: Self)
        ensures
            f.complexes@.len() == 0,
    {
        Self { complexes: vec![] }
    }

    /// Add a complex at a given threshold.
    pub fn add(&mut self, threshold: T, complex: SimplicialComplex)
        ensures
            final(self).complexes@ == old(self).complexes@.push((threshold, complex)),
    {
        self.complexes.push((threshold, complex));
    }

    /// Number of steps in the filtration.
    pub fn len(&self) -> (r: usize)
        ensures
            r == self.complexes@.len(),
    {
        self.complexes.len()
    }

    pub fn is_empty(&self) -> (r: bool)
        ensures
            r == (self.complexes@.len() == 0),
    {
        self.complexes.len() == 0
    }

    /// Compute persistent homology from this filtration, as bars over the
    /// steps. At each step the Betti numbers β₀ and β₁ are read; where one
    /// grows, new features of that dimension are born at the step, and where
    /// one falls, the youngest alive features of that dimension die at the
    /// step (the elder rule). The bars closed along the way come first, then
    /// the features alive at the end, essential: components, then loops.
    pub fn persistence_events(&self) -> (r: Vec<PersistenceEvent>)
        ensures
            r@ == persistence_events_spec(self.complex_seq()),
            forall|s: int|
                0 <= s < self.complexes@.len() ==> count_alive(r@, FeatureKind::Component, s)
                    == reported_components(#[trigger] self.complexes@[s].1) && count_alive(
                    r@,
                    FeatureKind::Loop,
                    s,
                ) == reported_loops(self.complexes@[s].1),
    {
        let n_steps = self.complexes.len();
        proof {
            lemma_bars_match_betti(self.complex_seq());
            assert forall|s: int| 0 <= s < self.complexes@.len() implies #[trigger] self.complexes@[s].1
                == self.complex_seq()[s] by {}
        }
        let ghost cs = self.complex_seq();
        let mut out: Vec<PersistenceEvent> = Vec::new();
        let mut alive0: Vec<usize> = Vec::new();
        let mut alive1: Vec<usize> = Vec::new();
        let mut s: usize = 0;
        while s < self.complexes.len()
            invariant
                cs == self.complex_seq(),
                s <= self.complexes@.len(),
                (alive0@, alive1@, out@) == bar_state(cs, s as nat),
            decreases self.complexes@.len() - s,
        {
            assert(cs[s as int] == self.complexes@[s as int].1);
            let betti = self.complexes[s].1.betti_numbers();
            let c0: usize = if betti.len() > 0 {
                betti[0]
            } else {
                0
            };
            let c1: usize = if betti.len() > 1 {
                betti[1]
            } else {
                0
            };
            let ghost a1 = alive1@;
            advance(&mut alive0, c0, s, FeatureKind::Component, &mut out);
            advance(&mut alive1, c1, s, FeatureKind::Loop, &mut out);
            proof {
                let (p0, p1, po) = bar_state(cs, s as nat);
                assert(a1 == p1);
                assert(out@ =~= po + deaths(p0, c0 as nat, s, FeatureKind::Component) + deaths(
                    p1,
                    c1 as nat,
                    s,
                    FeatureKind::Loop,
                ));
            }
            s = s + 1;
        }
        push_essentials(&alive0, FeatureKind::Component, &mut out);
        push_essentials(&alive1, FeatureKind::Loop, &mut out);
        out
    }
}

} // verus!
