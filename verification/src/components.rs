//! Connected components of a graph on the vertices `0..n`, found by
//! union-find with path halving.

use vstd::prelude::*;

verus! {

/// Component labels on `0..n` after the first `k` edges have been merged in
/// order. At the start every vertex is its own label; an edge `(a, b)` with
/// both ends below `n` whose ends carry different labels moves every vertex
/// labelled like `a` into the label of `b`. Edges with an end at `n` or above
/// are ignored.
pub open spec fn merge_labels(n: nat, edges: Seq<(usize, usize)>, k: nat) -> Seq<int>
    decreases k,
{
    if k == 0 {
        Seq::new(n, |i: int| i)
    } else {
        let l = merge_labels(n, edges, (k - 1) as nat);
        let (a, b) = edges[k - 1];
        if a < n && b < n && l[a as int] != l[b as int] {
            Seq::new(n, |i: int| if l[i] == l[a as int] { l[b as int] } else { l[i] })
        } else {
            l
        }
    }
}

/// Number of the first `k` vertices that are their own label: one per
/// component among them.
pub open spec fn count_representatives(l: Seq<int>, k: nat) -> nat
    decreases k,
{
    if k == 0 {
        0
    } else {
        count_representatives(l, (k - 1) as nat) + if l[k - 1] == k - 1 {
            1nat
        } else {
            0nat
        }
    }
}

/// Number of connected components of the graph on `0..n` whose edges are
/// those of `edges` with both ends below `n`.
pub open spec fn num_components(n: nat, edges: Seq<(usize, usize)>) -> nat {
    count_representatives(merge_labels(n, edges, edges.len()), n)
}

/// The labels name vertices of `0..n`, and each label labels itself.
pub open spec fn labels_wf(n: nat, l: Seq<int>) -> bool {
    &&& l.len() == n
    &&& forall|i: int| 0 <= i < n ==> 0 <= #[trigger] l[i] < n
    &&& forall|i: int| 0 <= i < n ==> l[#[trigger] l[i]] == l[i]
}

pub proof fn lemma_merge_labels_wf(n: nat, edges: Seq<(usize, usize)>, k: nat)
    requires
        k <= edges.len(),
    ensures
        labels_wf(n, merge_labels(n, edges, k)),
    decreases k,
{
    if k > 0 {
        lemma_merge_labels_wf(n, edges, (k - 1) as nat);
        let l = merge_labels(n, edges, (k - 1) as nat);
        let (a, b) = edges[k - 1];
        if a < n && b < n && l[a as int] != l[b as int] {
            let l2 = merge_labels(n, edges, k);
            assert forall|i: int| 0 <= i < n implies l2[#[trigger] l2[i]] == l2[i] by {
                if l[i] == l[a as int] {
                    assert(l[l[b as int]] == l[b as int]);
                } else {
                    assert(l[l[i]] == l[i]);
                }
            }
        }
    }
}

/// There are at most `k` representatives among the first `k` vertices.
pub proof fn lemma_count_representatives_bound(l: Seq<int>, k: nat)
    ensures
        count_representatives(l, k) <= k,
    decreases k,
{
    if k > 0 {
        lemma_count_representatives_bound(l, (k - 1) as nat);
    }
}

/// Union-find state: `parent` is a forest on `0..n` whose trees are the
/// classes of `lab`, with `dist` strictly falling along every parent link.
spec fn uf_inv(n: nat, parent: Seq<usize>, lab: Seq<int>, dist: Seq<nat>) -> bool {
    &&& parent.len() == n
    &&& dist.len() == n
    &&& labels_wf(n, lab)
    &&& forall|x: int| 0 <= x < n ==> (#[trigger] parent[x]) < n
    &&& forall|x: int| 0 <= x < n ==> lab[#[trigger] parent[x] as int] == lab[x]
    &&& forall|x: int| 0 <= x < n ==> (parent[#[trigger] lab[x]] == lab[x])
    &&& forall|x: int| 0 <= x < n && #[trigger] parent[x] == x ==> lab[x] == x
    &&& forall|x: int|
        0 <= x < n && #[trigger] parent[x] != x ==> dist[parent[x] as int] < dist[x]
}

/// Root of `v`'s tree, halving the path on the way.
fn find(parent: &mut Vec<usize>, v: usize, Ghost(lab): Ghost<Seq<int>>, Ghost(dist): Ghost<Seq<nat>>) -> (r: usize)
    requires
        uf_inv(lab.len(), old(parent)@, lab, dist),
        v < lab.len(),
    ensures
        uf_inv(lab.len(), final(parent)@, lab, dist),
        r == lab[v as int],
{
    let ghost n = lab.len();
    let mut x = v;
    while parent[x] != x
        invariant
            uf_inv(n, parent@, lab, dist),
            x < n,
            lab[x as int] == lab[v as int],
        decreases dist[x as int],
    {
        let p = parent[x];
        let pp = parent[p];
        let ghost prev = parent@;
        parent.set(x, pp);
        proof {
            assert forall|y: int| 0 <= y < n && #[trigger] parent@[y] != y implies dist[parent@[y] as int] < dist[y] by {
                if y != x {
                    assert(prev[y] == parent@[y]);
                }
            }
        }
        x = pp;
    }
    x
}

/// Number of connected components of the graph on `0..n` with the edges of
/// `edges` whose both ends lie below `n`.
pub fn count_components(n: usize, edges: &Vec<(usize, usize)>) -> (r: usize)
    ensures
        r == num_components(n as nat, edges@),
        r <= n,
{
    let mut parent: Vec<usize> = Vec::new();
    let mut i: usize = 0;
    while i < n
        invariant
            i <= n,
            parent@.len() == i,
            forall|j: int| 0 <= j < i ==> parent@[j] == j,
        decreases n - i,
    {
        parent.push(i);
        i = i + 1;
    }
    let ghost mut lab: Seq<int> = merge_labels(n as nat, edges@, 0);
    let ghost mut dist: Seq<nat> = Seq::new(n as nat, |i: int| 0nat);
    let mut k: usize = 0;
    while k < edges.len()
        invariant
            k <= edges.len(),
            uf_inv(n as nat, parent@, lab, dist),
            lab == merge_labels(n as nat, edges@, k as nat),
        decreases edges.len() - k,
    {
        let (a, b) = edges[k];
        proof {
            lemma_merge_labels_wf(n as nat, edges@, (k + 1) as nat);
        }
        if a < n && b < n {
            let ra = find(&mut parent, a, Ghost(lab), Ghost(dist));
            let rb = find(&mut parent, b, Ghost(lab), Ghost(dist));
            if ra != rb {
                let ghost old_parent = parent@;
                parent.set(ra, rb);
                proof {
                    let new_lab = Seq::new(n as nat, |i: int| if lab[i] == ra { rb as int } else { lab[i] });
                    let new_dist = Seq::new(n as nat, |i: int| if lab[i] == ra { dist[i] + dist[rb as int] + 1 } else { dist[i] });
                    assert(new_lab == merge_labels(n as nat, edges@, (k + 1) as nat));
                    assert forall|x: int| 0 <= x < n implies new_lab[#[trigger] parent@[x] as int] == new_lab[x] by {
                        if x != ra {
                            assert(parent@[x] == old_parent[x]);
                        }
                    }
                    assert forall|x: int| 0 <= x < n && #[trigger] parent@[x] != x implies new_dist[parent@[x] as int] < new_dist[x] by {
                        if x != ra {
                            assert(parent@[x] == old_parent[x]);
                        }
                    }
                    assert forall|x: int| 0 <= x < n implies (parent@[#[trigger] new_lab[x]] == new_lab[x]) by {
                        if lab[x] != ra {
                            assert(old_parent[lab[x]] == lab[x]);
                        }
                    }
                    assert forall|x: int| 0 <= x < n && #[trigger] parent@[x] == x implies new_lab[x] == x by {
                        assert(x != ra);
                        assert(old_parent[x] == x);
                    }
                    lab = new_lab;
                    dist = new_dist;
                }
            }
        }
        k = k + 1;
    }
    proof {
        lemma_count_representatives_bound(lab, n as nat);
    }
    let mut count: usize = 0;
    let mut v: usize = 0;
    while v < n
        invariant
            v <= n,
            uf_inv(n as nat, parent@, lab, dist),
            lab == merge_labels(n as nat, edges@, edges@.len()),
            count == count_representatives(lab, v as nat),
        decreases n - v,
    {
        proof {
            lemma_count_representatives_bound(lab, (v + 1) as nat);
        }
        let r = find(&mut parent, v, Ghost(lab), Ghost(dist));
        if r == v {
            count = count + 1;
        }
        v = v + 1;
    }
    count
}

/// Edge `e` has ends `x` and `y`, in either orientation.
pub open spec fn edge_joins(e: (usize, usize), x: int, y: int) -> bool {
    (e.0 == x && e.1 == y) || (e.0 == y && e.1 == x)
}

/// `x` and `y` are joined by one of the first `k` edges whose ends both lie
/// below `n` (in either orientation).
pub open spec fn adjacent(n: nat, edges: Seq<(usize, usize)>, k: nat, x: int, y: int) -> bool {
    &&& 0 <= x < n
    &&& 0 <= y < n
    &&& exists|q: int| 0 <= q < k && #[trigger] edge_joins(edges[q], x, y)
}

/// Step `i` of `p` follows an edge.
pub open spec fn path_step(n: nat, edges: Seq<(usize, usize)>, k: nat, p: Seq<int>, i: int) -> bool {
    adjacent(n, edges, k, p[i], p[i + 1])
}

/// `p` is a walk in the graph on `0..n` with the first `k` edges.
pub open spec fn is_path(n: nat, edges: Seq<(usize, usize)>, k: nat, p: Seq<int>) -> bool {
    &&& p.len() >= 1
    &&& forall|i: int| 0 <= i < p.len() ==> 0 <= #[trigger] p[i] < n
    &&& forall|i: int| 0 <= i < p.len() - 1 ==> #[trigger] path_step(n, edges, k, p, i)
}

/// `u` and `v` are joined by a walk in the graph on `0..n` with the first
/// `k` edges.
pub open spec fn connected_upto(n: nat, edges: Seq<(usize, usize)>, k: nat, u: int, v: int) -> bool {
    exists|p: Seq<int>| #[trigger] is_path(n, edges, k, p) && p[0] == u && p.last() == v
}

/// `u` and `v` lie in one connected component of the graph on `0..n` whose
/// edges are those of `edges` with both ends below `n`.
pub open spec fn connected(n: nat, edges: Seq<(usize, usize)>, u: int, v: int) -> bool {
    connected_upto(n, edges, edges.len(), u, v)
}

proof fn lemma_adjacent_same_label(n: nat, edges: Seq<(usize, usize)>, k: nat, x: int, y: int)
    requires
        k <= edges.len(),
        adjacent(n, edges, k, x, y),
    ensures
        merge_labels(n, edges, k)[x] == merge_labels(n, edges, k)[y],
    decreases k,
{
    let q = choose|q: int| 0 <= q < k && #[trigger] edge_joins(edges[q], x, y);
    lemma_merge_labels_wf(n, edges, (k - 1) as nat);
    if q < k - 1 {
        assert(adjacent(n, edges, (k - 1) as nat, x, y));
        lemma_adjacent_same_label(n, edges, (k - 1) as nat, x, y);
    }
}

proof fn lemma_path_same_label(n: nat, edges: Seq<(usize, usize)>, k: nat, p: Seq<int>)
    requires
        k <= edges.len(),
        is_path(n, edges, k, p),
    ensures
        merge_labels(n, edges, k)[p[0]] == merge_labels(n, edges, k)[p.last()],
    decreases p.len(),
{
    if p.len() > 1 {
        let q = p.drop_last();
        assert forall|i: int| 0 <= i < q.len() - 1 implies #[trigger] path_step(n, edges, k, q, i) by {
            assert(path_step(n, edges, k, p, i));
        }
        lemma_path_same_label(n, edges, k, q);
        assert(path_step(n, edges, k, p, p.len() - 2));
        lemma_adjacent_same_label(n, edges, k, p[p.len() - 2], p.last());
    }
}

proof fn lemma_path_grow(n: nat, edges: Seq<(usize, usize)>, k: nat, k2: nat, p: Seq<int>)
    requires
        k <= k2,
        is_path(n, edges, k, p),
    ensures
        is_path(n, edges, k2, p),
{
    assert forall|i: int| 0 <= i < p.len() - 1 implies #[trigger] path_step(n, edges, k2, p, i) by {
        assert(path_step(n, edges, k, p, i));
    }
}

proof fn lemma_path_reverse(n: nat, edges: Seq<(usize, usize)>, k: nat, p: Seq<int>)
    requires
        is_path(n, edges, k, p),
    ensures
        is_path(n, edges, k, p.reverse()),
        p.reverse()[0] == p.last(),
        p.reverse().last() == p[0],
{
    let r = p.reverse();
    assert forall|i: int| 0 <= i < r.len() implies 0 <= #[trigger] r[i] < n by {
        assert(r[i] == p[p.len() - 1 - i]);
    }
    assert forall|i: int| 0 <= i < r.len() - 1 implies #[trigger] path_step(n, edges, k, r, i) by {
        let j = p.len() - 2 - i;
        assert(path_step(n, edges, k, p, j));
        assert(r[i] == p[j + 1]);
        assert(r[i + 1] == p[j]);
        let q = choose|q: int| 0 <= q < k && #[trigger] edge_joins(edges[q], p[j], p[j + 1]);
        assert(edge_joins(edges[q], p[j + 1], p[j]));
    }
}

proof fn lemma_path_concat(n: nat, edges: Seq<(usize, usize)>, k: nat, p: Seq<int>, q: Seq<int>)
    requires
        is_path(n, edges, k, p),
        is_path(n, edges, k, q),
        p.last() == q[0],
    ensures
        is_path(n, edges, k, p + q.drop_first()),
        (p + q.drop_first())[0] == p[0],
        (p + q.drop_first()).last() == q.last(),
{
    let r = p + q.drop_first();
    assert forall|i: int| 0 <= i < r.len() implies 0 <= #[trigger] r[i] < n by {
        if i >= p.len() {
            assert(r[i] == q[i - p.len() + 1]);
        }
    }
    assert forall|i: int| 0 <= i < r.len() - 1 implies #[trigger] path_step(n, edges, k, r, i) by {
        if i < p.len() - 1 {
            assert(path_step(n, edges, k, p, i));
        } else {
            let j = i - p.len() + 1;
            assert(path_step(n, edges, k, q, j));
            assert(r[i] == q[j]);
            assert(r[i + 1] == q[j + 1]);
        }
    }
    if q.len() > 1 {
        assert(r.last() == q[q.len() - 1]);
    }
}

proof fn lemma_same_label_connected(n: nat, edges: Seq<(usize, usize)>, k: nat, u: int, v: int)
    requires
        k <= edges.len(),
        0 <= u < n,
        0 <= v < n,
        merge_labels(n, edges, k)[u] == merge_labels(n, edges, k)[v],
    ensures
        connected_upto(n, edges, k, u, v),
    decreases k,
{
    if k == 0 {
        let p = seq![u];
        assert(is_path(n, edges, k, p));
    } else {
        let k0 = (k - 1) as nat;
        let l = merge_labels(n, edges, k0);
        let (a, b) = edges[k0 as int];
        lemma_merge_labels_wf(n, edges, k0);
        if a < n && b < n && l[a as int] != l[b as int] {
            let ua = l[u] == l[a as int];
            let va = l[v] == l[a as int];
            if ua == va {
                if ua {
                    assert(l[u] == l[v]);
                } else {
                    assert(l[u] == l[v]);
                }
                lemma_same_label_connected(n, edges, k0, u, v);
                let p = choose|p: Seq<int>| #[trigger] is_path(n, edges, k0, p) && p[0] == u && p.last() == v;
                lemma_path_grow(n, edges, k0, k, p);
            } else {
                // One end lies in the class of `a`, the other in that of `b`.
                let (x, y) = if ua { (u, v) } else { (v, u) };
                assert(l[y] == l[b as int]);
                lemma_same_label_connected(n, edges, k0, x, a as int);
                lemma_same_label_connected(n, edges, k0, b as int, y);
                let p1 = choose|p: Seq<int>| #[trigger] is_path(n, edges, k0, p) && p[0] == x && p.last() == a as int;
                let p2 = choose|p: Seq<int>| #[trigger] is_path(n, edges, k0, p) && p[0] == b as int && p.last() == y;
                lemma_path_grow(n, edges, k0, k, p1);
                lemma_path_grow(n, edges, k0, k, p2);
                let link = seq![a as int, b as int];
                assert(edge_joins(edges[k0 as int], a as int, b as int));
                assert(path_step(n, edges, k, link, 0));
                assert(is_path(n, edges, k, link));
                lemma_path_concat(n, edges, k, p1, link);
                let p3 = p1 + link.drop_first();
                lemma_path_concat(n, edges, k, p3, p2);
                let p4 = p3 + p2.drop_first();
                if ua {
                    assert(is_path(n, edges, k, p4) && p4[0] == u && p4.last() == v);
                } else {
                    lemma_path_reverse(n, edges, k, p4);
                    let p5 = p4.reverse();
                    assert(is_path(n, edges, k, p5) && p5[0] == u && p5.last() == v);
                }
            }
        } else {
            lemma_same_label_connected(n, edges, k0, u, v);
            let p = choose|p: Seq<int>| #[trigger] is_path(n, edges, k0, p) && p[0] == u && p.last() == v;
            lemma_path_grow(n, edges, k0, k, p);
        }
    }
}

/// Two vertices carry the same component label exactly when a walk joins
/// them: the labels partition `0..n` into the connected components of the
/// graph, and `num_components` counts those components, one representative
/// (the vertex that is its own label) for each.
pub proof fn lemma_labels_are_components(n: nat, edges: Seq<(usize, usize)>, u: int, v: int)
    requires
        0 <= u < n,
        0 <= v < n,
    ensures
        merge_labels(n, edges, edges.len())[u] == merge_labels(n, edges, edges.len())[v]
            <==> connected(n, edges, u, v),
        labels_wf(n, merge_labels(n, edges, edges.len())),
{
    lemma_merge_labels_wf(n, edges, edges.len());
    if merge_labels(n, edges, edges.len())[u] == merge_labels(n, edges, edges.len())[v] {
        lemma_same_label_connected(n, edges, edges.len(), u, v);
    }
    if connected(n, edges, u, v) {
        let p = choose|p: Seq<int>| #[trigger] is_path(n, edges, edges.len(), p) && p[0] == u && p.last() == v;
        lemma_path_same_label(n, edges, edges.len(), p);
    }
}

/// Each component has exactly one representative: `r` is its own label and
/// lies in the component of `u` exactly when `r` is the label of `u`.
pub proof fn lemma_one_representative_per_component(
    n: nat,
    edges: Seq<(usize, usize)>,
    u: int,
    r: int,
)
    requires
        0 <= u < n,
        0 <= r < n,
    ensures
        ({
            let l = merge_labels(n, edges, edges.len());
            (l[r] == r && connected(n, edges, u, r)) <==> r == l[u]
        }),
{
    lemma_labels_are_components(n, edges, u, r);
}

/// A vertex below `k` that is its own label makes the count among the first
/// `k` vertices positive.
proof fn lemma_count_representatives_positive(l: Seq<int>, k: nat, r: int)
    requires
        0 <= r < k,
        l[r] == r,
    ensures
        count_representatives(l, k) >= 1,
    decreases k,
{
    if r < k - 1 {
        lemma_count_representatives_positive(l, (k - 1) as nat, r);
    }
}

/// A graph with at least one vertex has at least one component.
pub proof fn lemma_num_components_positive(n: nat, edges: Seq<(usize, usize)>)
    requires
        n > 0,
    ensures
        num_components(n, edges) >= 1,
{
    let l = merge_labels(n, edges, edges.len());
    lemma_merge_labels_wf(n, edges, edges.len());
    lemma_count_representatives_positive(l, n, l[0]);
}

/// The representatives among the first `k` vertices, as a set.
pub open spec fn representative_set(l: Seq<int>, k: nat) -> Set<int> {
    Set::new(|v: int| 0 <= v < k && l[v] == v)
}

proof fn lemma_representative_set(l: Seq<int>, k: nat)
    ensures
        representative_set(l, k).finite(),
        representative_set(l, k).len() == count_representatives(l, k),
    decreases k,
{
    if k == 0 {
        assert(representative_set(l, k) =~= Set::<int>::empty());
    } else {
        lemma_representative_set(l, (k - 1) as nat);
        let prev = representative_set(l, (k - 1) as nat);
        if l[k - 1] == k - 1 {
            assert(representative_set(l, k) =~= prev.insert(k - 1));
        } else {
            assert(representative_set(l, k) =~= prev);
        }
    }
}

proof fn lemma_path_more_edges(
    n: nat,
    e1: Seq<(usize, usize)>,
    e2: Seq<(usize, usize)>,
    p: Seq<int>,
)
    requires
        forall|q: int| 0 <= q < e1.len() ==> e2.contains(#[trigger] e1[q]),
        is_path(n, e1, e1.len(), p),
    ensures
        is_path(n, e2, e2.len(), p),
{
    assert forall|i: int| 0 <= i < p.len() - 1 implies #[trigger] path_step(n, e2, e2.len(), p, i) by {
        assert(path_step(n, e1, e1.len(), p, i));
        let q = choose|q: int| 0 <= q < e1.len() && #[trigger] edge_joins(e1[q], p[i], p[i + 1]);
        assert(e2.contains(e1[q]));
        let q2 = choose|q2: int| 0 <= q2 < e2.len() && e2[q2] == e1[q];
        assert(edge_joins(e2[q2], p[i], p[i + 1]));
    }
}

/// Adding edges never adds components: where every edge of `e1` is an edge
/// of `e2`, the graph with `e2` has at most as many components as that with
/// `e1`.
pub proof fn lemma_components_monotone(n: nat, e1: Seq<(usize, usize)>, e2: Seq<(usize, usize)>)
    requires
        forall|q: int| 0 <= q < e1.len() ==> e2.contains(#[trigger] e1[q]),
    ensures
        num_components(n, e2) <= num_components(n, e1),
{
    let l1 = merge_labels(n, e1, e1.len());
    let l2 = merge_labels(n, e2, e2.len());
    lemma_merge_labels_wf(n, e1, e1.len());
    lemma_merge_labels_wf(n, e2, e2.len());
    lemma_representative_set(l1, n);
    lemma_representative_set(l2, n);
    let r1 = representative_set(l1, n);
    let r2 = representative_set(l2, n);
    let f = |r: int| l1[r];
    assert forall|a: int, b: int| r2.contains(a) && r2.contains(b) && #[trigger] f(a) == #[trigger] f(b) implies a == b by {
        lemma_labels_are_components(n, e1, a, b);
        let p = choose|p: Seq<int>| #[trigger] is_path(n, e1, e1.len(), p) && p[0] == a && p.last() == b;
        lemma_path_more_edges(n, e1, e2, p);
        assert(connected(n, e2, a, b));
        lemma_labels_are_components(n, e2, a, b);
    }
    let img = r2.map(f);
    vstd::set_lib::lemma_map_size(r2, img, f);
    assert forall|x: int| img.contains(x) implies r1.contains(x) by {
        let r = choose|r: int| r2.contains(r) && f(r) == x;
        assert(l1[l1[r]] == l1[r]);
    }
    vstd::set_lib::lemma_len_subset(img, r1);
}

proof fn lemma_count_all_representatives(l: Seq<int>, k: nat)
    requires
        forall|i: int| 0 <= i < k ==> l[i] == i,
    ensures
        count_representatives(l, k) == k,
    decreases k,
{
    if k > 0 {
        lemma_count_all_representatives(l, (k - 1) as nat);
    }
}

proof fn lemma_components_after(n: nat, edges: Seq<(usize, usize)>, k: nat)
    requires
        k <= edges.len(),
    ensures
        count_representatives(merge_labels(n, edges, k), n) + k >= n,
    decreases k,
{
    let l = merge_labels(n, edges, k);
    lemma_representative_set(l, n);
    if k == 0 {
        lemma_count_all_representatives(l, n);
    } else {
        let k0 = (k - 1) as nat;
        lemma_components_after(n, edges, k0);
        let l0 = merge_labels(n, edges, k0);
        lemma_merge_labels_wf(n, edges, k0);
        lemma_representative_set(l0, n);
        let (a, b) = edges[k0 as int];
        if a < n && b < n && l0[a as int] != l0[b as int] {
            let ra = l0[a as int];
            let s0 = representative_set(l0, n);
            assert(s0.contains(ra));
            assert(representative_set(l, n) =~= s0.remove(ra)) by {
                assert forall|v: int| #[trigger] representative_set(l, n).contains(v) <==> s0.remove(ra).contains(v) by {
                    if 0 <= v < n {
                        if l0[v] == ra {
                            assert(l0[l0[b as int]] == l0[b as int]);
                        }
                    }
                }
            }
        } else {
            assert(l == l0);
        }
    }
}

/// A graph on `n` vertices with `m` edges has at least `n − m`
/// components: each edge merges at most two of them.
pub proof fn lemma_components_lower_bound(n: nat, edges: Seq<(usize, usize)>)
    ensures
        num_components(n, edges) + edges.len() >= n,
{
    lemma_components_after(n, edges, edges.len());
}

} // verus!
