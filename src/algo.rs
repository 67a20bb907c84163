use vstd::prelude::*;
use vstd::set_lib::*;

use crate::types::Class;

verus! {

/// A source of epsilon-neighbourhoods over the points `0 .. size()`.
///
/// A radius is given as a distance key: the bits of a non-negative distance,
/// whose integer order is the order of the distances themselves.
pub trait RegionQuery {
    /// The number of points that the engine was built from.
    spec fn size(&self) -> nat;

    /// The engine has been initialised and its tables are consistent.
    spec fn wf(&self) -> bool;

    /// Whether the engine can answer queries of radius `eps`.
    spec fn serves(&self, eps: u64) -> bool;

    /// The points whose distance to `point` is at most `eps`.
    spec fn region(&self, point: usize, eps: u64) -> Set<usize>;

    /// A region holds its centre and nothing but points of the engine.
    proof fn lemma_region_bounds(&self, point: usize, eps: u64)
        requires
            self.wf(),
            self.serves(eps),
            point < self.size(),
        ensures
            self.region(point, eps).contains(point),
            forall|q: usize| self.region(point, eps).contains(q) ==> q < self.size(),
    ;

    /// Regions are symmetric: `c` is within `eps` of `p` exactly when `p` is
    /// within `eps` of `c`, as distance is symmetric.
    proof fn lemma_region_symmetric(&self, p: usize, c: usize, eps: u64)
        requires
            self.wf(),
            self.serves(eps),
            p < self.size(),
            c < self.size(),
        ensures
            self.region(p, eps).contains(c) == self.region(c, eps).contains(p),
    ;

    /// Whether the engine can answer queries of radius `eps`.
    fn serves_radius(&self, eps: u64) -> (r: bool)
        requires
            self.wf(),
        ensures
            r == self.serves(eps),
    ;

    /// The number of points.
    fn len(&self) -> (r: usize)
        requires
            self.wf(),
        ensures
            r == self.size(),
    ;

    /// Every point within `eps` of `point`, each once.
    fn run(&self, point: usize, eps: u64) -> (r: Vec<usize>)
        requires
            self.wf(),
            self.serves(eps),
            point < self.size(),
        ensures
            r@.no_duplicates(),
            r@.to_set() == self.region(point, eps),
    ;
}

/// `p` has at least `min_pts` points within `eps`, itself included.
pub open spec fn is_core<T: RegionQuery>(q: &T, p: usize, eps: u64, min_pts: usize) -> bool {
    q.region(p, eps).len() >= min_pts
}

/// Every point of the region of `c` carries a cluster label, and every core
/// point of it carries the label of `c`.
pub open spec fn saturated<T: RegionQuery>(
    q: &T,
    eps: u64,
    min_pts: usize,
    labels: Seq<Class>,
    c: usize,
) -> bool {
    forall|j: usize| #[trigger]
        q.region(c, eps).contains(j) ==> j < labels.len() && labels[j as int] is Classified && (
        is_core(q, j, eps, min_pts) ==> labels[j as int] == labels[c as int])
}

/// Regions are symmetric over the points of the engine.
pub open spec fn symmetric_regions<T: RegionQuery>(q: &T, eps: u64) -> bool {
    forall|p: usize, c: usize|
        p < q.size() && c < q.size() ==> (#[trigger] q.region(p, eps).contains(c)) == q.region(
            c,
            eps,
        ).contains(p)
}

/// Core points within each other's region share their label.
pub open spec fn cores_connected<T: RegionQuery>(
    q: &T,
    eps: u64,
    min_pts: usize,
    labels: Seq<Class>,
) -> bool {
    forall|p: usize, c: usize|
        p < labels.len() && c < labels.len() && is_core(q, p, eps, min_pts) && is_core(q, c, eps, min_pts)
            && #[trigger] q.region(p, eps).contains(c) ==> labels[p as int] == labels[c as int]
}

/// The cluster identifiers in use are exactly `0 .. k`.
pub open spec fn ids_below(labels: Seq<Class>, k: nat) -> bool {
    &&& forall|i: int|
        0 <= i < labels.len() && (#[trigger] labels[i]) is Classified ==> labels[i]->Classified_0
            < k
    &&& forall|c: usize| c < k ==> #[trigger] names_cluster(labels, c)
}

/// Some point carries the label of cluster `c`.
pub open spec fn names_cluster(labels: Seq<Class>, c: usize) -> bool {
    exists|i: int| 0 <= i < labels.len() && labels[i] == Class::Classified(c)
}

/// A cluster label of `q` is backed by a core point of the same cluster whose
/// region holds `q`.
pub open spec fn backed<T: RegionQuery>(
    q: &T,
    eps: u64,
    min_pts: usize,
    labels: Seq<Class>,
    i: usize,
) -> bool {
    labels[i as int] is Classified ==> exists|p: usize|
        p < labels.len() && #[trigger] is_core(q, p, eps, min_pts) && labels[p as int]
            == labels[i as int] && q.region(p, eps).contains(i)
}

/// No point is left unvisited.
pub open spec fn all_labelled(labels: Seq<Class>) -> bool {
    forall|i: int| 0 <= i < labels.len() ==> !(#[trigger] labels[i] is Unclassified)
}

/// The result of a clustering run over `q` with radius `eps` and density
/// threshold `min_pts`: every point is labelled, identifiers are consecutive
/// and each names a non-empty cluster, core points are in clusters, every
/// neighbour of a core point is in a cluster, core points within each
/// other's region share a cluster, core points of one cluster are linked by
/// a chain of core points, and every cluster label is backed by a core point
/// of that cluster.
pub open spec fn is_clustering<T: RegionQuery>(
    q: &T,
    eps: u64,
    min_pts: usize,
    labels: Seq<Class>,
) -> bool {
    &&& labels.len() == q.size()
    &&& all_labelled(labels)
    &&& exists|k: nat| ids_below(labels, k)
    &&& forall|p: usize| p < labels.len() && is_core(q, p, eps, min_pts) ==> labels[p as int] is Classified
    &&& forall|p: usize|
        p < labels.len() && is_core(q, p, eps, min_pts) ==> saturated(q, eps, min_pts, labels, p)
    &&& forall|i: usize| i < labels.len() ==> backed(q, eps, min_pts, labels, i)
    &&& cores_connected(q, eps, min_pts, labels)
    &&& clusters_chained(q, eps, min_pts, labels)
}

/// What holds of the labels between steps of a run: identifiers below
/// `ids` are in use, noise is never a core point, every cluster label is
/// backed, and the core points of the completed clusters `0 .. done` have
/// every neighbour in a cluster.
pub open spec fn progress_inv<T: RegionQuery>(
    q: &T,
    eps: u64,
    min_pts: usize,
    labels: Seq<Class>,
    ids: nat,
    done: nat,
) -> bool {
    &&& labels.len() == q.size()
    &&& ids_below(labels, ids)
    &&& noise_not_core(q, eps, min_pts, labels)
    &&& forall|i: usize| i < labels.len() ==> #[trigger] backed(q, eps, min_pts, labels, i)
    &&& cores_saturated(q, eps, min_pts, labels, done)
}

/// No point labelled noise is a core point.
pub open spec fn noise_not_core<T: RegionQuery>(
    q: &T,
    eps: u64,
    min_pts: usize,
    labels: Seq<Class>,
) -> bool {
    forall|p: usize|
        p < labels.len() && (#[trigger] labels[p as int]) is Noise ==> !is_core(q, p, eps, min_pts)
}

/// Every core point of a cluster below `done` has all its neighbours in
/// clusters.
pub open spec fn cores_saturated<T: RegionQuery>(
    q: &T,
    eps: u64,
    min_pts: usize,
    labels: Seq<Class>,
    done: nat,
) -> bool {
    forall|p: usize|
        p < labels.len() && is_core(q, p, eps, min_pts) && (#[trigger] labels[p as int]) is Classified
            && labels[p as int]->Classified_0 < done ==> saturated(q, eps, min_pts, labels, p)
}

/// `path` is a chain of core points, each in the region of the one before.
pub open spec fn core_chain<T: RegionQuery>(q: &T, eps: u64, min_pts: usize, path: Seq<usize>) -> bool {
    &&& path.len() >= 1
    &&& forall|i: int| 0 <= i < path.len() ==> (#[trigger] path[i]) < q.size()
    &&& forall|i: int| 0 <= i < path.len() ==> #[trigger] is_core(q, path[i], eps, min_pts)
    &&& forall|i: int| 0 <= i < path.len() - 1 ==> #[trigger] q.region(path[i], eps).contains(path[i + 1])
}

/// A chain of core points leads from `a` to `b`.
pub open spec fn chained<T: RegionQuery>(q: &T, eps: u64, min_pts: usize, a: usize, b: usize) -> bool {
    exists|path: Seq<usize>| #[trigger] core_chain(q, eps, min_pts, path) && path[0] == a && path.last() == b
}

/// `i` is density-reachable from `s`: it lies in the region of a core point
/// that a chain of core points leads to from `s`.
pub open spec fn reached<T: RegionQuery>(q: &T, eps: u64, min_pts: usize, s: usize, i: usize) -> bool {
    exists|p: usize|
        p < q.size() && #[trigger] chained(q, eps, min_pts, s, p) && q.region(p, eps).contains(i)
}

/// Core points of one cluster are linked by a chain of core points.
pub open spec fn clusters_chained<T: RegionQuery>(
    q: &T,
    eps: u64,
    min_pts: usize,
    labels: Seq<Class>,
) -> bool {
    forall|p: usize, c: usize|
        p < labels.len() && c < labels.len() && is_core(q, p, eps, min_pts) && is_core(q, c, eps, min_pts)
            && #[trigger] labels[p as int] == #[trigger] labels[c as int] && labels[p as int] is Classified
            ==> chained(q, eps, min_pts, p, c)
}

proof fn lemma_chain_push<T: RegionQuery>(q: &T, eps: u64, min_pts: usize, a: usize, b: usize, c: usize)
    requires
        chained(q, eps, min_pts, a, b),
        c < q.size(),
        is_core(q, c, eps, min_pts),
        q.region(b, eps).contains(c),
    ensures
        chained(q, eps, min_pts, a, c),
{
    let path = choose|path: Seq<usize>| #[trigger] core_chain(q, eps, min_pts, path) && path[0] == a && path.last() == b;
    let np = path.push(c);
    assert forall|i: int| 0 <= i < np.len() - 1 implies #[trigger] q.region(np[i], eps).contains(np[i + 1]) by {
        if i < path.len() - 1 {
            assert(np[i] == path[i] && np[i + 1] == path[i + 1]);
            assert(q.region(path[i], eps).contains(path[i + 1]));
        }
    }
    assert forall|i: int| 0 <= i < np.len() implies #[trigger] is_core(q, np[i], eps, min_pts) by {
        if i < path.len() {
            assert(np[i] == path[i]);
            assert(is_core(q, path[i], eps, min_pts));
        }
    }
    assert forall|i: int| 0 <= i < np.len() implies (#[trigger] np[i]) < q.size() by {
        if i < path.len() {
            assert(np[i] == path[i]);
        }
    }
    assert(np.len() >= 1);
    assert(forall|i: int| 0 <= i < np.len() - 1 ==> #[trigger] q.region(np[i], eps).contains(np[i + 1]));
    assert(core_chain(q, eps, min_pts, np));
}

proof fn lemma_chain_start<T: RegionQuery>(q: &T, eps: u64, min_pts: usize, a: usize)
    requires
        a < q.size(),
        is_core(q, a, eps, min_pts),
    ensures
        chained(q, eps, min_pts, a, a),
{
    let path = seq![a];
    assert(path[0] == a);
    assert(core_chain(q, eps, min_pts, path));
}

/// Two chains from one start join into a chain between their ends, as
/// regions are symmetric.
proof fn lemma_chain_join<T: RegionQuery>(q: &T, eps: u64, min_pts: usize, s: usize, a: usize, b: usize)
    requires
        symmetric_regions(q, eps),
        chained(q, eps, min_pts, s, a),
        chained(q, eps, min_pts, s, b),
    ensures
        chained(q, eps, min_pts, a, b),
{
    let pa = choose|path: Seq<usize>| #[trigger] core_chain(q, eps, min_pts, path) && path[0] == s && path.last() == a;
    let pb = choose|path: Seq<usize>| #[trigger] core_chain(q, eps, min_pts, path) && path[0] == s && path.last() == b;
    let la = pa.len() as int;
    let lb = pb.len() as int;
    let np = Seq::new((la + lb - 1) as nat, |i: int| if i < la { pa[la - 1 - i] } else { pb[i - la + 1] });
    assert forall|i: int| 0 <= i < np.len() implies #[trigger] is_core(q, np[i], eps, min_pts) by {
        if i < la {
            assert(is_core(q, pa[la - 1 - i], eps, min_pts));
        } else {
            assert(is_core(q, pb[i - la + 1], eps, min_pts));
        }
    }
    assert forall|i: int| 0 <= i < np.len() implies (#[trigger] np[i]) < q.size() by {
        if i < la {
            assert(pa[la - 1 - i] < q.size());
        } else {
            assert(pb[i - la + 1] < q.size());
        }
    }
    assert forall|i: int| 0 <= i < np.len() - 1 implies #[trigger] q.region(np[i], eps).contains(np[i + 1]) by {
        if i + 1 < la {
            let j = la - 2 - i;
            assert(q.region(pa[j], eps).contains(pa[j + 1]));
            assert(is_core(q, pa[j], eps, min_pts));
            assert(is_core(q, pa[j + 1], eps, min_pts));
            assert(q.region(pa[j + 1], eps).contains(pa[j]) == q.region(pa[j], eps).contains(pa[j + 1]));
        } else {
            let j = i - la + 1;
            assert(q.region(pb[j], eps).contains(pb[j + 1]));
        }
    }
    assert(np[0] == a);
    assert(np.last() == b);
    assert(np.len() >= 1);
    assert(forall|i: int| 0 <= i < np.len() - 1 ==> #[trigger] q.region(np[i], eps).contains(np[i + 1]));
    assert(core_chain(q, eps, min_pts, np));
}

/// Labels only move forward: a cluster label is kept, noise may only become
/// a cluster label.
pub open spec fn advances(before: Seq<Class>, after: Seq<Class>) -> bool {
    &&& before.len() == after.len()
    &&& forall|i: int|
        0 <= i < before.len() && (#[trigger] before[i]) is Classified ==> after[i] == before[i]
    &&& forall|i: int|
        0 <= i < before.len() && (#[trigger] before[i]) is Noise ==> !(after[i] is Unclassified)
}

proof fn lemma_names_kept(before: Seq<Class>, after: Seq<Class>, c: usize)
    requires
        advances(before, after),
        names_cluster(before, c),
    ensures
        names_cluster(after, c),
{
    let i = choose|i: int| 0 <= i < before.len() && before[i] == Class::Classified(c);
    assert(after[i] == before[i]);
}

proof fn lemma_saturated_kept<T: RegionQuery>(
    q: &T,
    eps: u64,
    min_pts: usize,
    before: Seq<Class>,
    after: Seq<Class>,
    c: usize,
)
    requires
        advances(before, after),
        c < before.len(),
        saturated(q, eps, min_pts, before, c),
    ensures
        saturated(q, eps, min_pts, after, c),
{
    assert forall|j: usize| #[trigger] q.region(c, eps).contains(j) implies j < after.len()
        && after[j as int] is Classified && (is_core(q, j, eps, min_pts) ==> after[j as int]
        == after[c as int]) by {
        assert(before[j as int] is Classified);
        if is_core(q, j, eps, min_pts) {
            assert(before[j as int] == before[c as int]);
            assert(before[c as int] is Classified);
        }
    }
}

proof fn lemma_backed_kept<T: RegionQuery>(
    q: &T,
    eps: u64,
    min_pts: usize,
    before: Seq<Class>,
    after: Seq<Class>,
    i: usize,
)
    requires
        advances(before, after),
        i < before.len(),
        backed(q, eps, min_pts, before, i),
        after[i as int] == before[i as int],
    ensures
        backed(q, eps, min_pts, after, i),
{
    if before[i as int] is Classified {
        let p = choose|p: usize|
            p < before.len() && #[trigger] is_core(q, p, eps, min_pts) && before[p as int]
                == before[i as int] && q.region(p, eps).contains(i);
        assert(after[p as int] == before[p as int]);
    }
}

/// The labels after one more point of a completed run: every label that was
/// backed stays backed, and so on for the other parts of the invariant.
proof fn lemma_inv_kept<T: RegionQuery>(
    q: &T,
    eps: u64,
    min_pts: usize,
    before: Seq<Class>,
    after: Seq<Class>,
    ids: nat,
    done: nat,
)
    requires
        progress_inv(q, eps, min_pts, before, ids, done),
        advances(before, after),
        forall|i: int| 0 <= i < before.len() && after[i] != before[i] ==> before[i] is Unclassified && after[i] is Noise,
        noise_not_core(q, eps, min_pts, after),
    ensures
        progress_inv(q, eps, min_pts, after, ids, done),
{
    assert forall|c: usize| c < ids implies #[trigger] names_cluster(after, c) by {
        lemma_names_kept(before, after, c);
    }
    assert forall|i: usize| i < after.len() implies #[trigger] backed(q, eps, min_pts, after, i) by {
        assert(backed(q, eps, min_pts, before, i));
        if after[i as int] != before[i as int] {
        } else {
            lemma_backed_kept(q, eps, min_pts, before, after, i);
        }
    }
    assert forall|p: usize|
        p < after.len() && is_core(q, p, eps, min_pts) && (#[trigger] after[p as int]) is Classified
            && after[p as int]->Classified_0 < done implies saturated(q, eps, min_pts, after, p) by {
        assert(before[p as int] is Classified);
        lemma_saturated_kept(q, eps, min_pts, before, after, p);
    }
}

/// Noise is decided by the regions alone: a point is noise exactly when no
/// core point has it in its region. So two engines that agree on every
/// region give clusterings that agree on which points are noise.
pub proof fn lemma_same_regions_same_noise<T1: RegionQuery, T2: RegionQuery>(
    q1: &T1,
    q2: &T2,
    eps: u64,
    min_pts: usize,
    labels1: Seq<Class>,
    labels2: Seq<Class>,
)
    requires
        q1.size() == q2.size(),
        forall|p: usize| p < q1.size() ==> #[trigger] q1.region(p, eps) == q2.region(p, eps),
        is_clustering(q1, eps, min_pts, labels1),
        is_clustering(q2, eps, min_pts, labels2),
    ensures
        forall|i: usize| i < labels1.len() ==> (labels1[i as int] is Noise <==> labels2[i as int] is Noise),
{
    assert forall|i: usize| i < labels1.len() implies (labels1[i as int] is Noise <==> labels2[i as int] is Noise) by {
        lemma_noise_iff_uncovered(q1, eps, min_pts, labels1, i);
        lemma_noise_iff_uncovered(q2, eps, min_pts, labels2, i);
        if covered(q1, eps, min_pts, i) {
            let p = choose|p: usize| p < q1.size() && is_core(q1, p, eps, min_pts) && q1.region(p, eps).contains(i);
            assert(q1.region(p, eps) == q2.region(p, eps));
            assert(is_core(q2, p, eps, min_pts));
        }
        if covered(q2, eps, min_pts, i) {
            let p = choose|p: usize| p < q2.size() && is_core(q2, p, eps, min_pts) && q2.region(p, eps).contains(i);
            assert(q1.region(p, eps) == q2.region(p, eps));
            assert(is_core(q1, p, eps, min_pts));
        }
    }
}

/// Along a chain of core points, a clustering gives one label.
pub proof fn lemma_chain_one_label<T: RegionQuery>(
    q: &T,
    eps: u64,
    min_pts: usize,
    labels: Seq<Class>,
    path: Seq<usize>,
)
    requires
        is_clustering(q, eps, min_pts, labels),
        core_chain(q, eps, min_pts, path),
    ensures
        labels[path[0] as int] == labels[path.last() as int],
    decreases path.len(),
{
    if path.len() > 1 {
        let prefix = path.drop_last();
        assert forall|i: int| 0 <= i < prefix.len() implies #[trigger] is_core(q, prefix[i], eps, min_pts) by {
            assert(prefix[i] == path[i]);
        }
        assert forall|i: int| 0 <= i < prefix.len() implies (#[trigger] prefix[i]) < q.size() by {
            assert(prefix[i] == path[i]);
        }
        assert forall|i: int| 0 <= i < prefix.len() - 1 implies #[trigger] q.region(prefix[i], eps).contains(prefix[i + 1]) by {
            assert(q.region(path[i], eps).contains(path[i + 1]));
        }
        lemma_chain_one_label(q, eps, min_pts, labels, prefix);
        let a = path[path.len() - 2];
        let b = path.last();
        assert(q.region(path[path.len() - 2], eps).contains(path[path.len() - 2 + 1]));
        assert(q.region(a, eps).contains(b));
        assert(is_core(q, a, eps, min_pts));
        assert(is_core(q, b, eps, min_pts));
    }
}

/// Two engines that agree on every region give clusterings that group the
/// core points alike: two core points share a cluster under one exactly when
/// they share one under the other.
pub proof fn lemma_same_regions_same_core_partition<T1: RegionQuery, T2: RegionQuery>(
    q1: &T1,
    q2: &T2,
    eps: u64,
    min_pts: usize,
    labels1: Seq<Class>,
    labels2: Seq<Class>,
    p: usize,
    c: usize,
)
    requires
        q1.size() == q2.size(),
        forall|x: usize| x < q1.size() ==> #[trigger] q1.region(x, eps) == q2.region(x, eps),
        is_clustering(q1, eps, min_pts, labels1),
        is_clustering(q2, eps, min_pts, labels2),
        p < q1.size(),
        c < q1.size(),
        is_core(q1, p, eps, min_pts),
        is_core(q1, c, eps, min_pts),
    ensures
        (labels1[p as int] == labels1[c as int]) == (labels2[p as int] == labels2[c as int]),
{
    assert(q1.region(p, eps) == q2.region(p, eps));
    assert(q1.region(c, eps) == q2.region(c, eps));
    if labels1[p as int] == labels1[c as int] {
        assert(chained(q1, eps, min_pts, p, c));
        let path = choose|path: Seq<usize>| #[trigger] core_chain(q1, eps, min_pts, path) && path[0] == p && path.last() == c;
        lemma_chain_moves(q1, q2, eps, min_pts, path);
        lemma_chain_one_label(q2, eps, min_pts, labels2, path);
    }
    assert(is_core(q2, p, eps, min_pts));
    assert(is_core(q2, c, eps, min_pts));
    if labels2[p as int] == labels2[c as int] {
        assert(chained(q2, eps, min_pts, p, c));
        let path = choose|path: Seq<usize>| #[trigger] core_chain(q2, eps, min_pts, path) && path[0] == p && path.last() == c;
        lemma_chain_moves(q2, q1, eps, min_pts, path);
        lemma_chain_one_label(q1, eps, min_pts, labels1, path);
    }
}

proof fn lemma_chain_moves<T1: RegionQuery, T2: RegionQuery>(
    q1: &T1,
    q2: &T2,
    eps: u64,
    min_pts: usize,
    path: Seq<usize>,
)
    requires
        q1.size() == q2.size(),
        forall|x: usize| x < q1.size() ==> #[trigger] q1.region(x, eps) == q2.region(x, eps),
        core_chain(q1, eps, min_pts, path),
    ensures
        core_chain(q2, eps, min_pts, path),
{
    assert forall|i: int| 0 <= i < path.len() implies #[trigger] is_core(q2, path[i], eps, min_pts) by {
        assert(path[i] < q1.size());
        assert(is_core(q1, path[i], eps, min_pts));
        assert(q1.region(path[i], eps) == q2.region(path[i], eps));
    }
    assert forall|i: int| 0 <= i < path.len() - 1 implies #[trigger] q2.region(path[i], eps).contains(path[i + 1]) by {
        assert(path[i] < q1.size());
        assert(q1.region(path[i], eps).contains(path[i + 1]));
        assert(q1.region(path[i], eps) == q2.region(path[i], eps));
    }
}

/// Some core point has `i` in its region.
pub open spec fn covered<T: RegionQuery>(q: &T, eps: u64, min_pts: usize, i: usize) -> bool {
    exists|p: usize| p < q.size() && #[trigger] is_core(q, p, eps, min_pts) && q.region(p, eps).contains(i)
}

/// In a clustering, a point is noise exactly when no core point covers it.
pub proof fn lemma_noise_iff_uncovered<T: RegionQuery>(
    q: &T,
    eps: u64,
    min_pts: usize,
    labels: Seq<Class>,
    i: usize,
)
    requires
        is_clustering(q, eps, min_pts, labels),
        i < labels.len(),
    ensures
        labels[i as int] is Noise <==> !covered(q, eps, min_pts, i),
{
    if labels[i as int] is Noise {
        if covered(q, eps, min_pts, i) {
            let p = choose|p: usize| p < q.size() && is_core(q, p, eps, min_pts) && q.region(p, eps).contains(i);
            assert(saturated(q, eps, min_pts, labels, p));
        }
    } else {
        assert(!(labels[i as int] is Unclassified));
        assert(backed(q, eps, min_pts, labels, i));
    }
}

/// The DBSCAN driver over a region-query engine.
pub struct Algo<'a, T: RegionQuery> {
    /// The engine that answers neighbourhood queries.
    pub region_query: &'a T,
    /// The neighbourhood radius, as a distance key.
    pub eps: u64,
    /// The smallest neighbourhood, centre included, of a core point.
    pub min_pts: usize,
}

/// Why a driver could not be set up.
#[derive(Debug, Clone, Copy, PartialEq, Eq, Structural)]
pub enum AlgoError {
    /// The radius is zero.
    ZeroRadius,
    /// The density threshold is zero.
    ZeroMinPoints,
    /// The engine cannot answer queries of this radius.
    RadiusNotServed,
}

impl<'a, T: RegionQuery> Algo<'a, T> {
    pub open spec fn wf(&self) -> bool {
        &&& self.region_query.wf()
        &&& self.region_query.serves(self.eps)
    }

    /// A driver over an initialised engine, for radius `eps` (a distance key)
    /// and density threshold `min_pts`.
    pub fn new(region_query: &'a T, eps: u64, min_pts: usize) -> (r: Result<Self, AlgoError>)
        requires
            region_query.wf(),
        ensures
            eps == 0 ==> r == Err::<Self, AlgoError>(AlgoError::ZeroRadius),
            eps != 0 && min_pts == 0 ==> r == Err::<Self, AlgoError>(AlgoError::ZeroMinPoints),
            eps != 0 && min_pts != 0 && !region_query.serves(eps) ==> r == Err::<Self, AlgoError>(
                AlgoError::RadiusNotServed,
            ),
            eps != 0 && min_pts != 0 && region_query.serves(eps) ==> r is Ok,
            r matches Ok(a) ==> a.region_query == region_query && a.eps == eps && a.min_pts
                == min_pts && a.wf(),
    {
        if eps == 0 {
            return Err(AlgoError::ZeroRadius);
        }
        if min_pts == 0 {
            return Err(AlgoError::ZeroMinPoints);
        }
        if !region_query.serves_radius(eps) {
            return Err(AlgoError::RadiusNotServed);
        }
        Ok(Algo { region_query, eps, min_pts })
    }

    /// Tries to grow cluster `cluster_id` from the unvisited `point`. Returns
    /// `false` and labels `point` noise, changing nothing else, when it is not
    /// a core point; otherwise labels `cluster_id` every point density-reachable
    /// from it that is not yet in a cluster, and returns `true`.
    #[verifier::rlimit(60)]
    fn expand_cluster(&self, point: usize, cluster_id: usize, classes: &mut Vec<Class>) -> (r: bool)
        requires
            self.wf(),
            point < old(classes).len(),
            old(classes)[point as int] is Unclassified,
            symmetric_regions(self.region_query, self.eps),
            progress_inv(
                self.region_query,
                self.eps,
                self.min_pts,
                old(classes)@,
                cluster_id as nat,
                cluster_id as nat,
            ),
        ensures
            r == is_core(self.region_query, point, self.eps, self.min_pts),
            advances(old(classes)@, final(classes)@),
            r ==> final(classes)[point as int] == Class::Classified(cluster_id),
            r ==> forall|i: int|
                0 <= i < old(classes).len() && final(classes)@[i] != old(classes)@[i]
                    ==> #[trigger] final(classes)@[i] == Class::Classified(cluster_id),
            !r ==> final(classes)@ == old(classes)@.update(point as int, Class::Noise),
            r ==> forall|i: usize|
                i < final(classes).len() && #[trigger] final(classes)@[i as int] != old(classes)@[i as int]
                    ==> reached(self.region_query, self.eps, self.min_pts, point, i),
            r ==> forall|c: usize|
                c < final(classes).len() && is_core(self.region_query, c, self.eps, self.min_pts)
                    && #[trigger] final(classes)@[c as int] == Class::Classified(cluster_id) ==> chained(
                    self.region_query,
                    self.eps,
                    self.min_pts,
                    point,
                    c,
                ),
            r ==> progress_inv(
                self.region_query,
                self.eps,
                self.min_pts,
                final(classes)@,
                cluster_id as nat + 1,
                cluster_id as nat + 1,
            ),
            !r ==> final(classes)[point as int] is Noise,
            !r ==> progress_inv(
                self.region_query,
                self.eps,
                self.min_pts,
                final(classes)@,
                cluster_id as nat,
                cluster_id as nat,
            ),
    {
        let ghost q = self.region_query;
        let ghost eps = self.eps;
        let ghost min_pts = self.min_pts;
        let ghost start = classes@;
        let ghost n = classes.len();
        let neighbors = self.region_query.run(point, self.eps);
        proof {
            neighbors@.unique_seq_to_set();
            q.lemma_region_bounds(point, eps);
        }
        if neighbors.len() < self.min_pts {
            classes.set(point, Class::Noise);
            proof {
                lemma_inv_kept(q, eps, min_pts, start, classes@, cluster_id as nat, cluster_id as nat);
            }
            return false;
        }
        assert forall|k: int| 0 <= k < neighbors.len() implies #[trigger] neighbors@[k] < n by {
            assert(neighbors@.to_set().contains(neighbors@[k]));
        }
        let mut idx: usize = 0;
        while idx < neighbors.len()
            invariant
                0 <= idx <= neighbors.len(),
                neighbors@.to_set() == q.region(point, eps),
                forall|k: int| 0 <= k < neighbors.len() ==> #[trigger] neighbors@[k] < n,
                is_core(q, point, eps, min_pts),
                classes.len() == n,
                n == q.size(),
                point < n,
                advances(start, classes@),
                forall|k: int| 0 <= k < idx ==> (#[trigger] classes@[neighbors@[k] as int]) is Classified,
                classes@[point as int] is Unclassified || classes@[point as int] == Class::Classified(cluster_id),
                forall|i: int|
                    0 <= i < n && (#[trigger] classes@[i]) is Classified ==> classes@[i]->Classified_0 <= cluster_id,
                forall|c: usize| c < cluster_id ==> #[trigger] names_cluster(classes@, c),
                noise_not_core(q, eps, min_pts, classes@),
                forall|i: usize|
                    i < n && classes@[i as int] is Classified && classes@[i as int]->Classified_0 < cluster_id
                        ==> #[trigger] backed(q, eps, min_pts, classes@, i),
                forall|i: usize|
                    i < n && #[trigger] classes@[i as int] == Class::Classified(cluster_id) ==> q.region(point, eps).contains(i),
                cores_saturated(q, eps, min_pts, classes@, cluster_id as nat),
                forall|i: int| 0 <= i < n && classes@[i] != start[i] ==> #[trigger] classes@[i] == Class::Classified(cluster_id),
                forall|c: usize| c < n && is_core(q, c, eps, min_pts) && #[trigger] classes@[c as int] == Class::Classified(cluster_id) ==> chained(q, eps, min_pts, point, c),
            decreases neighbors.len() - idx,
        {
            let p = neighbors[idx];
            let ghost before = classes@;
            match classes[p] {
                Class::Unclassified | Class::Noise => {
                    classes.set(p, Class::Classified(cluster_id));
                },
                Class::Classified(_) => {},
            }
            proof {
                assert(neighbors@.to_set().contains(p));
                if is_core(q, p, eps, min_pts) {
                    lemma_chain_start(q, eps, min_pts, point);
                    if p != point {
                        lemma_chain_push(q, eps, min_pts, point, point, p);
                    }
                }
                assert forall|c: usize| c < n && is_core(q, c, eps, min_pts) && #[trigger] classes@[c as int] == Class::Classified(cluster_id)
                    implies chained(q, eps, min_pts, point, c) by {
                    if c != p {
                        assert(before[c as int] == classes@[c as int]);
                    }
                }
                assert(advances(before, classes@));
                assert forall|c: usize| c < cluster_id implies #[trigger] names_cluster(classes@, c) by {
                    lemma_names_kept(before, classes@, c);
                }
                assert forall|i: usize|
                    i < n && classes@[i as int] is Classified && classes@[i as int]->Classified_0 < cluster_id
                        implies #[trigger] backed(q, eps, min_pts, classes@, i) by {
                    assert(before[i as int] == classes@[i as int]);
                    lemma_backed_kept(q, eps, min_pts, before, classes@, i);
                }
                assert forall|c: usize|
                    c < n && is_core(q, c, eps, min_pts) && (#[trigger] classes@[c as int]) is Classified
                        && classes@[c as int]->Classified_0 < cluster_id implies saturated(q, eps, min_pts, classes@, c) by {
                    assert(before[c as int] == classes@[c as int]);
                    lemma_saturated_kept(q, eps, min_pts, before, classes@, c);
                }
            }
            idx += 1;
        }
        proof {
            assert(neighbors@.to_set().contains(point));
            let k = choose|k: int| 0 <= k < neighbors.len() && neighbors@[k] == point;
            assert(classes@[neighbors@[k] as int] is Classified);
            assert forall|j: usize| #[trigger] q.region(point, eps).contains(j) implies j < classes@.len()
                && classes@[j as int] is Classified by {
                assert(neighbors@.to_set().contains(j));
                let k = choose|k: int| 0 <= k < neighbors.len() && neighbors@[k] == j;
                assert(classes@[neighbors@[k] as int] is Classified);
                if is_core(q, j, eps, min_pts) && classes@[j as int] == start[j as int] {
                    assert(start[j as int]->Classified_0 < cluster_id);
                    assert(saturated(q, eps, min_pts, start, j));
                    assert(q.region(j, eps).contains(point) == q.region(point, eps).contains(j));
                    assert(start[point as int] == start[j as int]);
                }
            }
            assert(saturated(q, eps, min_pts, classes@, point));
        }
        let mut set: Vec<usize> = Vec::new();
        let mut idx: usize = 0;
        while idx < neighbors.len()
            invariant
                0 <= idx <= neighbors.len(),
                forall|k: int| 0 <= k < neighbors.len() ==> #[trigger] neighbors@[k] < n,
                forall|k: int| 0 <= k < set.len() ==> neighbors@.contains(#[trigger] set@[k]),
                forall|k: int| 0 <= k < idx && neighbors@[k] != point ==> set@.contains(#[trigger] neighbors@[k]),
            decreases neighbors.len() - idx,
        {
            let ghost set_before = set@;
            if neighbors[idx] != point {
                set.push(neighbors[idx]);
            }
            proof {
                assert forall|x: usize| set_before.contains(x) implies set@.contains(x) by {
                    let k = choose|k: int| 0 <= k < set_before.len() && set_before[k] == x;
                    assert(set@[k] == x);
                }
                if neighbors@[idx as int] != point {
                    assert(set@[set@.len() - 1] == neighbors@[idx as int]);
                }
            }
            idx += 1;
        }
        let ghost mut unc = Set::new(|i: int| 0 <= i < n && classes@[i] is Unclassified);
        proof {
            lemma_int_range(0, n as int);
            lemma_len_subset(unc, set_int_range(0, n as int));
            assert forall|i: usize|
                i < n && #[trigger] classes@[i as int] == Class::Classified(cluster_id) implies backed(q, eps, min_pts, classes@, i) by {
                assert(is_core(q, point, eps, min_pts));
            }
            assert forall|k: int| 0 <= k < set.len() implies #[trigger] set@[k] < n && classes@[set@[k] as int] is Classified by {
                let m = choose|m: int| 0 <= m < neighbors.len() && neighbors@[m] == set@[k];
            }
            assert forall|c: usize|
                c < n && is_core(q, c, eps, min_pts) && #[trigger] classes@[c as int] == Class::Classified(cluster_id)
                    implies set@.contains(c) || saturated(q, eps, min_pts, classes@, c) by {
                if c != point {
                    assert(neighbors@.to_set().contains(c));
                    let m = choose|m: int| 0 <= m < neighbors.len() && neighbors@[m] == c;
                }
            }
        }
        while set.len() > 0
            invariant
                classes.len() == n,
                n == q.size(),
                point < n,
                self.wf(),
                q == self.region_query,
                eps == self.eps,
                min_pts == self.min_pts,
                advances(start, classes@),
                start.len() == n,
                symmetric_regions(q, eps),
                forall|i: int| 0 <= i < n && classes@[i] != start[i] ==> #[trigger] classes@[i] == Class::Classified(cluster_id),
                forall|c: usize| c < n && is_core(q, c, eps, min_pts) && #[trigger] classes@[c as int] == Class::Classified(cluster_id) ==> chained(q, eps, min_pts, point, c),
                classes@[point as int] == Class::Classified(cluster_id),
                forall|k: int| 0 <= k < set.len() ==> #[trigger] set@[k] < n && classes@[set@[k] as int] is Classified,
                progress_inv(q, eps, min_pts, classes@, cluster_id as nat + 1, cluster_id as nat),
                forall|c: usize|
                    c < n && is_core(q, c, eps, min_pts) && #[trigger] classes@[c as int] == Class::Classified(cluster_id)
                        ==> set@.contains(c) || saturated(q, eps, min_pts, classes@, c),
                unc.finite(),
                forall|i: int| #[trigger] unc.contains(i) <==> 0 <= i < n && classes@[i] is Unclassified,
            decreases set.len() + unc.len(),
        {
            let ghost pre = set@;
            let c = set.pop().unwrap();
            let ghost popped = set@;
            proof {
                assert(pre == popped.push(c));
                assert forall|c2: usize|
                    c2 < n && is_core(q, c2, eps, min_pts) && #[trigger] classes@[c2 as int] == Class::Classified(cluster_id)
                        implies c2 == c || set@.contains(c2) || saturated(q, eps, min_pts, classes@, c2) by {
                    if pre.contains(c2) && c2 != c {
                        let k = choose|k: int| 0 <= k < pre.len() && pre[k] == c2;
                        assert(popped[k] == c2);
                    }
                }
            }
            let ghost at_pop = classes@;
            let ghost measure = set.len() + unc.len();
            let m = self.region_query.run(c, self.eps);
            proof {
                m@.unique_seq_to_set();
                q.lemma_region_bounds(c, eps);
            }
            if m.len() >= self.min_pts {
                proof {
                    assert forall|k: int| 0 <= k < m.len() implies #[trigger] m@[k] < n by {
                        assert(m@.to_set().contains(m@[k]));
                    }
                }
                let mut j: usize = 0;
                while j < m.len()
                    invariant
                        0 <= j <= m.len(),
                        m@.to_set() == q.region(c, eps),
                        forall|k: int| 0 <= k < m.len() ==> #[trigger] m@[k] < n,
                        is_core(q, c, eps, min_pts),
                        c < n,
                        classes.len() == n,
                        n == q.size(),
                        point < n,
                        advances(start, classes@),
                        advances(at_pop, classes@),
                        start.len() == n,
                        symmetric_regions(q, eps),
                        forall|i: int| 0 <= i < n && classes@[i] != start[i] ==> #[trigger] classes@[i] == Class::Classified(cluster_id),
                        forall|c: usize| c < n && is_core(q, c, eps, min_pts) && #[trigger] classes@[c as int] == Class::Classified(cluster_id) ==> chained(q, eps, min_pts, point, c),
                        forall|k: int| 0 <= k < j && at_pop[c as int] == Class::Classified(cluster_id) && is_core(q, m@[k], eps, min_pts)
                            ==> #[trigger] classes@[m@[k] as int] == Class::Classified(cluster_id),
                        classes@[c as int] == at_pop[c as int],
                        at_pop[c as int] is Classified,
                        at_pop[c as int] != Class::Classified(cluster_id) ==> saturated(q, eps, min_pts, classes@, c),
                        classes@[point as int] == Class::Classified(cluster_id),
                        forall|k: int| 0 <= k < j ==> (#[trigger] classes@[m@[k] as int]) is Classified,
                        forall|k: int| 0 <= k < set.len() ==> #[trigger] set@[k] < n && classes@[set@[k] as int] is Classified,
                        forall|x: usize| popped.contains(x) ==> set@.contains(x),
                        progress_inv(q, eps, min_pts, classes@, cluster_id as nat + 1, cluster_id as nat),
                        forall|c2: usize|
                            c2 < n && is_core(q, c2, eps, min_pts) && #[trigger] classes@[c2 as int] == Class::Classified(cluster_id)
                                ==> c2 == c || set@.contains(c2) || saturated(q, eps, min_pts, classes@, c2),
                        unc.finite(),
                        forall|i: int| #[trigger] unc.contains(i) <==> 0 <= i < n && classes@[i] is Unclassified,
                        set.len() + unc.len() == measure,
                    decreases m.len() - j,
                {
                    let p = m[j];
                    let ghost before = classes@;
                    let ghost set_before = set@;
                    proof {
                        assert(m@.to_set().contains(p));
                    }
                    match classes[p] {
                        Class::Classified(_) => {},
                        Class::Unclassified => {
                            set.push(p);
                            classes.set(p, Class::Classified(cluster_id));
                            proof {
                                unc = unc.remove(p as int);
                            }
                        },
                        Class::Noise => {
                            classes.set(p, Class::Classified(cluster_id));
                        },
                    }
                    proof {
                        if at_pop[c as int] == Class::Classified(cluster_id) && is_core(q, p, eps, min_pts) {
                            assert(!(before[p as int] is Noise));
                            if before[p as int] is Classified && before[p as int] != Class::Classified(cluster_id) {
                                assert(before[p as int]->Classified_0 < cluster_id);
                                assert(saturated(q, eps, min_pts, before, p));
                                assert(q.region(p, eps).contains(c) == q.region(c, eps).contains(p));
                                assert(before[c as int] == before[p as int]);
                            }
                            assert(classes@[p as int] == Class::Classified(cluster_id));
                        }
                        assert(advances(before, classes@));
                        if classes@ != before {
                            assert(classes@[c as int] == Class::Classified(cluster_id));
                            if is_core(q, p, eps, min_pts) {
                                assert(before[c as int] == Class::Classified(cluster_id));
                                lemma_chain_push(q, eps, min_pts, point, c, p);
                            }
                            assert forall|c2: usize| c2 < n && is_core(q, c2, eps, min_pts) && #[trigger] classes@[c2 as int] == Class::Classified(cluster_id)
                                implies chained(q, eps, min_pts, point, c2) by {
                                if c2 != p {
                                    assert(before[c2 as int] == classes@[c2 as int]);
                                }
                            }
                            assert(backed(q, eps, min_pts, classes@, p));
                        }
                        assert forall|x: usize| set_before.contains(x) implies set@.contains(x) by {
                            let k = choose|k: int| 0 <= k < set_before.len() && set_before[k] == x;
                            assert(set@[k] == x);
                        }
                        assert forall|c2: usize| c2 < cluster_id + 1 implies #[trigger] names_cluster(classes@, c2) by {
                            lemma_names_kept(before, classes@, c2);
                        }
                        assert forall|i: usize| i < n implies #[trigger] backed(q, eps, min_pts, classes@, i) by {
                            assert(backed(q, eps, min_pts, before, i));
                            if i != p {
                                lemma_backed_kept(q, eps, min_pts, before, classes@, i);
                            }
                        }
                        assert forall|c2: usize|
                            c2 < n && is_core(q, c2, eps, min_pts) && (#[trigger] classes@[c2 as int]) is Classified
                                && classes@[c2 as int]->Classified_0 < cluster_id implies saturated(q, eps, min_pts, classes@, c2) by {
                            assert(before[c2 as int] == classes@[c2 as int]);
                            lemma_saturated_kept(q, eps, min_pts, before, classes@, c2);
                        }
                        assert forall|c2: usize|
                            c2 < n && is_core(q, c2, eps, min_pts) && #[trigger] classes@[c2 as int] == Class::Classified(cluster_id)
                                implies c2 == c || set@.contains(c2) || saturated(q, eps, min_pts, classes@, c2) by {
                            if c2 != p || before[c2 as int] is Classified {
                                if saturated(q, eps, min_pts, before, c2) {
                                    lemma_saturated_kept(q, eps, min_pts, before, classes@, c2);
                                }
                            } else {
                                assert(set@.last() == p);
                            }
                        }
                        if at_pop[c as int] != Class::Classified(cluster_id) {
                            lemma_saturated_kept(q, eps, min_pts, before, classes@, c);
                        }
                    }
                    j += 1;
                }
                proof {
                    assert forall|x: usize| #[trigger] q.region(c, eps).contains(x) implies x < classes@.len()
                        && classes@[x as int] is Classified by {
                        assert(m@.to_set().contains(x));
                        let k = choose|k: int| 0 <= k < m.len() && m@[k] == x;
                        assert(classes@[m@[k] as int] is Classified);
                    }
                    assert(saturated(q, eps, min_pts, classes@, c));
                }
            }
            proof {
                assert forall|c2: usize|
                    c2 < n && is_core(q, c2, eps, min_pts) && #[trigger] classes@[c2 as int] == Class::Classified(cluster_id)
                        implies set@.contains(c2) || saturated(q, eps, min_pts, classes@, c2) by {
                    if c2 == c {
                        assert(m.len() >= min_pts);
                    }
                }
            }
        }
        proof {
            assert forall|i: usize| i < n && #[trigger] classes@[i as int] != start[i as int]
                implies reached(q, eps, min_pts, point, i) by {
                assert(classes@[i as int] == Class::Classified(cluster_id));
                assert(backed(q, eps, min_pts, classes@, i));
                let p = choose|p: usize|
                    p < classes@.len() && #[trigger] is_core(q, p, eps, min_pts) && classes@[p as int]
                        == classes@[i as int] && q.region(p, eps).contains(i);
                assert(chained(q, eps, min_pts, point, p));
            }
        }
        true
    }

    /// Clusters the points of the engine: returns the label of each point,
    /// indexed by point.
    pub fn dbscan(&self) -> (r: Vec<Class>)
        requires
            self.wf(),
        ensures
            is_clustering(self.region_query, self.eps, self.min_pts, r@),
    {
        let ghost q = self.region_query;
        let ghost eps = self.eps;
        let ghost min_pts = self.min_pts;
        let n = self.region_query.len();
        let mut classes: Vec<Class> = Vec::new();
        let mut i: usize = 0;
        while i < n
            invariant
                i <= n,
                classes.len() == i,
                forall|k: int| 0 <= k < i ==> (#[trigger] classes@[k]) is Unclassified,
            decreases n - i,
        {
            classes.push(Class::Unclassified);
            i += 1;
        }
        proof {
            assert forall|p: usize, c: usize| p < q.size() && c < q.size() implies (#[trigger] q.region(p, eps).contains(c))
                == q.region(c, eps).contains(p) by {
                q.lemma_region_symmetric(p, c, eps);
            }
        }
        let mut cluster_id: usize = 0;
        let ghost mut seeds: Seq<usize> = Seq::empty();
        let mut i: usize = 0;
        while i < n
            invariant
                self.wf(),
                q == self.region_query,
                eps == self.eps,
                min_pts == self.min_pts,
                n == q.size(),
                classes.len() == n,
                i <= n,
                cluster_id <= i,
                progress_inv(q, eps, min_pts, classes@, cluster_id as nat, cluster_id as nat),
                symmetric_regions(q, eps),
                forall|k: int| 0 <= k < i ==> !(#[trigger] classes@[k] is Unclassified),
                seeds.len() == cluster_id,
                forall|c: usize| c < n && is_core(q, c, eps, min_pts) && (#[trigger] classes@[c as int]) is Classified
                    ==> classes@[c as int]->Classified_0 < seeds.len() && chained(q, eps, min_pts, seeds[classes@[c as int]->Classified_0 as int], c),
            decreases n - i,
        {
            match classes[i] {
                Class::Classified(_) | Class::Noise => {},
                Class::Unclassified => {
                    let ghost before = classes@;
                    let ghost old_seeds = seeds;
                    let ghost id = cluster_id;
                    if self.expand_cluster(i, cluster_id, &mut classes) {
                        cluster_id += 1;
                        proof {
                            seeds = seeds.push(i);
                        }
                    }
                    proof {
                        assert forall|c: usize| c < n && is_core(q, c, eps, min_pts) && (#[trigger] classes@[c as int]) is Classified
                            implies classes@[c as int]->Classified_0 < seeds.len() && chained(q, eps, min_pts, seeds[classes@[c as int]->Classified_0 as int], c) by {
                            if classes@[c as int] != before[c as int] {
                                assert(classes@[c as int] == Class::Classified(id));
                                assert(seeds[id as int] == i);
                            } else {
                                assert(before[c as int] is Classified);
                                assert(before[c as int]->Classified_0 < old_seeds.len());
                                assert(seeds[before[c as int]->Classified_0 as int] == old_seeds[before[c as int]->Classified_0 as int]);
                            }
                        }
                        assert forall|k: int| 0 <= k < i implies !(#[trigger] classes@[k] is Unclassified) by {
                            assert(!(before[k] is Unclassified));
                        }
                    }
                },
            }
            i += 1;
        }
        proof {
            assert(ids_below(classes@, cluster_id as nat));
            assert forall|p: usize| p < classes.len() && is_core(q, p, eps, min_pts) implies classes@[p as int] is Classified by {
                assert(!(classes@[p as int] is Unclassified));
            }
            assert forall|p: usize|
                p < classes.len() && is_core(q, p, eps, min_pts) implies saturated(q, eps, min_pts, classes@, p) by {
                assert(!(classes@[p as int] is Unclassified));
                assert(classes@[p as int] is Classified);
            }
            assert(all_labelled(classes@));
            assert forall|p: usize, c: usize|
                p < classes.len() && c < classes.len() && is_core(q, p, eps, min_pts) && is_core(q, c, eps, min_pts)
                    && #[trigger] classes@[p as int] == #[trigger] classes@[c as int] && classes@[p as int] is Classified
                    implies chained(q, eps, min_pts, p, c) by {
                let k = classes@[p as int]->Classified_0;
                lemma_chain_join(q, eps, min_pts, seeds[k as int], p, c);
            }
        }
        classes
    }

}

} // verus!
