//! DBSCAN clustering over a precomputed neighbourhood relation.
//!
//! The geometric radius query (which points lie within `eps` of a point) is
//! floating-point work done by the caller; what is decided here is, from the
//! neighbour lists alone, which points are core, edge or noise points and which
//! cluster each belongs to.

use std::collections::VecDeque;
use vstd::prelude::*;

verus! {

/// Classification according to the DBSCAN algorithm.
#[derive(Debug, Copy, Clone, PartialEq, Eq, PartialOrd, Structural)]
pub enum Classification {
    /// A point with at least `min_points` neighbors within `eps` diameter
    Core(usize),
    /// A point within `eps` of a core point, but has less than `min_points` neighbors
    Edge(usize),
    /// A point with no connections
    Noise,
}

// ----------------------------------------------------------------------------
// The neighbourhood relation
// ----------------------------------------------------------------------------

/// The neighbour lists of a `Vec<Vec<usize>>`, as sequences.
pub open spec fn lists_of(neighbors: Seq<Vec<usize>>) -> Seq<Seq<usize>> {
    neighbors.map_values(|v: Vec<usize>| v@)
}

/// Every neighbour index names a point.
pub open spec fn in_range(nb: Seq<Seq<usize>>) -> bool {
    forall|i: int, t: int|
        0 <= i < nb.len() && 0 <= t < nb[i].len() ==> #[trigger] nb[i][t] < nb.len()
}

/// `q` lists `p` as a neighbour exactly when `p` lists `q`.
pub open spec fn symmetric(nb: Seq<Seq<usize>>) -> bool {
    forall|i: usize, j: usize|
        #![trigger nb[i as int].contains(j)]
        #![trigger nb[j as int].contains(i)]
        i < nb.len() && j < nb.len() ==> (nb[i as int].contains(j) <==> nb[j as int].contains(i))
}

/// The shape of neighbour lists that a radius query produces.
pub open spec fn is_neighborhood(nb: Seq<Seq<usize>>) -> bool {
    in_range(nb) && symmetric(nb)
}

/// A point with at least `min_points` neighbours (itself included when listed).
pub open spec fn is_core(nb: Seq<Seq<usize>>, min_points: usize, i: int) -> bool {
    nb[i].len() >= min_points
}

/// Two core points, the first listing the second as a neighbour.
pub open spec fn linked(nb: Seq<Seq<usize>>, min_points: usize, p: usize, q: usize) -> bool {
    &&& p < nb.len()
    &&& q < nb.len()
    &&& is_core(nb, min_points, p as int)
    &&& is_core(nb, min_points, q as int)
    &&& nb[p as int].contains(q)
}

/// Some core point lists `i` as a neighbour.
pub open spec fn adjacent_to_core(nb: Seq<Seq<usize>>, min_points: usize, i: usize) -> bool {
    exists|p: usize|
        p < nb.len() && is_core(nb, min_points, p as int) && #[trigger] nb[p as int].contains(i)
}

/// Step `t` of `path` follows a neighbour link.
pub open spec fn path_step(nb: Seq<Seq<usize>>, path: Seq<usize>, t: int) -> bool {
    nb[path[t] as int].contains(path[t + 1])
}

/// A non-empty walk through core points along neighbour links.
pub open spec fn is_core_path(nb: Seq<Seq<usize>>, min_points: usize, path: Seq<usize>) -> bool {
    &&& path.len() > 0
    &&& forall|t: int|
        0 <= t < path.len() ==> #[trigger] path[t] < nb.len() && is_core(
            nb,
            min_points,
            path[t] as int,
        )
    &&& forall|t: int| 0 <= t < path.len() - 1 ==> #[trigger] path_step(nb, path, t)
}

/// Core points `p` and `q` are joined by a walk through core points.
pub open spec fn connected(nb: Seq<Seq<usize>>, min_points: usize, p: usize, q: usize) -> bool {
    exists|path: Seq<usize>|
        #[trigger] is_core_path(nb, min_points, path) && path[0] == p && path.last() == q
}

// ----------------------------------------------------------------------------
// What a labelling must be
// ----------------------------------------------------------------------------

/// The cluster number a label carries, or -1 for noise.
pub open spec fn label_id(c: Classification) -> int {
    match c {
        Classification::Core(k) => k as int,
        Classification::Edge(k) => k as int,
        Classification::Noise => -1,
    }
}

/// Exactly the core points are labelled `Core`.
pub open spec fn cores_exact(nb: Seq<Seq<usize>>, min_points: usize, c: Seq<Classification>) -> bool {
    forall|i: usize| i < c.len() ==> (#[trigger] c[i as int] is Core <==> is_core(nb, min_points, i as int))
}

/// A non-core point is noise exactly when no core point lists it.
pub open spec fn noise_exact(nb: Seq<Seq<usize>>, min_points: usize, c: Seq<Classification>) -> bool {
    forall|i: usize|
        i < c.len() && !is_core(nb, min_points, i as int) ==> (#[trigger] c[i as int] is Noise
            <==> !adjacent_to_core(nb, min_points, i))
}

/// Linked core points share their label.
pub open spec fn links_share_cluster(
    nb: Seq<Seq<usize>>,
    min_points: usize,
    c: Seq<Classification>,
) -> bool {
    forall|p: usize, q: usize| #[trigger] linked(nb, min_points, p, q) ==> c[p as int] == c[q as int]
}

/// Core points with one label are joined by a walk through core points.
pub open spec fn clusters_connected(
    nb: Seq<Seq<usize>>,
    min_points: usize,
    c: Seq<Classification>,
) -> bool {
    forall|p: usize, q: usize|
        #![trigger c[p as int], c[q as int]]
        p < c.len() && q < c.len() && is_core(nb, min_points, p as int) && is_core(
            nb,
            min_points,
            q as int,
        ) && label_id(c[p as int]) == label_id(c[q as int]) ==> connected(nb, min_points, p, q)
}

/// Clusters are numbered 0, 1, 2, ... in the order of their first core point.
pub open spec fn numbered_in_order(
    nb: Seq<Seq<usize>>,
    min_points: usize,
    c: Seq<Classification>,
) -> bool {
    &&& forall|i: usize| i < c.len() && !(#[trigger] c[i as int] is Noise) ==> label_id(c[i as int]) >= 0
    &&& forall|i: usize|
        i < c.len() && is_core(nb, min_points, i as int) && label_id(#[trigger] c[i as int]) > 0
            ==> exists|j: usize|
            j < i && is_core(nb, min_points, j as int) && label_id(#[trigger] c[j as int])
                == label_id(c[i as int]) - 1
}

/// An edge point joins a cluster of a core point that lists it, the
/// lowest-numbered one.
pub open spec fn edges_join_first_cluster(
    nb: Seq<Seq<usize>>,
    min_points: usize,
    c: Seq<Classification>,
) -> bool {
    forall|i: usize|
        i < c.len() && #[trigger] c[i as int] is Edge ==> {
            &&& exists|p: usize|
                p < c.len() && is_core(nb, min_points, p as int) && #[trigger] nb[p as int].contains(i)
                    && label_id(c[p as int]) == label_id(c[i as int])
            &&& forall|p: usize|
                p < c.len() && is_core(nb, min_points, p as int) && #[trigger] nb[p as int].contains(i)
                    ==> label_id(c[i as int]) <= label_id(c[p as int])
        }
}

/// The DBSCAN labelling of the points with neighbour lists `nb`: core points
/// by neighbour count, clusters as the connected groups of core points
/// numbered by first appearance, edge points in the first cluster that
/// reaches them, the rest noise. At most one labelling meets it.
pub open spec fn is_dbscan_labeling(
    nb: Seq<Seq<usize>>,
    min_points: usize,
    c: Seq<Classification>,
) -> bool {
    &&& c.len() == nb.len()
    &&& cores_exact(nb, min_points, c)
    &&& noise_exact(nb, min_points, c)
    &&& links_share_cluster(nb, min_points, c)
    &&& clusters_connected(nb, min_points, c)
    &&& numbered_in_order(nb, min_points, c)
    &&& edges_join_first_cluster(nb, min_points, c)
}

// ----------------------------------------------------------------------------
// Walks through core points
// ----------------------------------------------------------------------------

proof fn lemma_path_single(nb: Seq<Seq<usize>>, min_points: usize, p: usize)
    requires
        p < nb.len(),
        is_core(nb, min_points, p as int),
    ensures
        connected(nb, min_points, p, p),
{
    let path = seq![p];
    assert(is_core_path(nb, min_points, path));
}

proof fn lemma_path_extend(nb: Seq<Seq<usize>>, min_points: usize, p: usize, q: usize, r: usize)
    requires
        connected(nb, min_points, p, q),
        linked(nb, min_points, q, r),
    ensures
        connected(nb, min_points, p, r),
{
    let path = choose|path: Seq<usize>|
        #[trigger] is_core_path(nb, min_points, path) && path[0] == p && path.last() == q;
    let longer = path.push(r);
    assert forall|t: int| 0 <= t < longer.len() - 1 implies #[trigger] path_step(nb, longer, t) by {
        if t < path.len() - 1 {
            assert(path_step(nb, path, t));
        }
    }
    assert(is_core_path(nb, min_points, longer));
}

proof fn lemma_path_reverse(nb: Seq<Seq<usize>>, min_points: usize, p: usize, q: usize)
    requires
        symmetric(nb),
        connected(nb, min_points, p, q),
    ensures
        connected(nb, min_points, q, p),
{
    let path = choose|path: Seq<usize>|
        #[trigger] is_core_path(nb, min_points, path) && path[0] == p && path.last() == q;
    let n = path.len();
    let rev = Seq::new(n, |t: int| path[n - 1 - t]);
    assert forall|t: int| 0 <= t < rev.len() - 1 implies #[trigger] path_step(nb, rev, t) by {
        let s = n - 2 - t;
        assert(path_step(nb, path, s));
        assert(path[s] < nb.len() && path[s + 1] < nb.len());
        assert(nb[path[s] as int].contains(path[s + 1]));
        assert(rev[t] == path[s + 1]);
        assert(rev[t + 1] == path[s]);
    }
    assert forall|t: int| 0 <= t < rev.len() implies #[trigger] rev[t] < nb.len() && is_core(
        nb,
        min_points,
        rev[t] as int,
    ) by {
        assert(path[n - 1 - t] < nb.len());
    }
    assert(is_core_path(nb, min_points, rev));
}

proof fn lemma_path_join(nb: Seq<Seq<usize>>, min_points: usize, p: usize, q: usize, r: usize)
    requires
        connected(nb, min_points, p, q),
        connected(nb, min_points, q, r),
    ensures
        connected(nb, min_points, p, r),
{
    let a = choose|path: Seq<usize>|
        #[trigger] is_core_path(nb, min_points, path) && path[0] == p && path.last() == q;
    let b = choose|path: Seq<usize>|
        #[trigger] is_core_path(nb, min_points, path) && path[0] == q && path.last() == r;
    let joined = a + b.drop_first();
    assert forall|t: int| 0 <= t < joined.len() implies #[trigger] joined[t] < nb.len() && is_core(
        nb,
        min_points,
        joined[t] as int,
    ) by {
        if t >= a.len() {
            assert(b[t - a.len() + 1] < nb.len());
        } else {
            assert(a[t] < nb.len());
        }
    }
    assert forall|t: int| 0 <= t < joined.len() - 1 implies #[trigger] path_step(nb, joined, t) by {
        if t < a.len() - 1 {
            assert(path_step(nb, a, t));
        } else if t == a.len() - 1 {
            if b.len() > 1 {
                assert(path_step(nb, b, 0));
            }
        } else {
            assert(path_step(nb, b, t - a.len() + 1));
        }
    }
    if b.len() == 1 {
        assert(joined.last() == a.last());
    } else {
        assert(joined.last() == b.last());
    }
    assert(is_core_path(nb, min_points, joined));
}

// ----------------------------------------------------------------------------
// Counting queued points (the measure of the breadth-first expansion)
// ----------------------------------------------------------------------------

/// The number of `true` entries.
pub open spec fn count_true(s: Seq<bool>) -> nat
    decreases s.len(),
{
    if s.len() == 0 {
        0
    } else {
        count_true(s.drop_last()) + if s.last() {
            1nat
        } else {
            0nat
        }
    }
}

proof fn lemma_count_true_bound(s: Seq<bool>)
    ensures
        count_true(s) <= s.len(),
    decreases s.len(),
{
    if s.len() > 0 {
        lemma_count_true_bound(s.drop_last());
    }
}

proof fn lemma_count_true_set(s: Seq<bool>, i: int)
    requires
        0 <= i < s.len(),
        !s[i],
    ensures
        count_true(s.update(i, true)) == count_true(s) + 1,
    decreases s.len(),
{
    let u = s.update(i, true);
    if i == s.len() - 1 {
        assert(u.drop_last() =~= s.drop_last());
    } else {
        assert(u.drop_last() =~= s.drop_last().update(i, true));
        lemma_count_true_set(s.drop_last(), i);
    }
}


// ----------------------------------------------------------------------------
// Breadth-first expansion
// ----------------------------------------------------------------------------

/// Queues every not-yet-queued neighbour of `y`, in list order.
fn enqueue_neighbors(
    neighbors: &Vec<Vec<usize>>,
    y: usize,
    queued: &mut Vec<bool>,
    queue: &mut VecDeque<usize>,
)
    requires
        in_range(lists_of(neighbors@)),
        y < neighbors.len(),
        old(queued).len() == neighbors.len(),
        forall|t: int|
            0 <= t < old(queue)@.len() ==> #[trigger] old(queue)@[t] < neighbors.len()
                && old(queued)@[old(queue)@[t] as int],
        old(queue)@.no_duplicates(),
    ensures
        final(queued).len() == neighbors.len(),
        forall|x: usize|
            x < neighbors.len() ==> #[trigger] final(queued)@[x as int] == (old(queued)@[x as int]
                || neighbors@[y as int]@.contains(x)),
        forall|x: usize|
            x < neighbors.len() ==> (#[trigger] final(queue)@.contains(x) <==> (old(queue)@.contains(x)
                || (neighbors@[y as int]@.contains(x) && !old(queued)@[x as int]))),
        forall|t: int|
            0 <= t < final(queue)@.len() ==> #[trigger] final(queue)@[t] < neighbors.len()
                && final(queued)@[final(queue)@[t] as int],
        final(queue)@.no_duplicates(),
        final(queue)@.len() >= old(queue)@.len(),
        final(queue)@.subrange(0, old(queue)@.len() as int) == old(queue)@,
        count_true(final(queued)@) == count_true(old(queued)@) + (final(queue)@.len() - old(
            queue,
        )@.len()),
{
    let ghost q0 = queue@;
    let ghost qd0 = queued@;
    let ghost nb = lists_of(neighbors@);
    let ghost ny = neighbors@[y as int]@;
    let n = neighbors.len();
    let len = neighbors[y].len();
    let mut t: usize = 0;
    while t < len
        invariant
            n == neighbors.len(),
            len == ny.len(),
            ny == neighbors@[y as int]@,
            nb == lists_of(neighbors@),
            in_range(nb),
            y < n,
            t <= len,
            queued.len() == n,
            qd0.len() == n,
            forall|x: usize|
                x < n ==> #[trigger] queued@[x as int] == (qd0[x as int] || ny.subrange(
                    0,
                    t as int,
                ).contains(x)),
            forall|x: usize|
                x < n ==> (#[trigger] queue@.contains(x) <==> (q0.contains(x) || (ny.subrange(
                    0,
                    t as int,
                ).contains(x) && !qd0[x as int]))),
            forall|u: int|
                0 <= u < queue@.len() ==> #[trigger] queue@[u] < n && queued@[queue@[u] as int],
            queue@.no_duplicates(),
            queue@.len() >= q0.len(),
            queue@.subrange(0, q0.len() as int) == q0,
            count_true(queued@) == count_true(qd0) + (queue@.len() - q0.len()),
        decreases len - t,
    {
        let x = neighbors[y][t];
        proof {
            assert(nb[y as int] == ny);
            assert(nb[y as int][t as int] < nb.len());
        }
        let ghost pre_q = queue@;
        let ghost pre_qd = queued@;
        if !queued[x] {
            proof {
                lemma_count_true_set(queued@, x as int);
            }
            queued.set(x, true);
            queue.push_back(x);
            proof {
                assert forall|i: int, j: int|
                    0 <= i < queue@.len() && 0 <= j < queue@.len() && i != j implies queue@[i]
                    != queue@[j] by {
                    if i < pre_q.len() && j < pre_q.len() {
                    } else if i < pre_q.len() {
                        assert(queued@[pre_q[i] as int]);
                        assert(pre_qd[pre_q[i] as int]);
                    } else if j < pre_q.len() {
                        assert(pre_qd[pre_q[j] as int]);
                    }
                }
                assert(queue@.subrange(0, q0.len() as int) =~= q0);
            }
        }
        proof {
            let pre = ny.subrange(0, t as int);
            let post = ny.subrange(0, t + 1);
            assert(post =~= pre.push(x));
            assert forall|z: usize| z < n implies #[trigger] queued@[z as int] == (qd0[z as int]
                || post.contains(z)) by {
                if post.contains(z) && !pre.contains(z) {
                    let w = choose|w: int| 0 <= w < post.len() && post[w] == z;
                    assert(w == t);
                }
                if pre.contains(z) {
                    let w = choose|w: int| 0 <= w < pre.len() && pre[w] == z;
                    assert(post[w] == z);
                }
                if z == x {
                    assert(post[t as int] == z);
                }
            }
            assert forall|z: usize| z < n implies (#[trigger] queue@.contains(z) <==> (q0.contains(z)
                || (post.contains(z) && !qd0[z as int]))) by {
                if post.contains(z) && !pre.contains(z) {
                    let w = choose|w: int| 0 <= w < post.len() && post[w] == z;
                    assert(w == t);
                }
                if pre.contains(z) {
                    let w = choose|w: int| 0 <= w < pre.len() && pre[w] == z;
                    assert(post[w] == z);
                }
                if z == x {
                    assert(post[t as int] == z);
                    if !pre_qd[x as int] {
                        assert(queue@[queue@.len() - 1] == x);
                    }
                }
                if pre_q.contains(z) {
                    let w = choose|w: int| 0 <= w < pre_q.len() && pre_q[w] == z;
                    assert(queue@[w] == z);
                }
                if queue@.contains(z) && z != x {
                    let w = choose|w: int| 0 <= w < queue@.len() && queue@[w] == z;
                    if w < pre_q.len() {
                        assert(pre_q[w] == z);
                    }
                }
            }
        }
        t = t + 1;
    }
    proof {
        assert(ny.subrange(0, len as int) =~= ny);
    }
}


// ----------------------------------------------------------------------------
// The state of the clustering run
// ----------------------------------------------------------------------------

/// Edge point `x` sits next to a core point of its own cluster, and no core
/// point already labelled lists it under a smaller cluster number.
pub open spec fn edge_placed(nb: Seq<Seq<usize>>, c: Seq<Classification>, x: usize) -> bool {
    &&& exists|p: usize|
        p < nb.len() && #[trigger] nb[p as int].contains(x) && c[p as int]
            == Classification::Core(label_id(c[x as int]) as usize)
    &&& forall|p: usize|
        p < nb.len() && c[p as int] is Core && #[trigger] nb[p as int].contains(x) ==> label_id(
            c[x as int],
        ) <= label_id(c[p as int])
}

/// Queued point `x` is listed by a core point of cluster `k`.
pub open spec fn listed_by_cluster(
    nb: Seq<Seq<usize>>,
    c: Seq<Classification>,
    x: usize,
    k: int,
) -> bool {
    exists|p: usize|
        p < nb.len() && #[trigger] nb[p as int].contains(x) && c[p as int]
            == Classification::Core(k as usize)
}

/// What holds of the labels `c`, the visited flags `v`, the queued flags `qd`
/// and the work queue `q` whenever the clustering run is between steps;
/// `seeds[k]` is the point that started cluster `k`, the last one being the
/// cluster under expansion (the work queue is empty between expansions).
pub open spec fn run_state(
    nb: Seq<Seq<usize>>,
    min_points: usize,
    c: Seq<Classification>,
    v: Seq<bool>,
    qd: Seq<bool>,
    q: Seq<usize>,
    seeds: Seq<usize>,
) -> bool {
    let n = nb.len();
    &&& c.len() == n
    &&& v.len() == n
    &&& qd.len() == n
    &&& forall|x: usize|
        x < n && #[trigger] c[x as int] is Core ==> is_core(nb, min_points, x as int) && v[x as int]
            && qd[x as int]
    &&& forall|x: usize|
        x < n && #[trigger] c[x as int] is Edge ==> !is_core(nb, min_points, x as int) && v[x as int]
            && qd[x as int]
    &&& forall|x: usize|
        x < n && #[trigger] v[x as int] && is_core(nb, min_points, x as int) ==> c[x as int] is Core
    &&& forall|t: int|
        0 <= t < q.len() ==> #[trigger] q[t] < n && qd[q[t] as int] && c[q[t] as int] is Noise
    &&& q.no_duplicates()
    &&& forall|x: usize|
        x < n && #[trigger] qd[x as int] && !q.contains(x) ==> v[x as int] && !(c[x as int] is Noise)
    &&& forall|x: usize, t: int|
        x < n && c[x as int] is Core && 0 <= t < nb[x as int].len() ==> qd[#[trigger] nb[x as int][t] as int]
    &&& forall|x: usize|
        x < n && !(#[trigger] c[x as int] is Noise) ==> 0 <= label_id(c[x as int]) < seeds.len()
    &&& forall|j: int|
        0 <= j < seeds.len() ==> #[trigger] seeds[j] < n && c[seeds[j] as int]
            == Classification::Core(j as usize)
    &&& forall|j1: int, j2: int|
        0 <= j1 < j2 < seeds.len() ==> #[trigger] seeds[j1] < #[trigger] seeds[j2]
    &&& forall|x: usize|
        x < n && #[trigger] c[x as int] is Core ==> seeds[label_id(c[x as int])] <= x && connected(
            nb,
            min_points,
            seeds[label_id(c[x as int])],
            x,
        )
    &&& forall|x: usize| x < n && #[trigger] c[x as int] is Edge ==> edge_placed(nb, c, x)
    &&& forall|p: usize, r: usize|
        #[trigger] linked(nb, min_points, p, r) && c[p as int] is Core ==> c[r as int] == c[p as int]
            || (q.contains(r) && label_id(c[p as int]) == seeds.len() - 1)
    &&& forall|x: usize, t: int|
        x < n && c[x as int] is Core && label_id(c[x as int]) < seeds.len() - 1 && 0 <= t
            < nb[x as int].len() ==> !(c[#[trigger] nb[x as int][t] as int] is Noise)
    &&& forall|t: int|
        0 <= t < q.len() ==> listed_by_cluster(nb, c, #[trigger] q[t], seeds.len() - 1)
}

/// `qd2`/`q2` are `qd1`/`q1` after queueing the unqueued neighbours of `y`.
pub open spec fn enqueued(
    nb: Seq<Seq<usize>>,
    y: usize,
    qd1: Seq<bool>,
    q1: Seq<usize>,
    qd2: Seq<bool>,
    q2: Seq<usize>,
) -> bool {
    &&& qd2.len() == nb.len()
    &&& forall|x: usize|
        x < nb.len() ==> #[trigger] qd2[x as int] == (qd1[x as int] || nb[y as int].contains(x))
    &&& forall|x: usize|
        x < nb.len() ==> (#[trigger] q2.contains(x) <==> (q1.contains(x) || (nb[y as int].contains(x)
            && !qd1[x as int])))
    &&& forall|t: int| 0 <= t < q2.len() ==> #[trigger] q2[t] < nb.len() && qd2[q2[t] as int]
    &&& q2.no_duplicates()
}

/// Starting cluster `seeds.len()` at the unvisited core point `s`.
proof fn lemma_seed_step(
    nb: Seq<Seq<usize>>,
    min_points: usize,
    c: Seq<Classification>,
    v: Seq<bool>,
    qd: Seq<bool>,
    seeds: Seq<usize>,
    s: usize,
    qd1: Seq<bool>,
    q1: Seq<usize>,
)
    requires
        is_neighborhood(nb),
        run_state(nb, min_points, c, v, qd, seq![], seeds),
        s < nb.len(),
        !v[s as int],
        is_core(nb, min_points, s as int),
        forall|j: int| 0 <= j < seeds.len() ==> #[trigger] seeds[j] < s,
        seeds.len() < usize::MAX,
        enqueued(nb, s, qd.update(s as int, true), seq![], qd1, q1),
    ensures
        run_state(
            nb,
            min_points,
            c.update(s as int, Classification::Core(seeds.len() as usize)),
            v.update(s as int, true),
            qd1,
            q1,
            seeds.push(s),
        ),
{
    let n = nb.len();
    let k = seeds.len();
    let c1 = c.update(s as int, Classification::Core(k as usize));
    let v1 = v.update(s as int, true);
    let qd0 = qd.update(s as int, true);
    let s2 = seeds.push(s);
    let e: Seq<usize> = seq![];
    assert(c[s as int] is Noise);
    assert(!qd[s as int]);
    assert forall|t: int| 0 <= t < q1.len() implies #[trigger] q1[t] < n && qd1[q1[t] as int]
        && c1[q1[t] as int] is Noise by {
        let x = q1[t];
        assert(q1.contains(x));
        assert(!qd0[x as int]);
    }
    assert forall|x: usize| x < n && #[trigger] qd1[x as int] && !q1.contains(x) implies v1[x as int]
        && !(c1[x as int] is Noise) by {
        if x != s {
            assert(qd[x as int]);
            assert(!e.contains(x));
        }
    }
    assert forall|x: usize, t: int|
        x < n && c1[x as int] is Core && 0 <= t < nb[x as int].len() implies qd1[#[trigger] nb[x
        as int][t] as int] by {
        if x == s {
            assert(nb[s as int].contains(nb[s as int][t]));
        } else {
            assert(qd[nb[x as int][t] as int]);
        }
    }
    assert forall|x: usize|
        x < n && #[trigger] c1[x as int] is Core implies s2[label_id(c1[x as int])] <= x
        && connected(nb, min_points, s2[label_id(c1[x as int])], x) by {
        if x == s {
            lemma_path_single(nb, min_points, s);
        } else {
            assert(c1[x as int] == c[x as int]);
        }
    }
    assert forall|x: usize| x < n && #[trigger] c1[x as int] is Edge implies edge_placed(nb, c1, x) by {
        assert(c1[x as int] == c[x as int]);
        assert(edge_placed(nb, c, x));
        let p = choose|p: usize|
            p < nb.len() && #[trigger] nb[p as int].contains(x) && c[p as int]
                == Classification::Core(label_id(c[x as int]) as usize);
        assert(p != s);
        assert(nb[p as int].contains(x) && c1[p as int] == Classification::Core(label_id(c1[x as int]) as usize));
    }
    assert forall|p: usize, r: usize|
        #[trigger] linked(nb, min_points, p, r) && c1[p as int] is Core implies c1[r as int] == c1[p
        as int] || (q1.contains(r) && label_id(c1[p as int]) == s2.len() - 1) by {
        if p == s {
            if r != s {
                if qd[r as int] {
                    assert(!e.contains(r));
                    assert(c[r as int] is Core);
                    assert(nb[r as int].contains(s));
                    assert(linked(nb, min_points, r, s));
                    assert(c[s as int] == c[r as int] || e.contains(s));
                }
                assert(q1.contains(r));
            }
        } else {
            assert(c[p as int] is Core);
            if r == s {
                assert(c[s as int] == c[p as int] || e.contains(s));
            }
            assert(c[r as int] == c[p as int] || e.contains(r));
        }
    }
    assert forall|x: usize, t: int|
        x < n && c1[x as int] is Core && label_id(c1[x as int]) < s2.len() - 1 && 0 <= t
            < nb[x as int].len() implies !(c1[#[trigger] nb[x as int][t] as int] is Noise) by {
        assert(x != s);
        let y = nb[x as int][t];
        assert(qd[y as int]);
        assert(!e.contains(y));
    }
    assert forall|t: int| 0 <= t < q1.len() implies listed_by_cluster(nb, c1, #[trigger] q1[t], s2.len() - 1) by {
        let x = q1[t];
        assert(q1.contains(x));
        assert(nb[s as int].contains(x));
    }
    assert forall|j: int| 0 <= j < s2.len() implies #[trigger] s2[j] < n && c1[s2[j] as int]
        == Classification::Core(j as usize) by {
        if j < k {
            assert(s2[j] == seeds[j]);
            assert(seeds[j] != s);
        }
    }
    assert forall|j1: int, j2: int| 0 <= j1 < j2 < s2.len() implies #[trigger] s2[j1] < #[trigger] s2[j2] by {
        if j2 == k {
            assert(s2[j1] == seeds[j1]);
        } else {
            assert(s2[j1] == seeds[j1] && s2[j2] == seeds[j2]);
        }
    }
    assert forall|x: usize| x < n && !(#[trigger] c1[x as int] is Noise) implies 0 <= label_id(c1[x as int]) < s2.len() by {
    }
}


/// Taking the front `y` of the work queue when it is not a newly reached
/// core point: it becomes an edge point of the cluster under expansion.
proof fn lemma_pop_edge_step(
    nb: Seq<Seq<usize>>,
    min_points: usize,
    c: Seq<Classification>,
    v: Seq<bool>,
    qd: Seq<bool>,
    q: Seq<usize>,
    seeds: Seq<usize>,
)
    requires
        is_neighborhood(nb),
        run_state(nb, min_points, c, v, qd, q, seeds),
        q.len() > 0,
        seeds.len() > 0,
        v[q[0] as int] || !is_core(nb, min_points, q[0] as int),
    ensures
        run_state(
            nb,
            min_points,
            c.update(q[0] as int, Classification::Edge((seeds.len() - 1) as usize)),
            v.update(q[0] as int, true),
            qd,
            q.drop_first(),
            seeds,
        ),
{
    let n = nb.len();
    let y = q[0];
    let k = seeds.len() - 1;
    let c1 = c.update(y as int, Classification::Edge(k as usize));
    let v1 = v.update(y as int, true);
    let q1 = q.drop_first();
    assert(c[y as int] is Noise);
    assert(!is_core(nb, min_points, y as int));
    assert forall|x: usize| x < n implies (#[trigger] q1.contains(x) <==> (q.contains(x) && x != y)) by {
        if q.contains(x) && x != y {
            let w = choose|w: int| 0 <= w < q.len() && q[w] == x;
            assert(w != 0);
            assert(q1[w - 1] == x);
        }
        if q1.contains(x) {
            let w = choose|w: int| 0 <= w < q1.len() && q1[w] == x;
            assert(q[w + 1] == x);
            assert(w + 1 != 0);
        }
    }
    assert forall|t: int| 0 <= t < q1.len() implies #[trigger] q1[t] < n && qd[q1[t] as int]
        && c1[q1[t] as int] is Noise by {
        assert(q1[t] == q[t + 1]);
        assert(q[t + 1] != q[0]);
    }
    assert forall|x: usize| x < n && #[trigger] qd[x as int] && !q1.contains(x) implies v1[x as int]
        && !(c1[x as int] is Noise) by {
        if x != y {
            assert(!q.contains(x));
        }
    }
    assert forall|x: usize, t: int|
        x < n && c1[x as int] is Core && 0 <= t < nb[x as int].len() implies qd[#[trigger] nb[x
        as int][t] as int] by {
        assert(c[x as int] is Core);
    }
    assert forall|x: usize|
        x < n && #[trigger] c1[x as int] is Core implies seeds[label_id(c1[x as int])] <= x
        && connected(nb, min_points, seeds[label_id(c1[x as int])], x) by {
        assert(c1[x as int] == c[x as int]);
    }
    assert forall|x: usize| x < n && #[trigger] c1[x as int] is Edge implies edge_placed(nb, c1, x) by {
        if x == y {
            assert(listed_by_cluster(nb, c, q[0], k));
            let p = choose|p: usize|
                p < nb.len() && #[trigger] nb[p as int].contains(y) && c[p as int]
                    == Classification::Core(k as usize);
            assert(p != y);
            assert(nb[p as int].contains(x) && c1[p as int] == Classification::Core(label_id(c1[x as int]) as usize));
            assert forall|r: usize|
                r < nb.len() && c1[r as int] is Core && #[trigger] nb[r as int].contains(x) implies label_id(
                    c1[x as int],
                ) <= label_id(c1[r as int]) by {
                assert(c[r as int] is Core);
                if label_id(c[r as int]) < k {
                    let t = choose|t: int| 0 <= t < nb[r as int].len() && nb[r as int][t] == y;
                    assert(!(c[nb[r as int][t] as int] is Noise));
                }
            }
        } else {
            assert(c1[x as int] == c[x as int]);
            assert(edge_placed(nb, c, x));
            let p = choose|p: usize|
                p < nb.len() && #[trigger] nb[p as int].contains(x) && c[p as int]
                    == Classification::Core(label_id(c[x as int]) as usize);
            assert(p != y);
            assert(nb[p as int].contains(x) && c1[p as int] == Classification::Core(label_id(c1[x as int]) as usize));
            assert forall|r: usize|
                r < nb.len() && c1[r as int] is Core && #[trigger] nb[r as int].contains(x) implies label_id(
                    c1[x as int],
                ) <= label_id(c1[r as int]) by {
                assert(c[r as int] is Core);
            }
        }
    }
    assert forall|p: usize, r: usize|
        #[trigger] linked(nb, min_points, p, r) && c1[p as int] is Core implies c1[r as int] == c1[p
        as int] || (q1.contains(r) && label_id(c1[p as int]) == seeds.len() - 1) by {
        assert(c[p as int] is Core);
        assert(r != y);
        assert(c[r as int] == c[p as int] || (q.contains(r) && label_id(c[p as int]) == seeds.len() - 1));
    }
    assert forall|x: usize, t: int|
        x < n && c1[x as int] is Core && label_id(c1[x as int]) < seeds.len() - 1 && 0 <= t
            < nb[x as int].len() implies !(c1[#[trigger] nb[x as int][t] as int] is Noise) by {
        assert(c[x as int] is Core);
        assert(!(c[nb[x as int][t] as int] is Noise));
    }
    assert forall|t: int| 0 <= t < q1.len() implies listed_by_cluster(nb, c1, #[trigger] q1[t], seeds.len() - 1) by {
        assert(q1[t] == q[t + 1]);
        assert(listed_by_cluster(nb, c, q[t + 1], k));
        let p = choose|p: usize|
            p < nb.len() && #[trigger] nb[p as int].contains(q[t + 1]) && c[p as int]
                == Classification::Core(k as usize);
        assert(p != y);
        assert(nb[p as int].contains(q1[t]) && c1[p as int] == Classification::Core(k as usize));
    }
    assert forall|j: int| 0 <= j < seeds.len() implies #[trigger] seeds[j] < n && c1[seeds[j] as int]
        == Classification::Core(j as usize) by {
        assert(seeds[j] != y);
    }
    assert forall|x: usize| x < n && #[trigger] v1[x as int] && is_core(nb, min_points, x as int) implies c1[x as int] is Core by {
        if x != y {
            assert(v[x as int]);
        }
    }
}

/// Taking the front `y` of the work queue when it is an unvisited core
/// point: it joins the cluster under expansion and its neighbours are queued.
proof fn lemma_pop_core_step(
    nb: Seq<Seq<usize>>,
    min_points: usize,
    c: Seq<Classification>,
    v: Seq<bool>,
    qd: Seq<bool>,
    q: Seq<usize>,
    seeds: Seq<usize>,
    qd2: Seq<bool>,
    q2: Seq<usize>,
)
    requires
        is_neighborhood(nb),
        run_state(nb, min_points, c, v, qd, q, seeds),
        q.len() > 0,
        seeds.len() > 0,
        !v[q[0] as int],
        is_core(nb, min_points, q[0] as int),
        forall|x: usize| x <= seeds.last() ==> v[x as int],
        enqueued(nb, q[0], qd, q.drop_first(), qd2, q2),
    ensures
        run_state(
            nb,
            min_points,
            c.update(q[0] as int, Classification::Core((seeds.len() - 1) as usize)),
            v.update(q[0] as int, true),
            qd2,
            q2,
            seeds,
        ),
{
    let n = nb.len();
    let y = q[0];
    let k = seeds.len() - 1;
    let c1 = c.update(y as int, Classification::Core(k as usize));
    let v1 = v.update(y as int, true);
    let q1 = q.drop_first();
    assert(c[y as int] is Noise);
    assert(y > seeds.last());
    assert forall|x: usize| x < n implies (#[trigger] q1.contains(x) <==> (q.contains(x) && x != y)) by {
        if q.contains(x) && x != y {
            let w = choose|w: int| 0 <= w < q.len() && q[w] == x;
            assert(w != 0);
            assert(q1[w - 1] == x);
        }
        if q1.contains(x) {
            let w = choose|w: int| 0 <= w < q1.len() && q1[w] == x;
            assert(q[w + 1] == x);
            assert(w + 1 != 0);
        }
    }
    assert forall|t: int| 0 <= t < q2.len() implies #[trigger] q2[t] < n && qd2[q2[t] as int]
        && c1[q2[t] as int] is Noise by {
        let x = q2[t];
        assert(q2.contains(x));
        if q1.contains(x) {
            let w = choose|w: int| 0 <= w < q1.len() && q1[w] == x;
            assert(q[w + 1] == x);
        } else {
            assert(!qd[x as int]);
            assert(x != y);
        }
    }
    assert forall|x: usize| x < n && #[trigger] qd2[x as int] && !q2.contains(x) implies v1[x as int]
        && !(c1[x as int] is Noise) by {
        if x != y {
            assert(!q1.contains(x));
            assert(qd[x as int]);
            assert(!q.contains(x));
        }
    }
    assert forall|x: usize, t: int|
        x < n && c1[x as int] is Core && 0 <= t < nb[x as int].len() implies qd2[#[trigger] nb[x
        as int][t] as int] by {
        if x == y {
            assert(nb[y as int].contains(nb[y as int][t]));
        } else {
            assert(qd[nb[x as int][t] as int]);
        }
    }
    assert forall|x: usize|
        x < n && #[trigger] c1[x as int] is Core implies seeds[label_id(c1[x as int])] <= x
        && connected(nb, min_points, seeds[label_id(c1[x as int])], x) by {
        if x == y {
            assert(listed_by_cluster(nb, c, q[0], k));
            let p = choose|p: usize|
                p < nb.len() && #[trigger] nb[p as int].contains(y) && c[p as int]
                    == Classification::Core(k as usize);
            assert(c[p as int] is Core);
            assert(linked(nb, min_points, p, y));
            lemma_path_extend(nb, min_points, seeds[k], p, y);
            assert(seeds[k] == seeds.last());
        } else {
            assert(c1[x as int] == c[x as int]);
        }
    }
    assert forall|x: usize| x < n && #[trigger] c1[x as int] is Edge implies edge_placed(nb, c1, x) by {
        assert(x != y);
        assert(c1[x as int] == c[x as int]);
        assert(edge_placed(nb, c, x));
        let p = choose|p: usize|
            p < nb.len() && #[trigger] nb[p as int].contains(x) && c[p as int]
                == Classification::Core(label_id(c[x as int]) as usize);
        assert(p != y);
        assert(nb[p as int].contains(x) && c1[p as int] == Classification::Core(label_id(c1[x as int]) as usize));
        assert forall|r: usize|
            r < nb.len() && c1[r as int] is Core && #[trigger] nb[r as int].contains(x) implies label_id(
                c1[x as int],
            ) <= label_id(c1[r as int]) by {
            if r != y {
                assert(c[r as int] is Core);
            }
        }
    }
    assert forall|p: usize, r: usize|
        #[trigger] linked(nb, min_points, p, r) && c1[p as int] is Core implies c1[r as int] == c1[p
        as int] || (q2.contains(r) && label_id(c1[p as int]) == seeds.len() - 1) by {
        if p == y {
            if r != y {
                if qd[r as int] {
                    if !q1.contains(r) {
                        assert(!q.contains(r));
                        assert(c[r as int] is Core);
                        assert(nb[r as int].contains(y));
                        assert(linked(nb, min_points, r, y));
                        assert(c[y as int] == c[r as int] || (q.contains(y) && label_id(c[r as int])
                            == seeds.len() - 1));
                    }
                }
            }
        } else {
            assert(c[p as int] is Core);
            assert(c[r as int] == c[p as int] || (q.contains(r) && label_id(c[p as int]) == seeds.len() - 1));
        }
    }
    assert forall|x: usize, t: int|
        x < n && c1[x as int] is Core && label_id(c1[x as int]) < seeds.len() - 1 && 0 <= t
            < nb[x as int].len() implies !(c1[#[trigger] nb[x as int][t] as int] is Noise) by {
        assert(x != y);
        assert(c[x as int] is Core);
        assert(!(c[nb[x as int][t] as int] is Noise));
    }
    assert forall|t: int| 0 <= t < q2.len() implies listed_by_cluster(nb, c1, #[trigger] q2[t], seeds.len() - 1) by {
        let x = q2[t];
        assert(q2.contains(x));
        if q1.contains(x) {
            let w = choose|w: int| 0 <= w < q1.len() && q1[w] == x;
            assert(q[w + 1] == x);
            assert(listed_by_cluster(nb, c, q[w + 1], k));
            let p = choose|p: usize|
                p < nb.len() && #[trigger] nb[p as int].contains(x) && c[p as int]
                    == Classification::Core(k as usize);
            assert(p != y);
            assert(nb[p as int].contains(x) && c1[p as int] == Classification::Core(k as usize));
        } else {
            assert(nb[y as int].contains(x) && c1[y as int] == Classification::Core(k as usize));
        }
    }
    assert forall|j: int| 0 <= j < seeds.len() implies #[trigger] seeds[j] < n && c1[seeds[j] as int]
        == Classification::Core(j as usize) by {
        assert(seeds[j] != y);
    }
    assert forall|x: usize| x < n && #[trigger] c1[x as int] is Edge implies !is_core(nb, min_points, x as int) && v1[x as int]
            && qd2[x as int] by {
        assert(x != y);
    }
}


/// Once every point is visited and the work queue is empty, the labels are
/// the DBSCAN labelling.
proof fn lemma_run_complete(
    nb: Seq<Seq<usize>>,
    min_points: usize,
    c: Seq<Classification>,
    v: Seq<bool>,
    qd: Seq<bool>,
    seeds: Seq<usize>,
)
    requires
        is_neighborhood(nb),
        run_state(nb, min_points, c, v, qd, seq![], seeds),
        forall|x: usize| x < nb.len() ==> v[x as int],
    ensures
        is_dbscan_labeling(nb, min_points, c),
{
    let n = nb.len();
    let e: Seq<usize> = seq![];
    assert forall|i: usize| i < c.len() implies (#[trigger] c[i as int] is Core <==> is_core(nb, min_points, i as int)) by {
        assert(v[i as int]);
    }
    assert forall|i: usize|
        i < c.len() && !is_core(nb, min_points, i as int) implies (#[trigger] c[i as int] is Noise
            <==> !adjacent_to_core(nb, min_points, i)) by {
        if adjacent_to_core(nb, min_points, i) {
            let p = choose|p: usize|
                p < nb.len() && is_core(nb, min_points, p as int) && #[trigger] nb[p as int].contains(i);
            assert(v[p as int]);
            let t = choose|t: int| 0 <= t < nb[p as int].len() && nb[p as int][t] == i;
            assert(qd[nb[p as int][t] as int]);
            assert(!e.contains(i));
        }
        if !(c[i as int] is Noise) {
            assert(c[i as int] is Edge);
            assert(edge_placed(nb, c, i));
            let p = choose|p: usize|
                p < nb.len() && #[trigger] nb[p as int].contains(i) && c[p as int]
                    == Classification::Core(label_id(c[i as int]) as usize);
            assert(is_core(nb, min_points, p as int));
        }
    }
    assert forall|p: usize, q: usize| #[trigger] linked(nb, min_points, p, q) implies c[p as int] == c[q as int] by {
        assert(v[p as int]);
        assert(!e.contains(q));
    }
    assert forall|p: usize, q: usize|
        #![trigger c[p as int], c[q as int]]
        p < c.len() && q < c.len() && is_core(nb, min_points, p as int) && is_core(
            nb,
            min_points,
            q as int,
        ) && label_id(c[p as int]) == label_id(c[q as int]) implies connected(nb, min_points, p, q) by {
        assert(v[p as int] && v[q as int]);
        assert(c[p as int] is Core && c[q as int] is Core);
        let k = label_id(c[p as int]);
        lemma_path_reverse(nb, min_points, seeds[k], p);
        lemma_path_join(nb, min_points, p, seeds[k], q);
    }
    assert forall|i: usize|
        i < c.len() && is_core(nb, min_points, i as int) && label_id(#[trigger] c[i as int]) > 0
            implies exists|j: usize|
            j < i && is_core(nb, min_points, j as int) && label_id(#[trigger] c[j as int])
                == label_id(c[i as int]) - 1 by {
        assert(v[i as int]);
        let k = label_id(c[i as int]);
        let j = seeds[k - 1];
        assert(seeds[k - 1] < seeds[k]);
        assert(c[j as int] == Classification::Core((k - 1) as usize));
        assert(label_id(c[j as int]) == label_id(c[i as int]) - 1);
    }
    assert forall|i: usize|
        i < c.len() && #[trigger] c[i as int] is Edge implies {
            &&& exists|p: usize|
                p < c.len() && is_core(nb, min_points, p as int) && #[trigger] nb[p as int].contains(i)
                    && label_id(c[p as int]) == label_id(c[i as int])
            &&& forall|p: usize|
                p < c.len() && is_core(nb, min_points, p as int) && #[trigger] nb[p as int].contains(i)
                    ==> label_id(c[i as int]) <= label_id(c[p as int])
        } by {
        assert(edge_placed(nb, c, i));
        let p = choose|p: usize|
            p < nb.len() && #[trigger] nb[p as int].contains(i) && c[p as int]
                == Classification::Core(label_id(c[i as int]) as usize);
        assert(is_core(nb, min_points, p as int));
        assert forall|r: usize|
            r < c.len() && is_core(nb, min_points, r as int) && #[trigger] nb[r as int].contains(i)
                implies label_id(c[i as int]) <= label_id(c[r as int]) by {
            assert(v[r as int]);
        }
    }
}

/// Expands cluster `cluster` from its first core point `seed`, breadth first.
fn expand_cluster(
    neighbors: &Vec<Vec<usize>>,
    min_points: usize,
    c: &mut Vec<Classification>,
    v: &mut Vec<bool>,
    queued: &mut Vec<bool>,
    seed: usize,
    cluster: usize,
    Ghost(seeds): Ghost<Seq<usize>>,
)
    requires
        is_neighborhood(lists_of(neighbors@)),
        run_state(lists_of(neighbors@), min_points, old(c)@, old(v)@, old(queued)@, seq![], seeds),
        seed < neighbors.len(),
        !old(v)@[seed as int],
        is_core(lists_of(neighbors@), min_points, seed as int),
        forall|j: int| 0 <= j < seeds.len() ==> #[trigger] seeds[j] < seed,
        forall|x: usize| x < seed ==> old(v)@[x as int],
        cluster == seeds.len(),
        cluster <= seed,
    ensures
        run_state(
            lists_of(neighbors@),
            min_points,
            final(c)@,
            final(v)@,
            final(queued)@,
            seq![],
            seeds.push(seed),
        ),
        forall|x: usize| x <= seed ==> final(v)@[x as int],
{
    let ghost nb = lists_of(neighbors@);
    let n = neighbors.len();
    let ghost c0 = c@;
    let ghost v0 = v@;
    let ghost qd0 = queued@;
    proof {
        assert(c0[seed as int] is Noise);
        assert(!qd0[seed as int]);
    }
    v.set(seed, true);
    c.set(seed, Classification::Core(cluster));
    queued.set(seed, true);
    let mut queue: VecDeque<usize> = VecDeque::new();
    enqueue_neighbors(neighbors, seed, queued, &mut queue);
    let ghost s2 = seeds.push(seed);
    proof {
        assert(nb[seed as int] == neighbors@[seed as int]@);
        assert(enqueued(nb, seed, qd0.update(seed as int, true), seq![], queued@, queue@));
        lemma_seed_step(nb, min_points, c0, v0, qd0, seeds, seed, queued@, queue@);
        lemma_count_true_bound(queued@);
    }
    while queue.len() > 0
        invariant
            is_neighborhood(nb),
            nb == lists_of(neighbors@),
            n == neighbors.len(),
            seed < n,
            s2 == seeds.push(seed),
            cluster == s2.len() - 1,
            run_state(nb, min_points, c@, v@, queued@, queue@, s2),
            forall|x: usize| x <= seed ==> v@[x as int],
            count_true(queued@) <= n,
        decreases 2 * (n - count_true(queued@)) + queue@.len(),
    {
        let ghost c1 = c@;
        let ghost v1 = v@;
        let ghost qd1 = queued@;
        let ghost q1 = queue@;
        let y = match queue.pop_front() {
            Some(y) => y,
            None => {
                return;
            },
        };
        proof {
            assert(y == q1[0]);
            assert(queue@ == q1.drop_first());
            assert(q1[0] < n);
        }
        if c[y] == Classification::Noise {
            c.set(y, Classification::Edge(cluster));
        }
        if !v[y] {
            v.set(y, true);
            if neighbors[y].len() >= min_points {
                c.set(y, Classification::Core(cluster));
                proof {
                    assert(s2.last() == seed);
                    assert forall|t: int| 0 <= t < queue@.len() implies #[trigger] queue@[t] < n
                        && queued@[queue@[t] as int] by {
                        assert(queue@[t] == q1[t + 1]);
                    }
                    assert forall|i: int, j: int|
                        0 <= i < queue@.len() && 0 <= j < queue@.len() && i != j implies queue@[i]
                        != queue@[j] by {
                        assert(queue@[i] == q1[i + 1] && queue@[j] == q1[j + 1]);
                    }
                }
                let ghost qb = queue@;
                enqueue_neighbors(neighbors, y, queued, &mut queue);
                proof {
                    assert(nb[y as int] == neighbors@[y as int]@);
                    assert(enqueued(nb, y, qd1, qb, queued@, queue@));
                    assert(c@ =~= c1.update(y as int, Classification::Core((s2.len() - 1) as usize)));
                    lemma_pop_core_step(nb, min_points, c1, v1, qd1, q1, s2, queued@, queue@);
                }
            } else {
                proof {
                    lemma_pop_edge_step(nb, min_points, c1, v1, qd1, q1, s2);
                }
            }
        } else {
            proof {
                assert(v@ =~= v1.update(y as int, true));
                lemma_pop_edge_step(nb, min_points, c1, v1, qd1, q1, s2);
            }
        }
        proof {
            lemma_count_true_bound(queued@);
        }
    }
}

/// Cluster points with the DBSCAN algorithm, given each point's neighbours
/// within the clustering radius (`neighbors[i]` lists the indices of the
/// points near point `i`, itself included where it counts itself).
///
/// Clusters are expanded breadth first, in order of their first core point;
/// a border point that two clusters reach joins the one numbered first.
pub fn cluster(neighbors: &Vec<Vec<usize>>, min_points: usize) -> (labels: Vec<Classification>)
    requires
        is_neighborhood(lists_of(neighbors@)),
    ensures
        is_dbscan_labeling(lists_of(neighbors@), min_points, labels@),
{
    let ghost nb = lists_of(neighbors@);
    let n = neighbors.len();
    let mut c: Vec<Classification> = Vec::new();
    let mut v: Vec<bool> = Vec::new();
    let mut queued: Vec<bool> = Vec::new();
    let mut i: usize = 0;
    while i < n
        invariant
            i <= n,
            c@ =~= Seq::new(i as nat, |_j: int| Classification::Noise),
            v@ =~= Seq::new(i as nat, |_j: int| false),
            queued@ =~= Seq::new(i as nat, |_j: int| false),
        decreases n - i,
    {
        c.push(Classification::Noise);
        v.push(false);
        queued.push(false);
        i = i + 1;
    }
    let mut cluster: usize = 0;
    let ghost mut seeds: Seq<usize> = seq![];
    let mut idx: usize = 0;
    while idx < n
        invariant
            is_neighborhood(nb),
            nb == lists_of(neighbors@),
            n == neighbors.len(),
            idx <= n,
            run_state(nb, min_points, c@, v@, queued@, seq![], seeds),
            forall|x: usize| x < idx ==> v@[x as int],
            forall|j: int| 0 <= j < seeds.len() ==> #[trigger] seeds[j] < idx,
            cluster == seeds.len(),
            cluster <= idx,
        decreases n - idx,
    {
        if !v[idx] {
            if neighbors[idx].len() >= min_points {
                proof {
                    assert(nb[idx as int] == neighbors@[idx as int]@);
                }
                expand_cluster(neighbors, min_points, &mut c, &mut v, &mut queued, idx, cluster, Ghost(seeds));
                proof {
                    seeds = seeds.push(idx);
                }
                cluster = cluster + 1;
            } else {
                let ghost v0 = v@;
                v.set(idx, true);
                proof {
                    assert(nb[idx as int] == neighbors@[idx as int]@);
                    assert(!is_core(nb, min_points, idx as int));
                    assert forall|x: usize|
                        x < n && #[trigger] v@[x as int] && is_core(nb, min_points, x as int) implies c@[x as int] is Core by {
                        if x != idx {
                            assert(v0[x as int]);
                        }
                    }
                }
            }
        }
        idx = idx + 1;
    }
    proof {
        lemma_run_complete(nb, min_points, c@, v@, queued@, seeds);
    }
    c
}


// ----------------------------------------------------------------------------
// Checking a neighbourhood, grouping a labelling
// ----------------------------------------------------------------------------

/// Whether `x` occurs in `list`.
fn list_contains(list: &Vec<usize>, x: usize) -> (found: bool)
    ensures
        found == list@.contains(x),
{
    let mut t: usize = 0;
    while t < list.len()
        invariant
            t <= list.len(),
            forall|u: int| 0 <= u < t ==> list@[u] != x,
        decreases list.len() - t,
    {
        if list[t] == x {
            return true;
        }
        t = t + 1;
    }
    false
}

/// Whether `neighbors` has the shape that [`cluster`] requires: every index
/// in range and the relation symmetric.
pub fn is_neighborhood_exec(neighbors: &Vec<Vec<usize>>) -> (ok: bool)
    ensures
        ok == is_neighborhood(lists_of(neighbors@)),
{
    let ghost nb = lists_of(neighbors@);
    let n = neighbors.len();
    let mut i: usize = 0;
    while i < n
        invariant
            n == neighbors.len(),
            nb == lists_of(neighbors@),
            i <= n,
            forall|a: int, t: int| 0 <= a < i && 0 <= t < nb[a].len() ==> #[trigger] nb[a][t] < n,
            forall|a: usize, b: usize|
                a < i && #[trigger] nb[a as int].contains(b) ==> b < n && nb[b as int].contains(a),
        decreases n - i,
    {
        let list = &neighbors[i];
        proof {
            assert(nb[i as int] == list@);
        }
        let mut t: usize = 0;
        while t < list.len()
            invariant
                n == neighbors.len(),
                nb == lists_of(neighbors@),
                i < n,
                list@ == nb[i as int],
                t <= list.len(),
                forall|a: int, u: int| 0 <= a < i && 0 <= u < nb[a].len() ==> #[trigger] nb[a][u] < n,
                forall|a: usize, b: usize|
                    a < i && #[trigger] nb[a as int].contains(b) ==> b < n && nb[b as int].contains(a),
                forall|u: int| 0 <= u < t ==> #[trigger] list@[u] < n && nb[list@[u] as int].contains(i),
            decreases list.len() - t,
        {
            let j = list[t];
            if j >= n {
                proof {
                    assert(nb[i as int][t as int] >= n);
                }
                return false;
            }
            if !list_contains(&neighbors[j], i) {
                proof {
                    assert(nb[j as int] == neighbors@[j as int]@);
                    assert(nb[i as int].contains(j));
                }
                return false;
            }
            proof {
                assert(nb[j as int] == neighbors@[j as int]@);
            }
            t = t + 1;
        }
        proof {
            assert forall|a: usize, b: usize|
                a < i + 1 && #[trigger] nb[a as int].contains(b) implies b < n && nb[b as int].contains(a) by {
                if a == i {
                    let u = choose|u: int| 0 <= u < list@.len() && list@[u] == b;
                    assert(list@[u] < n);
                }
            }
        }
        i = i + 1;
    }
    proof {
        assert forall|a: usize, b: usize|
            #![trigger nb[a as int].contains(b)]
            #![trigger nb[b as int].contains(a)]
            a < nb.len() && b < nb.len() implies (nb[a as int].contains(b) <==> nb[b as int].contains(a)) by {
        }
    }
    true
}

/// The cluster numbers used by `labels` run below this bound.
pub open spec fn cluster_count(labels: Seq<Classification>) -> nat
    decreases labels.len(),
{
    if labels.len() == 0 {
        0
    } else {
        let rest = cluster_count(labels.drop_last());
        let here = label_id(labels.last()) + 1;
        if here > rest {
            here as nat
        } else {
            rest
        }
    }
}

/// Whether a label puts its point in cluster `k` for grouping purposes.
pub open spec fn grouped_in(c: Classification, k: int, include_edges: bool) -> bool {
    match c {
        Classification::Core(j) => j == k,
        Classification::Edge(j) => include_edges && j == k,
        Classification::Noise => false,
    }
}

proof fn lemma_cluster_count(labels: Seq<Classification>)
    ensures
        forall|i: int| 0 <= i < labels.len() ==> label_id(#[trigger] labels[i]) < cluster_count(labels),
        labels.len() > 0 && cluster_count(labels) > 0 ==> exists|i: int|
            0 <= i < labels.len() && label_id(#[trigger] labels[i]) == cluster_count(labels) - 1,
    decreases labels.len(),
{
    if labels.len() > 0 {
        let rest = labels.drop_last();
        lemma_cluster_count(rest);
        assert forall|i: int| 0 <= i < labels.len() implies label_id(#[trigger] labels[i]) < cluster_count(labels) by {
            if i < rest.len() {
                assert(labels[i] == rest[i]);
            }
        }
        if cluster_count(labels) > 0 {
            if label_id(labels.last()) + 1 > cluster_count(rest) {
                assert(label_id(labels[labels.len() - 1]) == cluster_count(labels) - 1);
            } else {
                let i = choose|i: int| 0 <= i < rest.len() && label_id(#[trigger] rest[i]) == cluster_count(rest) - 1;
                assert(labels[i] == rest[i]);
            }
        }
    }
}

/// `groups[k]` lists, in increasing order, exactly the points that `labels`
/// puts in cluster `k`, for every `k` below [`cluster_count`].
pub open spec fn is_grouping(
    labels: Seq<Classification>,
    include_edges: bool,
    groups: Seq<Seq<usize>>,
) -> bool {
    &&& groups.len() == cluster_count(labels)
    &&& forall|k: int, t1: int, t2: int|
        0 <= k < groups.len() && 0 <= t1 < t2 < groups[k].len() ==> #[trigger] groups[k][t1]
            < #[trigger] groups[k][t2]
    &&& forall|k: int, i: usize|
        0 <= k < groups.len() ==> (#[trigger] groups[k].contains(i) <==> (i < labels.len()
            && grouped_in(labels[i as int], k, include_edges)))
}

/// A grouping places every clustered point in exactly one group, the one of
/// its cluster number, and no other point anywhere: groups never share a
/// point, so no building is counted in two locations.
pub proof fn lemma_grouping_partitions(
    labels: Seq<Classification>,
    include_edges: bool,
    groups: Seq<Seq<usize>>,
)
    requires
        is_grouping(labels, include_edges, groups),
    ensures
        forall|k1: int, k2: int, i: usize|
            0 <= k1 < groups.len() && 0 <= k2 < groups.len() && k1 != k2 ==> !(
            #[trigger] groups[k1].contains(i) && #[trigger] groups[k2].contains(i)),
        forall|i: usize|
            i < labels.len() && grouped_in(#[trigger] labels[i as int], label_id(labels[i as int]), include_edges)
                ==> groups[label_id(labels[i as int])].contains(i),
        forall|i: usize|
            i < labels.len() && labels[i as int] is Noise ==> forall|k: int|
                0 <= k < groups.len() ==> !(#[trigger] groups[k].contains(i)),
{
    lemma_cluster_count(labels);
    assert forall|i: usize|
        i < labels.len() && grouped_in(#[trigger] labels[i as int], label_id(labels[i as int]), include_edges)
            implies groups[label_id(labels[i as int])].contains(i) by {
        assert(label_id(labels[i as int]) < cluster_count(labels));
    }
}

/// Groups point indices by cluster: `groups[k]` lists, in increasing order,
/// the points labelled `Core(k)` (and `Edge(k)` when `include_edges`), for
/// every cluster number `k` that `labels` uses or passes over.
pub fn group_by_cluster(labels: &Vec<Classification>, include_edges: bool) -> (groups: Vec<Vec<usize>>)
    requires
        forall|i: int| 0 <= i < labels.len() ==> label_id(#[trigger] labels@[i]) < labels.len(),
    ensures
        is_grouping(labels@, include_edges, lists_of(groups@)),
{
    let n = labels.len();
    let mut count: usize = 0;
    let mut i: usize = 0;
    while i < n
        invariant
            n == labels.len(),
            i <= n,
            count == cluster_count(labels@.subrange(0, i as int)),
            count <= n,
            forall|j: int| 0 <= j < labels.len() ==> label_id(#[trigger] labels@[j]) < labels.len(),
        decreases n - i,
    {
        proof {
            assert(labels@.subrange(0, i + 1).drop_last() =~= labels@.subrange(0, i as int));
        }
        match labels[i] {
            Classification::Core(k) | Classification::Edge(k) => {
                if k >= count {
                    count = k + 1;
                }
            },
            Classification::Noise => {},
        }
        i = i + 1;
    }
    proof {
        assert(labels@.subrange(0, n as int) =~= labels@);
        lemma_cluster_count(labels@);
    }
    let mut groups: Vec<Vec<usize>> = Vec::new();
    let mut k: usize = 0;
    while k < count
        invariant
            k <= count,
            groups.len() == k,
            forall|j: int| 0 <= j < k ==> (#[trigger] groups@[j])@.len() == 0,
        decreases count - k,
    {
        groups.push(Vec::new());
        k = k + 1;
    }
    let mut i: usize = 0;
    while i < n
        invariant
            n == labels.len(),
            i <= n,
            groups.len() == count,
            count == cluster_count(labels@),
            forall|j: int| 0 <= j < labels.len() ==> label_id(#[trigger] labels@[j]) < count,
            forall|g: int, t1: int, t2: int|
                0 <= g < groups.len() && 0 <= t1 < t2 < groups@[g]@.len() ==> #[trigger] groups@[g]@[t1]
                    < #[trigger] groups@[g]@[t2],
            forall|g: int, t: int|
                0 <= g < groups.len() && 0 <= t < groups@[g]@.len() ==> #[trigger] groups@[g]@[t] < i,
            forall|g: int, x: usize|
                0 <= g < groups.len() ==> (#[trigger] groups@[g]@.contains(x) <==> (x < i
                    && grouped_in(labels@[x as int], g, include_edges))),
        decreases n - i,
    {
        let label = labels[i];
        let target: Option<usize> = match label {
            Classification::Core(k) => Some(k),
            Classification::Edge(k) => if include_edges {
                Some(k)
            } else {
                None
            },
            Classification::Noise => None,
        };
        let ghost old_groups = groups@;
        match target {
            Some(k) => {
                proof {
                    assert(label_id(labels@[i as int]) < count);
                }
                let ghost before = groups@[k as int]@;
                groups[k].push(i);
                proof {
                    assert(groups@[k as int]@ == before.push(i));
                    assert(grouped_in(labels@[i as int], k as int, include_edges));
                    assert(label_id(labels@[i as int]) == k);
                    assert forall|g: int| g != k implies !grouped_in(labels@[i as int], g, include_edges) by {}
                    assert forall|g: int| 0 <= g < groups.len() && g != k implies #[trigger] groups@[g] == old_groups[g] by {}
                    assert forall|g: int, x: usize|
                        0 <= g < groups.len() implies (#[trigger] groups@[g]@.contains(x) <==> (x < i + 1
                            && grouped_in(labels@[x as int], g, include_edges))) by {
                        if g == k {
                            if x == i {
                                assert(groups@[g]@[before.len() as int] == x);
                            } else if groups@[g]@.contains(x) {
                                let w = choose|w: int| 0 <= w < groups@[g]@.len() && groups@[g]@[w] == x;
                                assert(w < before.len());
                                assert(before[w] == x);
                                assert(old_groups[g]@.contains(x));
                            } else if x < i && grouped_in(labels@[x as int], g, include_edges) {
                                assert(old_groups[g]@.contains(x));
                                let w = choose|w: int| 0 <= w < before.len() && before[w] == x;
                                assert(groups@[g]@[w] == x);
                            }
                        } else {
                            assert(groups@[g] == old_groups[g]);
                            if groups@[g]@.contains(x) {
                                assert(old_groups[g]@.contains(x));
                            }
                            if x == i {
                                assert(!grouped_in(labels@[i as int], g, include_edges));
                            }
                        }
                    }
                    assert forall|g: int, t1: int, t2: int|
                        0 <= g < groups.len() && 0 <= t1 < t2 < groups@[g]@.len() implies #[trigger] groups@[g]@[t1]
                            < #[trigger] groups@[g]@[t2] by {
                        if g == k {
                            if t2 == before.len() {
                                assert(old_groups[g]@[t1] < i);
                            } else {
                                assert(old_groups[g]@[t1] < old_groups[g]@[t2]);
                            }
                        } else {
                            assert(groups@[g] == old_groups[g]);
                        }
                    }
                    assert forall|g: int, t: int|
                        0 <= g < groups.len() && 0 <= t < groups@[g]@.len() implies #[trigger] groups@[g]@[t] < i + 1 by {
                        if g == k && t < before.len() {
                            assert(old_groups[g]@[t] < i);
                        } else if g != k {
                            assert(groups@[g] == old_groups[g]);
                        }
                    }
                }
            },
            None => {
                proof {
                    assert forall|g: int, x: usize|
                        0 <= g < groups.len() implies (#[trigger] groups@[g]@.contains(x) <==> (x < i + 1
                            && grouped_in(labels@[x as int], g, include_edges))) by {
                        if groups@[g]@.contains(x) {
                            assert(x < i);
                        }
                    }
                }
            },
        }
        i = i + 1;
    }
    groups
}


// ----------------------------------------------------------------------------
// Laws of the labelling
// ----------------------------------------------------------------------------

/// Along a walk through core points every point carries the walk's first label.
proof fn lemma_connected_same_label(
    nb: Seq<Seq<usize>>,
    min_points: usize,
    c: Seq<Classification>,
    p: usize,
    q: usize,
)
    requires
        is_dbscan_labeling(nb, min_points, c),
        connected(nb, min_points, p, q),
    ensures
        c[p as int] == c[q as int],
{
    let path = choose|path: Seq<usize>|
        #[trigger] is_core_path(nb, min_points, path) && path[0] == p && path.last() == q;
    lemma_path_prefix_same_label(nb, min_points, c, path, path.len() - 1);
}

proof fn lemma_path_prefix_same_label(
    nb: Seq<Seq<usize>>,
    min_points: usize,
    c: Seq<Classification>,
    path: Seq<usize>,
    t: int,
)
    requires
        links_share_cluster(nb, min_points, c),
        is_core_path(nb, min_points, path),
        0 <= t < path.len(),
    ensures
        c[path[t] as int] == c[path[0] as int],
    decreases t,
{
    if t > 0 {
        lemma_path_prefix_same_label(nb, min_points, c, path, t - 1);
        assert(path_step(nb, path, t - 1));
        assert(path[t - 1] < nb.len() && path[t] < nb.len());
        assert(linked(nb, min_points, path[t - 1], path[t]));
    }
}

/// Every cluster number below that of core point `j` already labels some core
/// point at or before `j`.
proof fn lemma_numbers_below(nb: Seq<Seq<usize>>, min_points: usize, c: Seq<Classification>, j: usize, d: int)
    requires
        is_dbscan_labeling(nb, min_points, c),
        j < c.len(),
        is_core(nb, min_points, j as int),
        0 <= d <= label_id(c[j as int]),
    ensures
        exists|i: usize| i <= j && is_core(nb, min_points, i as int) && label_id(#[trigger] c[i as int]) == d,
    decreases label_id(c[j as int]) - d,
{
    if d < label_id(c[j as int]) {
        assert(c[j as int] is Core);
        let i = choose|i: usize|
            i < j && is_core(nb, min_points, i as int) && label_id(#[trigger] c[i as int])
                == label_id(c[j as int]) - 1;
        lemma_numbers_below(nb, min_points, c, i, d);
    } else {
        assert(label_id(c[j as int]) == d);
    }
}

/// Core point `i` carries the same label in any two DBSCAN labellings.
proof fn lemma_unique_core_label(
    nb: Seq<Seq<usize>>,
    min_points: usize,
    c1: Seq<Classification>,
    c2: Seq<Classification>,
    i: usize,
)
    requires
        is_dbscan_labeling(nb, min_points, c1),
        is_dbscan_labeling(nb, min_points, c2),
        i < nb.len(),
        is_core(nb, min_points, i as int),
    ensures
        c1[i as int] == c2[i as int],
    decreases i,
{
    assert(c1[i as int] is Core && c2[i as int] is Core);
    let d1 = label_id(c1[i as int]);
    let d2 = label_id(c2[i as int]);
    if d1 < d2 {
        lemma_numbers_below(nb, min_points, c2, i, d1);
        let j = choose|j: usize| j <= i && is_core(nb, min_points, j as int) && label_id(#[trigger] c2[j as int]) == d1;
        assert(j != i);
        lemma_unique_core_label(nb, min_points, c1, c2, j);
        assert(label_id(c1[j as int]) == d1);
        assert(connected(nb, min_points, j, i));
        lemma_connected_same_label(nb, min_points, c2, j, i);
    } else if d2 < d1 {
        lemma_numbers_below(nb, min_points, c1, i, d2);
        let j = choose|j: usize| j <= i && is_core(nb, min_points, j as int) && label_id(#[trigger] c1[j as int]) == d2;
        assert(j != i);
        lemma_unique_core_label(nb, min_points, c1, c2, j);
        assert(label_id(c2[j as int]) == d2);
        assert(connected(nb, min_points, j, i));
        lemma_connected_same_label(nb, min_points, c1, j, i);
    }
}

/// The DBSCAN labelling is determined by the neighbour lists and
/// `min_points` alone: any two labellings that meet its specification are
/// equal, so every correct implementation (breadth first, depth first,
/// brute-force radius queries or a k-d tree) labels the points alike.
pub proof fn lemma_labeling_unique(
    nb: Seq<Seq<usize>>,
    min_points: usize,
    c1: Seq<Classification>,
    c2: Seq<Classification>,
)
    requires
        is_dbscan_labeling(nb, min_points, c1),
        is_dbscan_labeling(nb, min_points, c2),
        nb.len() <= usize::MAX,
    ensures
        c1 == c2,
{
    assert forall|i: int| 0 <= i < c1.len() implies c1[i] == c2[i] by {
        let x = i as usize;
        if is_core(nb, min_points, i) {
            lemma_unique_core_label(nb, min_points, c1, c2, x);
        } else {
            assert(c1[x as int] is Noise <==> c2[x as int] is Noise);
            if c1[i] is Edge {
                assert(c2[i] is Edge);
                let p1 = choose|p: usize|
                    p < c1.len() && is_core(nb, min_points, p as int) && #[trigger] nb[p as int].contains(x)
                        && label_id(c1[p as int]) == label_id(c1[x as int]);
                let p2 = choose|p: usize|
                    p < c2.len() && is_core(nb, min_points, p as int) && #[trigger] nb[p as int].contains(x)
                        && label_id(c2[p as int]) == label_id(c2[x as int]);
                lemma_unique_core_label(nb, min_points, c1, c2, p1);
                lemma_unique_core_label(nb, min_points, c1, c2, p2);
                assert(label_id(c1[x as int]) <= label_id(c1[p2 as int]));
                assert(label_id(c2[x as int]) <= label_id(c2[p1 as int]));
            }
        }
    }
    assert(c1 =~= c2);
}

/// Cluster numbers of a DBSCAN labelling stay below the number of points;
/// a core point's cluster number is at most its index.
pub proof fn lemma_labeling_ids_bounded(nb: Seq<Seq<usize>>, min_points: usize, c: Seq<Classification>)
    requires
        is_dbscan_labeling(nb, min_points, c),
        nb.len() <= usize::MAX,
    ensures
        forall|i: int| 0 <= i < c.len() ==> label_id(#[trigger] c[i]) < c.len(),
        forall|i: int| 0 <= i < c.len() && #[trigger] c[i] is Core ==> label_id(c[i]) <= i,
{
    assert forall|i: int| 0 <= i < c.len() && #[trigger] c[i] is Core implies label_id(c[i]) <= i by {
        lemma_numbers_below(nb, min_points, c, i as usize, 0);
        lemma_core_id_at_most_index(nb, min_points, c, i as usize);
    }
    assert forall|i: int| 0 <= i < c.len() implies label_id(#[trigger] c[i]) < c.len() by {
        let x = i as usize;
        if c[i] is Edge {
            let p = choose|p: usize|
                p < c.len() && is_core(nb, min_points, p as int) && #[trigger] nb[p as int].contains(x)
                    && label_id(c[p as int]) == label_id(c[x as int]);
            lemma_core_id_at_most_index(nb, min_points, c, p);
        } else if c[i] is Core {
            lemma_core_id_at_most_index(nb, min_points, c, x);
        }
    }
}

proof fn lemma_core_id_at_most_index(nb: Seq<Seq<usize>>, min_points: usize, c: Seq<Classification>, i: usize)
    requires
        is_dbscan_labeling(nb, min_points, c),
        i < c.len(),
        c[i as int] is Core,
    ensures
        0 <= label_id(c[i as int]) <= i,
    decreases i,
{
    assert(is_core(nb, min_points, i as int));
    if label_id(c[i as int]) > 0 {
        let j = choose|j: usize|
            j < i && is_core(nb, min_points, j as int) && label_id(#[trigger] c[j as int])
                == label_id(c[i as int]) - 1;
        lemma_core_id_at_most_index(nb, min_points, c, j);
    }
}

/// With `min_points == 2` and every point listing itself once, DBSCAN is
/// connected components: a point is noise exactly when it has no other
/// neighbour, no point is an edge point, and two non-noise points share a
/// cluster exactly when a walk of linked points joins them.
pub proof fn lemma_min_points_two_is_components(nb: Seq<Seq<usize>>, c: Seq<Classification>)
    requires
        is_neighborhood(nb),
        forall|i: int| 0 <= i < nb.len() ==> #[trigger] nb[i].contains(i as usize) && nb[i].no_duplicates(),
        is_dbscan_labeling(nb, 2, c),
        nb.len() <= usize::MAX,
    ensures
        forall|i: int| 0 <= i < c.len() ==> (#[trigger] c[i] is Noise <==> nb[i].len() == 1),
        forall|i: int| 0 <= i < c.len() ==> !(#[trigger] c[i] is Edge),
        forall|p: usize, q: usize|
            #![trigger c[p as int], c[q as int]]
            p < c.len() && q < c.len() && !(c[p as int] is Noise) && !(c[q as int] is Noise) ==> (c[p as int]
                == c[q as int] <==> connected(nb, 2, p, q)),
{
    assert forall|i: int| 0 <= i < c.len() implies !(#[trigger] c[i] is Edge) && (c[i] is Noise <==> nb[i].len() == 1) by {
        let x = i as usize;
        assert(nb[i].contains(x));
        assert(nb[i].len() >= 1);
        if !is_core(nb, 2, i) {
            assert(nb[i].len() == 1);
            if adjacent_to_core(nb, 2, x) {
                let p = choose|p: usize|
                    p < nb.len() && is_core(nb, 2, p as int) && #[trigger] nb[p as int].contains(x);
                assert(nb[i].contains(p));
                let w = choose|w: int| 0 <= w < nb[i].len() && nb[i][w] == p;
                let w0 = choose|w: int| 0 <= w < nb[i].len() && nb[i][w] == x;
                assert(p == x);
            }
            assert(c[i] is Noise);
        } else {
            if nb[i].len() == 1 {
                assert(nb[i].len() >= 2);
            }
        }
    }
    assert forall|p: usize, q: usize|
        #![trigger c[p as int], c[q as int]]
        p < c.len() && q < c.len() && !(c[p as int] is Noise) && !(c[q as int] is Noise) implies (c[p as int]
            == c[q as int] <==> connected(nb, 2, p, q)) by {
        assert(!(c[p as int] is Edge) && !(c[q as int] is Edge));
        assert(c[p as int] is Core && c[q as int] is Core);
        if connected(nb, 2, p, q) {
            lemma_connected_same_label(nb, 2, c, p, q);
        }
    }
}

} // verus!
